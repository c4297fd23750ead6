use spdx_expr::error::Reason;
use spdx_expr::{Expression, LicenseItem, LicenseReq};

fn atom_id(req: &LicenseReq) -> &str {
    match &req.license {
        LicenseItem::Spdx { id, .. } => id.as_str(),
        LicenseItem::Other { lic_ref, .. } => lic_ref.as_str(),
    }
}

#[test]
fn eq() {
    let normal = Expression::parse("MIT OR Apache-2.0").unwrap();
    let extra_parens = Expression::parse("(MIT OR (Apache-2.0))").unwrap();
    let llvm_exc = Expression::parse("MIT OR Apache-2.0 WITH LLVM-exception").unwrap();

    assert_eq!(normal, normal);
    assert_eq!(extra_parens, extra_parens);
    assert_eq!(llvm_exc, llvm_exc);

    assert_eq!(normal, extra_parens);

    assert_ne!(normal, llvm_exc);
}

#[test]
fn parse_is_idempotent() {
    let a = Expression::parse("MIT OR Apache-2.0 WITH LLVM-exception").unwrap();
    let b = Expression::parse("MIT OR Apache-2.0 WITH LLVM-exception").unwrap();
    assert!(a == b);
}

#[test]
fn requirements_yields_atoms_in_order() {
    let e = Expression::parse("MIT OR Apache-2.0 WITH LLVM-exception AND 0BSD").unwrap();
    let reqs = e.requirements();
    assert_eq!(reqs.len(), 3);
    assert_eq!(atom_id(&reqs[0].req), "MIT");
    assert_eq!(atom_id(&reqs[1].req), "Apache-2.0");
    assert_eq!(atom_id(&reqs[2].req), "0BSD");
    assert_eq!(reqs[0].span.start, 0);
    assert_eq!(reqs[0].span.end, 3);
    assert_eq!(reqs[1].span.start, 7);
    assert_eq!(reqs[1].span.end, 17);
    assert_eq!(reqs[2].span.start, 42);
    assert_eq!(reqs[2].span.end, 46);
    assert_eq!(reqs[1].req.exception.as_deref(), Some("LLVM-exception"));
    assert_eq!(reqs[0].req.exception, None);
}

#[test]
fn evaluate_constant_predicates() {
    for text in ["MIT", "MIT OR Apache-2.0", "(MIT AND Apache-2.0) OR 0BSD"] {
        let e = Expression::parse(text).unwrap();
        assert!(e.evaluate(|_req: &LicenseReq| true));
        assert!(!e.evaluate(|_req: &LicenseReq| false));
    }
}

#[test]
fn evaluate_with_exception_predicate() {
    let e = Expression::parse("MIT OR Apache-2.0 WITH LLVM-exception").unwrap();
    let ok = e.evaluate(|req: &LicenseReq| {
        atom_id(req) == "Apache-2.0" && req.exception.as_deref() == Some("LLVM-exception")
    });
    assert!(ok);
}

#[test]
fn failures_include_every_false_requirement() {
    let e = Expression::parse("MIT OR Apache-2.0 WITH LLVM-exception").unwrap();
    assert!(!e.evaluate(|_req: &LicenseReq| false));
    let failed = e.evaluate_with_failures(|_req: &LicenseReq| false).unwrap_err();
    assert_eq!(failed.len(), 2);
    assert_eq!(atom_id(&failed[0].req), "MIT");
    assert_eq!(atom_id(&failed[1].req), "Apache-2.0");
}

#[test]
fn failures_skip_satisfied_requirements() {
    let e = Expression::parse("(MIT AND Apache-2.0) OR 0BSD").unwrap();
    let pred = |req: &LicenseReq| atom_id(req) == "MIT";
    assert!(!e.evaluate(pred));
    let failed = e.evaluate_with_failures(pred).unwrap_err();
    assert_eq!(failed.len(), 2);
    assert_eq!(atom_id(&failed[0].req), "Apache-2.0");
    assert_eq!(atom_id(&failed[1].req), "0BSD");
}

#[test]
fn failures_absent_when_satisfied() {
    let e = Expression::parse("MIT OR Apache-2.0").unwrap();
    assert!(e.evaluate_with_failures(|req: &LicenseReq| atom_id(req) == "MIT").is_ok());
}

#[test]
fn error_empty_expression() {
    let e = Expression::parse("").unwrap_err();
    assert!(matches!(e.reason, Reason::Empty));
    assert_eq!(e.span.start, 0);
    assert_eq!(e.span.end, 0);
}

#[test]
fn error_unexpected_end_of_input() {
    let e = Expression::parse("MIT AND").unwrap_err();
    assert_eq!(e.span.start, 7);
    assert_eq!(e.span.end, 7);
    match e.reason {
        Reason::Unexpected(alts) => {
            assert!(alts.iter().any(|s| s == "<license>"));
            assert!(alts.iter().any(|s| s == "("));
        }
        other => panic!("wrong reason: {:?}", other),
    }
}

#[test]
fn error_unclosed_parens() {
    let e = Expression::parse("(MIT").unwrap_err();
    assert!(matches!(e.reason, Reason::UnclosedParens));
    assert_eq!(e.span.start, 0);
    assert_eq!(e.span.end, 1);
}

#[test]
fn error_unopened_parens() {
    let e = Expression::parse("MIT)").unwrap_err();
    assert!(matches!(e.reason, Reason::UnopenedParens));
    assert_eq!(e.span.start, 3);
    assert_eq!(e.span.end, 4);
}

#[test]
fn error_adjacent_atoms() {
    let e = Expression::parse("MIT MIT").unwrap_err();
    assert!(matches!(e.reason, Reason::Unexpected(_)));
    assert_eq!(e.span.start, 4);
    assert_eq!(e.span.end, 7);
}

#[test]
fn plus_sets_or_later() {
    let e = Expression::parse("MIT+").unwrap();
    let reqs = e.requirements();
    assert_eq!(reqs.len(), 1);
    match &reqs[0].req.license {
        LicenseItem::Spdx { id, or_later } => {
            assert_eq!(id, "MIT");
            assert!(*or_later);
        }
        other => panic!("wrong license item: {:?}", other),
    }
    let plain = Expression::parse("MIT").unwrap();
    assert!(e != plain);
}

#[test]
fn plus_after_license_ref_is_error() {
    let e = Expression::parse("LicenseRef-foo+").unwrap_err();
    assert!(matches!(e.reason, Reason::Unexpected(_)));
    assert_eq!(e.span.start, 14);
    assert_eq!(e.span.end, 15);
}

#[test]
fn document_ref_parses() {
    let e = Expression::parse("DocumentRef-spdx-tool-1.2:LicenseRef-MIT-Style-2").unwrap();
    let reqs = e.requirements();
    assert_eq!(reqs.len(), 1);
    match &reqs[0].req.license {
        LicenseItem::Other { doc_ref, lic_ref } => {
            assert_eq!(doc_ref.as_deref(), Some("spdx-tool-1.2"));
            assert_eq!(lic_ref, "MIT-Style-2");
        }
        other => panic!("wrong license item: {:?}", other),
    }
}

#[test]
fn original_text_is_kept_verbatim() {
    let text = "(MIT OR (Apache-2.0))";
    let e = Expression::parse(text).unwrap();
    assert_eq!(e.original_text(), text);
}

#[test]
fn error_invalid_character() {
    let e = Expression::parse("MIT &").unwrap_err();
    assert!(matches!(e.reason, Reason::InvalidCharacter));
    assert_eq!(e.span.start, 4);
    assert_eq!(e.span.end, 5);
    assert_eq!(e.original, "MIT &");
}

#[test]
fn error_malformed_document_ref() {
    let e = Expression::parse("DocumentRef-only").unwrap_err();
    assert!(matches!(e.reason, Reason::MalformedDocumentRef));
}

#[test]
fn and_binds_tighter_than_or() {
    let flat = Expression::parse("MIT AND Apache-2.0 OR 0BSD").unwrap();
    let grouped = Expression::parse("(MIT AND Apache-2.0) OR 0BSD").unwrap();
    let other = Expression::parse("MIT AND (Apache-2.0 OR 0BSD)").unwrap();
    assert!(flat == grouped);
    assert!(flat != other);
    // Only the bottom disjunct is granted: (f AND f) OR t must hold.
    assert!(flat.evaluate(|req: &LicenseReq| atom_id(req) == "0BSD"));
    assert!(!other.evaluate(|req: &LicenseReq| atom_id(req) == "0BSD"));
}

#[test]
fn equal_precedence_groups_left() {
    let flat = Expression::parse("MIT AND Apache-2.0 AND 0BSD").unwrap();
    let left = Expression::parse("(MIT AND Apache-2.0) AND 0BSD").unwrap();
    assert!(flat == left);
}

#[test]
fn whitespace_is_ignored() {
    let e = Expression::parse("  MIT \t OR\n Apache-2.0 ").unwrap();
    let plain = Expression::parse("MIT OR Apache-2.0").unwrap();
    assert!(e == plain);
}

#[test]
fn or_later_reaches_the_predicate() {
    let plus = Expression::parse("MIT+").unwrap();
    let plain = Expression::parse("MIT").unwrap();
    let pred = |req: &LicenseReq| matches!(req.license, LicenseItem::Spdx { or_later: true, .. });
    assert!(plus.evaluate(pred));
    assert!(!plain.evaluate(pred));
}

#[test]
fn requirement_text_round_trips() {
    let e = Expression::parse("MIT+ AND Apache-2.0 WITH LLVM-exception OR DocumentRef-d:LicenseRef-l").unwrap();
    let reqs = e.requirements();
    assert_eq!(reqs[0].req.to_text(), "MIT+");
    assert_eq!(reqs[1].req.to_text(), "Apache-2.0 WITH LLVM-exception");
    assert_eq!(reqs[2].req.to_text(), "DocumentRef-d:LicenseRef-l");
}
