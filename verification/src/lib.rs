//! Parsing and evaluation of SPDX license expressions.
//!
//! A license expression is a boolean formula over license requirements,
//! joined by `AND` and `OR`, with `WITH <exception>` and `+` suffixes and
//! parentheses. [`Expression::parse`] turns the text into a postfix node
//! sequence that is well formed by construction; the evaluators walk that
//! sequence with a caller-supplied predicate.

pub mod error;
pub mod expression;
pub mod laws;
pub mod lexer;
pub mod parser;
pub mod smallvec_specs;

pub use expression::{Expression, ExpressionReq, Operator};

use vstd::prelude::*;

verus! {

/// A half-open range of offsets into the expression text.
///
/// The accepted grammar is ASCII, so character offsets and byte offsets
/// coincide for every expression that parses.
#[derive(Debug, Clone, Copy, PartialEq, Eq, Structural)]
pub struct Span {
    pub start: u32,
    pub end: u32,
}

/// A single license term inside an expression.
#[derive(Debug, Clone)]
pub enum LicenseItem {
    /// A registered SPDX short identifier, with the or-later flag that a
    /// `+` suffix sets.
    Spdx { id: String, or_later: bool },
    /// A user-defined reference: optional document reference plus the
    /// license reference itself.
    Other { doc_ref: Option<String>, lic_ref: String },
}

/// A license requirement: a license term plus the optional exception
/// attached by `WITH`.
#[derive(Debug, Clone)]
pub struct LicenseReq {
    pub license: LicenseItem,
    pub exception: Option<String>,
}

/// Mathematical value of a [`LicenseItem`]: the same shape over `Seq<char>`.
pub ghost enum LicenseItemView {
    Spdx { id: Seq<char>, or_later: bool },
    Other { doc_ref: Option<Seq<char>>, lic_ref: Seq<char> },
}

/// Mathematical value of a [`LicenseReq`].
pub ghost struct LicenseReqView {
    pub license: LicenseItemView,
    pub exception: Option<Seq<char>>,
}

pub open spec fn opt_str_view(o: Option<String>) -> Option<Seq<char>> {
    match o {
        Option::Some(s) => Option::Some(s@),
        Option::None => Option::None,
    }
}

impl View for LicenseItem {
    type V = LicenseItemView;

    open spec fn view(&self) -> LicenseItemView {
        match self {
            LicenseItem::Spdx { id, or_later } => LicenseItemView::Spdx {
                id: id@,
                or_later: *or_later,
            },
            LicenseItem::Other { doc_ref, lic_ref } => LicenseItemView::Other {
                doc_ref: opt_str_view(*doc_ref),
                lic_ref: lic_ref@,
            },
        }
    }
}

impl View for LicenseReq {
    type V = LicenseReqView;

    open spec fn view(&self) -> LicenseReqView {
        LicenseReqView { license: self.license@, exception: opt_str_view(self.exception) }
    }
}

/// The textual form of a license requirement, as it is written inside an
/// expression: the identifier or reference, the `+` suffix when the
/// or-later flag is set, and the ` WITH <exception>` suffix when an
/// exception is attached.
pub open spec fn spec_req_text(r: LicenseReqView) -> Seq<char> {
    (match r.license {
        LicenseItemView::Spdx { id, or_later } => if or_later {
            id + "+"@
        } else {
            id
        },
        LicenseItemView::Other { doc_ref, lic_ref } => (match doc_ref {
            Option::Some(d) => "DocumentRef-"@ + d + ":"@,
            Option::None => Seq::<char>::empty(),
        }) + "LicenseRef-"@ + lic_ref,
    }) + (match r.exception {
        Option::Some(e) => " WITH "@ + e,
        Option::None => Seq::<char>::empty(),
    })
}

impl LicenseReq {
    /// Renders this requirement in its textual form.
    pub fn to_text(&self) -> (r: String)
        ensures
            r@ == spec_req_text(self@),
    {
        let mut s = String::new();
        match &self.license {
            LicenseItem::Spdx { id, or_later } => {
                s.append(id.as_str());
                if *or_later {
                    s.append("+");
                }
            },
            LicenseItem::Other { doc_ref, lic_ref } => {
                match doc_ref {
                    Option::Some(d) => {
                        s.append("DocumentRef-");
                        s.append(d.as_str());
                        s.append(":");
                    },
                    Option::None => {},
                }
                s.append("LicenseRef-");
                s.append(lic_ref.as_str());
            },
        }
        match &self.exception {
            Option::Some(e) => {
                s.append(" WITH ");
                s.append(e.as_str());
            },
            Option::None => {},
        }
        assert(s@ =~= spec_req_text(self@));
        s
    }
}

/// Equality of optional strings, decided by contents.
pub fn opt_str_eq(a: &Option<String>, b: &Option<String>) -> (r: bool)
    ensures
        r == (opt_str_view(*a) == opt_str_view(*b)),
{
    match (a, b) {
        (Option::None, Option::None) => true,
        (Option::Some(x), Option::Some(y)) => x.eq(y),
        _ => false,
    }
}

impl PartialEq for LicenseItem {
    fn eq(&self, o: &Self) -> (r: bool) {
        match (self, o) {
            (
                LicenseItem::Spdx { id: a, or_later: la },
                LicenseItem::Spdx { id: b, or_later: lb },
            ) => a.eq(b) && *la == *lb,
            (
                LicenseItem::Other { doc_ref: da, lic_ref: la },
                LicenseItem::Other { doc_ref: db, lic_ref: lb },
            ) => opt_str_eq(da, db) && la.eq(lb),
            _ => false,
        }
    }
}

impl vstd::std_specs::cmp::PartialEqSpecImpl for LicenseItem {
    open spec fn obeys_eq_spec() -> bool {
        true
    }

    open spec fn eq_spec(&self, o: &Self) -> bool {
        self@ == o@
    }
}

impl PartialEq for LicenseReq {
    fn eq(&self, o: &Self) -> (r: bool) {
        self.license.eq(&o.license) && opt_str_eq(&self.exception, &o.exception)
    }
}

impl vstd::std_specs::cmp::PartialEqSpecImpl for LicenseReq {
    open spec fn obeys_eq_spec() -> bool {
        true
    }

    open spec fn eq_spec(&self, o: &Self) -> bool {
        self@ == o@
    }
}

} // verus!
