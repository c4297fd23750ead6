//! The lexer: turns expression text into classified tokens with spans.
//!
//! The accepted alphabet is ASCII: identifiers use letters, digits, `-`,
//! `.` and `:`; the punctuation is `(`, `)` and `+`. Exception identifiers
//! are recognised by the conventional `-exception` suffix, since no
//! identifier catalog is consulted; reference tokens by their
//! `LicenseRef-` / `DocumentRef-` prefixes. Offsets are character offsets,
//! which coincide with byte offsets for everything the grammar accepts.

use crate::error::{ParseError, ParseErrorView, Reason, ReasonView};
use crate::Span;
use vstd::prelude::*;

verus! {

/// A classified lexical token.
#[derive(Debug, Clone)]
pub enum Token {
    /// A license identifier.
    Spdx { id: String },
    /// A user-defined license reference, with its optional document part.
    LicenseRef { doc_ref: Option<String>, lic_ref: String },
    /// An exception identifier (a `-exception` suffixed identifier).
    Exception { id: String },
    Plus,
    With,
    And,
    Or,
    OpenParen,
    CloseParen,
}

/// A token together with the span it was read from.
#[derive(Debug, Clone)]
pub struct TokenSpan {
    pub token: Token,
    pub span: Span,
}

/// Mathematical value of a [`Token`].
pub ghost enum TokView {
    Spdx { id: Seq<char> },
    Ref { doc: Option<Seq<char>>, lic: Seq<char> },
    Exc { id: Seq<char> },
    Plus,
    With,
    And,
    Or,
    Open,
    Close,
}

/// Mathematical value of a [`TokenSpan`].
pub ghost struct TokSpanView {
    pub tok: TokView,
    pub span: Span,
}

impl View for Token {
    type V = TokView;

    open spec fn view(&self) -> TokView {
        match self {
            Token::Spdx { id } => TokView::Spdx { id: id@ },
            Token::LicenseRef { doc_ref, lic_ref } => TokView::Ref {
                doc: crate::opt_str_view(*doc_ref),
                lic: lic_ref@,
            },
            Token::Exception { id } => TokView::Exc { id: id@ },
            Token::Plus => TokView::Plus,
            Token::With => TokView::With,
            Token::And => TokView::And,
            Token::Or => TokView::Or,
            Token::OpenParen => TokView::Open,
            Token::CloseParen => TokView::Close,
        }
    }
}

impl View for TokenSpan {
    type V = TokSpanView;

    open spec fn view(&self) -> TokSpanView {
        TokSpanView { tok: self.token@, span: self.span }
    }
}

/// The token views of a sequence of tokens.
pub open spec fn toks_view(ts: Seq<TokenSpan>) -> Seq<TokSpanView> {
    ts.map_values(|t: TokenSpan| t@)
}

/// The span of offsets `a..b`.
pub open spec fn mk_span(a: int, b: int) -> Span {
    Span { start: a as u32, end: b as u32 }
}

/// Whether a character is skipped between tokens.
pub open spec fn spec_is_ws(c: char) -> bool {
    c as u32 == 32 || c as u32 == 9 || c as u32 == 10 || c as u32 == 13
}

/// Whether a character can be part of an identifier token.
pub open spec fn spec_ident_char(u: u32) -> bool {
    (97 <= u <= 122) || (65 <= u <= 90) || (48 <= u <= 57) || u == 45 || u == 46 || u == 58
}

fn ident_char(u: u32) -> (r: bool)
    ensures
        r == spec_ident_char(u),
{
    (97 <= u && u <= 122) || (65 <= u && u <= 90) || (48 <= u && u <= 57) || u == 45 || u == 46
        || u == 58
}

/// Whether the characters of `s` at `from..to` spell out `pat`.
fn str_eq_at(s: &str, from: usize, to: usize, pat: &str) -> (r: bool)
    requires
        from <= to <= s@.len(),
    ensures
        r == (s@.subrange(from as int, to as int) =~= pat@),
{
    let plen = pat.unicode_len();
    if to - from != plen {
        assert(s@.subrange(from as int, to as int).len() != pat@.len());
        return false;
    }
    let mut k: usize = 0;
    while k < plen
        invariant
            from <= to <= s@.len(),
            to - from == plen == pat@.len(),
            k <= plen,
            forall|m: int| 0 <= m < k ==> s@[from + m] == pat@[m],
        decreases plen - k,
    {
        let a = s.get_char(from + k);
        let b = pat.get_char(k);
        if a != b {
            assert(s@.subrange(from as int, to as int)[k as int] != pat@[k as int]);
            return false;
        }
        k = k + 1;
    }
    assert forall|m: int| 0 <= m < plen implies s@.subrange(from as int, to as int)[m]
        == pat@[m] by {}
    true
}

/// The end of the identifier token that continues at `j`: the first
/// position at or after `j` that is not an identifier character.
pub open spec fn ident_end(s: Seq<char>, j: int) -> int
    decreases s.len() - j
        when 0 <= j <= s.len()
{
    if j == s.len() || !spec_ident_char(s[j] as u32) {
        j
    } else {
        ident_end(s, j + 1)
    }
}

pub proof fn lemma_ident_end_bounds(s: Seq<char>, j: int)
    requires
        0 <= j <= s.len(),
    ensures
        j <= ident_end(s, j) <= s.len(),
    decreases s.len() - j,
{
    if j < s.len() && spec_ident_char(s[j] as u32) {
        lemma_ident_end_bounds(s, j + 1);
    }
}

/// The first colon at or after `j` but before `end`, or `end` if there is
/// none.
pub open spec fn colon_pos(s: Seq<char>, j: int, end: int) -> int
    decreases end - j
        when 0 <= j <= end <= s.len()
{
    if j == end || s[j] as u32 == 58 {
        j
    } else {
        colon_pos(s, j + 1, end)
    }
}

pub proof fn lemma_colon_pos_bounds(s: Seq<char>, j: int, end: int)
    requires
        0 <= j <= end <= s.len(),
    ensures
        j <= colon_pos(s, j, end) <= end,
    decreases end - j,
{
    if j < end && s[j] as u32 != 58 {
        lemma_colon_pos_bounds(s, j + 1, end);
    }
}

/// How the identifier token at `i..j` classifies: a keyword, a reference
/// (with its `DocumentRef-`/`LicenseRef-` shape checked), an exception by
/// the `-exception` suffix, or a license identifier.
pub open spec fn classify_ident(s: Seq<char>, i: int, j: int) -> Result<TokView, ParseErrorView> {
    let t = s.subrange(i, j);
    if t == "AND"@ {
        Ok(TokView::And)
    } else if t == "OR"@ {
        Ok(TokView::Or)
    } else if t == "WITH"@ {
        Ok(TokView::With)
    } else if j - i >= 12 && s.subrange(i, i + 12) == "DocumentRef-"@ {
        let k = colon_pos(s, i + 12, j);
        if k == j || j - k < 12 || !(s.subrange(k + 1, k + 12) == "LicenseRef-"@) {
            Err(ParseErrorView { span: mk_span(i, j), reason: ReasonView::MalformedDocumentRef })
        } else {
            Ok(TokView::Ref { doc: Some(s.subrange(i + 12, k)), lic: s.subrange(k + 12, j) })
        }
    } else if j - i >= 11 && s.subrange(i, i + 11) == "LicenseRef-"@ {
        Ok(TokView::Ref { doc: None, lic: s.subrange(i + 11, j) })
    } else if j - i >= 10 && s.subrange(j - 10, j) == "-exception"@ {
        Ok(TokView::Exc { id: t })
    } else {
        Ok(TokView::Spdx { id: t })
    }
}

/// The token sequence of the text from position `i` on, after the tokens
/// in `acc`: which tokens a text yields, or the lexical error.
pub open spec fn spec_lex(s: Seq<char>, i: int, acc: Seq<TokSpanView>) -> Result<
    Seq<TokSpanView>,
    ParseErrorView,
>
    decreases s.len() - i
        when 0 <= i <= s.len()
{
    if i >= s.len() {
        Ok(acc)
    } else if spec_is_ws(s[i]) {
        spec_lex(s, i + 1, acc)
    } else if s[i] as u32 == 40 {
        spec_lex(s, i + 1, acc.push(TokSpanView { tok: TokView::Open, span: mk_span(i, i + 1) }))
    } else if s[i] as u32 == 41 {
        spec_lex(s, i + 1, acc.push(TokSpanView { tok: TokView::Close, span: mk_span(i, i + 1) }))
    } else if s[i] as u32 == 43 {
        spec_lex(s, i + 1, acc.push(TokSpanView { tok: TokView::Plus, span: mk_span(i, i + 1) }))
    } else if spec_ident_char(s[i] as u32) {
        let j = ident_end(s, i + 1);
        if i < j <= s.len() {
            match classify_ident(s, i, j) {
                Ok(t) => spec_lex(s, j, acc.push(TokSpanView { tok: t, span: mk_span(i, j) })),
                Err(e) => Err(e),
            }
        } else {
            Err(arbitrary())
        }
    } else {
        Err(ParseErrorView { span: mk_span(i, i + 1), reason: ReasonView::InvalidCharacter })
    }
}

/// A lexical error: the offending span plus the reason.
fn lex_err(original: &str, start: usize, end: usize, reason: Reason) -> (r: ParseError)
    requires
        start <= u32::MAX,
        end <= u32::MAX,
    ensures
        r.original@ == original@,
        r@.reason == reason@,
        r@.span == (Span { start: start as u32, end: end as u32 }),
{
    ParseError {
        original: original.to_owned(),
        span: Span { start: start as u32, end: end as u32 },
        reason,
    }
}

/// Splits the expression text into classified tokens: exactly the tokens
/// that [`spec_lex`] assigns to the text, or exactly its lexical error.
/// Identifier legality beyond the token shapes is not checked here: the
/// parser trusts the classification.
pub fn tokenize(original: &str) -> (r: Result<Vec<TokenSpan>, ParseError>)
    requires
        original@.len() <= u32::MAX,
    ensures
        (r matches Err(e) ==> spec_lex(original@, 0, Seq::empty()) == Err::<
            Seq<TokSpanView>,
            ParseErrorView,
        >(e@) && e.original@ == original@ && (e@.reason is InvalidCharacter
            || e@.reason is MalformedDocumentRef) && e@.span.start <= e@.span.end
            && e@.span.end <= original@.len()),
        (r matches Ok(toks) ==> spec_lex(original@, 0, Seq::empty()) == Ok::<
            Seq<TokSpanView>,
            ParseErrorView,
        >(toks_view(toks@)) && (forall|i: int|
            0 <= i < toks@.len() ==> (#[trigger] toks@[i].span).start <= toks@[i].span.end
                && toks@[i].span.end <= original@.len()) && (forall|a: int, b: int|
            0 <= a < b < toks@.len() ==> (#[trigger] toks@[a].span).end <= (
            #[trigger] toks@[b].span).start)),
{
    let ghost s = original@;
    let n = original.unicode_len();
    let mut toks: Vec<TokenSpan> = Vec::new();
    let mut i: usize = 0;
    assert(toks_view(toks@) =~= Seq::<TokSpanView>::empty());
    while i < n
        invariant
            s == original@,
            n == original@.len() <= u32::MAX,
            i <= n,
            spec_lex(s, 0, Seq::empty()) == spec_lex(s, i as int, toks_view(toks@)),
            forall|m: int|
                0 <= m < toks@.len() ==> (#[trigger] toks@[m].span).start <= toks@[m].span.end
                    && toks@[m].span.end <= i,
            forall|a: int, b: int|
                0 <= a < b < toks@.len() ==> (#[trigger] toks@[a].span).end <= (
                #[trigger] toks@[b].span).start,
        decreases n - i,
    {
        let ghost tv = toks_view(toks@);
        let c = original.get_char(i);
        let u = c as u32;
        if u == 32 || u == 9 || u == 10 || u == 13 {
            proof {
                assert(spec_is_ws(s[i as int]));
                assert(spec_lex(s, i as int, tv) == spec_lex(s, i + 1, tv));
            }
            i = i + 1;
        } else if u == 40 || u == 41 || u == 43 {
            let token = if u == 40 {
                Token::OpenParen
            } else if u == 41 {
                Token::CloseParen
            } else {
                Token::Plus
            };
            let t = TokenSpan { token, span: Span { start: i as u32, end: (i + 1) as u32 } };
            let ghost tview = t@;
            toks.push(t);
            proof {
                assert(toks_view(toks@) =~= tv.push(tview));
                assert(tview.span == mk_span(i as int, i + 1));
                assert(spec_lex(s, i as int, tv) == spec_lex(s, i + 1, tv.push(tview)));
            }
            i = i + 1;
        } else if ident_char(u) {
            let mut j: usize = i + 1;
            while j < n && ident_char(original.get_char(j) as u32)
                invariant
                    s == original@,
                    n == original@.len() <= u32::MAX,
                    i < j <= n,
                    ident_end(s, i + 1) == ident_end(s, j as int),
                decreases n - j,
            {
                proof {
                    assert(ident_end(s, j as int) == ident_end(s, j + 1));
                }
                j = j + 1;
            }
            proof {
                assert(ident_end(s, j as int) == j as int);
                assert(j as int == ident_end(s, i + 1));
            }
            let token: Token = if str_eq_at(original, i, j, "AND") {
                proof {
                    assert(classify_ident(s, i as int, j as int) == Ok::<
                        TokView,
                        ParseErrorView,
                    >(TokView::And));
                }
                Token::And
            } else if str_eq_at(original, i, j, "OR") {
                proof {
                    assert(classify_ident(s, i as int, j as int) == Ok::<
                        TokView,
                        ParseErrorView,
                    >(TokView::Or));
                }
                Token::Or
            } else if str_eq_at(original, i, j, "WITH") {
                proof {
                    assert(classify_ident(s, i as int, j as int) == Ok::<
                        TokView,
                        ParseErrorView,
                    >(TokView::With));
                }
                Token::With
            } else if j - i >= 12 && str_eq_at(original, i, i + 12, "DocumentRef-") {
                // DocumentRef-<doc>:LicenseRef-<lic>
                let mut k: usize = i + 12;
                while k < j && (original.get_char(k) as u32) != 58
                    invariant
                        s == original@,
                        i + 12 <= k <= j <= n == original@.len(),
                        colon_pos(s, i + 12, j as int) == colon_pos(s, k as int, j as int),
                    decreases j - k,
                {
                    proof {
                        assert(colon_pos(s, k as int, j as int) == colon_pos(s, k + 1, j as int));
                    }
                    k = k + 1;
                }
                proof {
                    assert(colon_pos(s, k as int, j as int) == k as int);
                    assert(k as int == colon_pos(s, i + 12, j as int));
                }
                if k == j || j - k < 12 || !str_eq_at(original, k + 1, k + 12, "LicenseRef-") {
                    let e = lex_err(original, i, j, Reason::MalformedDocumentRef);
                    proof {
                        assert(classify_ident(s, i as int, j as int) == Err::<TokView, _>(e@));
                        assert(spec_lex(s, i as int, tv) == Err::<Seq<TokSpanView>, _>(e@));
                    }
                    return Err(e);
                }
                let doc_ref = String::from_str(original.substring_char(i + 12, k));
                let lic_ref = String::from_str(original.substring_char(k + 12, j));
                proof {
                    assert(classify_ident(s, i as int, j as int) == Ok::<
                        TokView,
                        ParseErrorView,
                    >(TokView::Ref { doc: Some(doc_ref@), lic: lic_ref@ }));
                }
                Token::LicenseRef { doc_ref: Some(doc_ref), lic_ref }
            } else if j - i >= 11 && str_eq_at(original, i, i + 11, "LicenseRef-") {
                let lic_ref = String::from_str(original.substring_char(i + 11, j));
                proof {
                    assert(classify_ident(s, i as int, j as int) == Ok::<
                        TokView,
                        ParseErrorView,
                    >(TokView::Ref { doc: None, lic: lic_ref@ }));
                }
                Token::LicenseRef { doc_ref: None, lic_ref }
            } else if j - i >= 10 && str_eq_at(original, j - 10, j, "-exception") {
                let id = String::from_str(original.substring_char(i, j));
                proof {
                    assert(classify_ident(s, i as int, j as int) == Ok::<
                        TokView,
                        ParseErrorView,
                    >(TokView::Exc { id: id@ }));
                }
                Token::Exception { id }
            } else {
                let id = String::from_str(original.substring_char(i, j));
                proof {
                    assert(classify_ident(s, i as int, j as int) == Ok::<
                        TokView,
                        ParseErrorView,
                    >(TokView::Spdx { id: id@ }));
                }
                Token::Spdx { id }
            };
            let t = TokenSpan { token, span: Span { start: i as u32, end: j as u32 } };
            let ghost tview = t@;
            toks.push(t);
            proof {
                assert(toks_view(toks@) =~= tv.push(tview));
                assert(tview.span == mk_span(i as int, j as int));
                assert(spec_lex(s, i as int, tv) == spec_lex(s, j as int, tv.push(tview)));
            }
            i = j;
        } else {
            let e = lex_err(original, i, i + 1, Reason::InvalidCharacter);
            proof {
                assert(spec_lex(s, i as int, tv) == Err::<Seq<TokSpanView>, _>(e@));
            }
            return Err(e);
        }
    }
    proof {
        assert(spec_lex(s, i as int, toks_view(toks@)) == Ok::<_, ParseErrorView>(
            toks_view(toks@),
        ));
    }
    Ok(toks)
}

} // verus!
