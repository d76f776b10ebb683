use vstd::prelude::*;
use vstd::slice::slice_to_vec;
use vstd::string::{StringExecFns, StringSliceAdditionalSpecFns};
use vstd::utf8::is_char_boundary;

use crate::diagnostic::{views, Diagnostic, DiagnosticView, Severity};
use crate::text::NEWLINE;

verus! {

/// What the dictionary says of a word that it flags.
pub enum TypoStatus {
    Valid,
    Invalid,
    Corrections(Vec<String>),
}

/// A word that the spell-checker flagged, where it starts (a byte offset into the
/// checked text) and what the dictionary says of it.
pub struct TypoHit {
    pub byte_offset: usize,
    pub typo: String,
    pub status: TypoStatus,
}

/// The value of a [`TypoStatus`].
pub enum TypoStatusView {
    Valid,
    Invalid,
    Corrections(Seq<Seq<char>>),
}

/// The value of a [`TypoHit`].
pub struct TypoHitView {
    pub byte_offset: nat,
    pub typo: Seq<char>,
    pub status: TypoStatusView,
}

pub open spec fn strings_view(v: Seq<String>) -> Seq<Seq<char>> {
    v.map_values(|s: String| s@)
}

impl View for TypoStatus {
    type V = TypoStatusView;

    open spec fn view(&self) -> TypoStatusView {
        match self {
            TypoStatus::Valid => TypoStatusView::Valid,
            TypoStatus::Invalid => TypoStatusView::Invalid,
            TypoStatus::Corrections(cs) => TypoStatusView::Corrections(strings_view(cs@)),
        }
    }
}

impl View for TypoHit {
    type V = TypoHitView;

    open spec fn view(&self) -> TypoHitView {
        TypoHitView { byte_offset: self.byte_offset as nat, typo: self.typo@, status: self.status@ }
    }
}

pub open spec fn hit_views(hits: Seq<TypoHit>) -> Seq<TypoHitView> {
    hits.map_values(|h: TypoHit| h@)
}

/// The words that the `typos` crate flags in a text, with the default tokenizer and
/// the dictionary that `typos-cli` bundles, in the order in which it reports them.
pub uninterp spec fn found_typos(text: Seq<char>) -> Seq<TypoHitView>;

/// Runs `typos::check_str` on `text` with `Tokenizer::default()` and
/// `typos_cli::dict::BuiltIn::new(Default::default())`, and hands back each typo it
/// yields, in order, as plain values. The contract claims that the result is a
/// function of the text (`found_typos`), and that each offset starts a character of
/// the text: the tokenizer yields `&str` slices of the text and measures each offset
/// from the text's start (`tokens.rs`, `offset`). Which words the dictionary flags is
/// left unsaid.
#[verifier::external_body]
fn find_typos(text: &str) -> (hits: Vec<TypoHit>)
    ensures
        hit_views(hits@) == found_typos(text@),
        forall|k: int|
            0 <= k < hits@.len() ==> is_char_boundary(text.spec_bytes(), #[trigger] hits@[k].byte_offset as int),
{
    let tokenizer = typos::tokens::Tokenizer::default();
    let dict = typos_cli::dict::BuiltIn::new(Default::default());
    let mut hits = Vec::new();
    for typo in typos::check_str(text, &tokenizer, &dict) {
        let status = match typo.corrections {
            typos::Status::Valid => TypoStatus::Valid,
            typos::Status::Invalid => TypoStatus::Invalid,
            typos::Status::Corrections(cs) => TypoStatus::Corrections(cs.into_iter().map(|c| c.into_owned()).collect()),
        };
        hits.push(TypoHit { byte_offset: typo.byte_offset, typo: typo.typo.into_owned(), status });
    }
    hits
}

/// The number of `'\n'` in `b`.
pub open spec fn count_newlines(b: Seq<u8>) -> int
    decreases b.len(),
{
    if b.len() == 0 {
        0
    } else {
        count_newlines(b.drop_last()) + if b.last() == NEWLINE {
            1int
        } else {
            0int
        }
    }
}

/// Where the last line of `b` starts: just after its last `'\n'`, or at 0.
pub open spec fn line_start(b: Seq<u8>) -> int
    decreases b.len(),
{
    if b.len() == 0 {
        0
    } else if b.last() == NEWLINE {
        b.len() as int
    } else {
        line_start(b.drop_last())
    }
}

/// An offset clamped to the length of the text.
pub open spec fn clamped(b: Seq<u8>, offset: int) -> int {
    if offset < b.len() {
        offset
    } else {
        b.len() as int
    }
}

/// The 1-based line and column (a byte column) of a byte offset, the offset first
/// clamped to the length of the text.
pub open spec fn line_col(b: Seq<u8>, offset: int) -> (int, int) {
    let o = clamped(b, offset);
    let p = b.take(o);
    (count_newlines(p) + 1, o - line_start(p) + 1)
}

/// Convert a 0-based byte offset to 1-based (line, column). The offset, once clamped
/// to the length of the text, must fall on a character boundary.
pub fn byte_offset_to_line_col(text: &str, offset: usize) -> (r: (usize, usize))
    requires
        text.spec_bytes().len() < usize::MAX,
        is_char_boundary(text.spec_bytes(), clamped(text.spec_bytes(), offset as int)),
    ensures
        r.0 == line_col(text.spec_bytes(), offset as int).0,
        r.1 == line_col(text.spec_bytes(), offset as int).1,
{
    let b = text.as_bytes();
    let o: usize = if offset < b.len() {
        offset
    } else {
        b.len()
    };
    let mut newlines: usize = 0;
    let mut start: usize = 0;
    let mut i: usize = 0;
    proof {
        assert(b@.take(0) =~= Seq::<u8>::empty());
    }
    while i < o
        invariant
            i <= o <= b@.len(),
            b@.len() < usize::MAX,
            newlines == count_newlines(b@.take(i as int)),
            start == line_start(b@.take(i as int)),
            newlines <= i,
            start <= i,
        decreases o - i,
    {
        proof {
            assert(b@.take(i + 1).drop_last() =~= b@.take(i as int));
        }
        if b[i] == NEWLINE {
            newlines = newlines + 1;
            start = i + 1;
        }
        i = i + 1;
    }
    (newlines + 1, o - start + 1)
}

/// The parts joined, with `sep` between each two of them.
pub open spec fn join(parts: Seq<Seq<char>>, sep: Seq<char>) -> Seq<char>
    decreases parts.len(),
{
    if parts.len() == 0 {
        seq![]
    } else if parts.len() == 1 {
        parts[0]
    } else {
        join(parts.drop_last(), sep) + sep + parts.last()
    }
}

/// Joins the strings with `sep` between each two of them.
pub fn join_strings(parts: &Vec<String>, sep: &str) -> (r: String)
    ensures
        r@ == join(strings_view(parts@), sep@),
{
    let ghost ps = strings_view(parts@);
    let mut res = String::new();
    let mut k: usize = 0;
    while k < parts.len()
        invariant
            k <= parts@.len(),
            ps == strings_view(parts@),
            res@ == join(ps.take(k as int), sep@),
        decreases parts@.len() - k,
    {
        proof {
            assert(ps.take(k + 1).drop_last() =~= ps.take(k as int));
        }
        if k > 0 {
            res.append(sep);
        } else {
            proof {
                assert(res@ =~= Seq::<char>::empty());
            }
        }
        res.append(parts[k].as_str());
        k = k + 1;
    }
    proof {
        assert(ps.take(k as int) =~= ps);
    }
    res
}

/// The finding for one flagged word of a text: none when the dictionary calls the
/// word valid; otherwise a warning at the word's line and column, whose message names
/// the word and, where the dictionary has corrections, names them too, joined by
/// `", "`, and offers them as the suggestion.
pub open spec fn typo_finding(path: Seq<u8>, b: Seq<u8>, h: TypoHitView) -> Seq<DiagnosticView> {
    let (line, column) = line_col(b, h.byte_offset as int);
    match h.status {
        TypoStatusView::Valid => seq![],
        TypoStatusView::Invalid => seq![
            DiagnosticView {
                file: path,
                line,
                column,
                severity: Severity::Warning,
                rule: "typos"@,
                message: "`"@ + h.typo + "` is misspelled"@,
                suggestion: None,
            },
        ],
        TypoStatusView::Corrections(cs) => {
            let s = join(cs, ", "@);
            seq![
                DiagnosticView {
                    file: path,
                    line,
                    column,
                    severity: Severity::Warning,
                    rule: "typos"@,
                    message: "`"@ + h.typo + "` should be `"@ + s + "`"@,
                    suggestion: Some(s),
                },
            ]
        },
    }
}

/// The findings for a list of flagged words, in the order of the list.
pub open spec fn typo_findings(path: Seq<u8>, b: Seq<u8>, hits: Seq<TypoHitView>) -> Seq<
    DiagnosticView,
>
    decreases hits.len(),
{
    if hits.len() == 0 {
        seq![]
    } else {
        typo_findings(path, b, hits.drop_last()) + typo_finding(path, b, hits.last())
    }
}

/// Turns the words that the spell-checker flagged in `text` into diagnostics. Each
/// offset, once clamped to the length of the text, must fall on a character boundary.
pub fn report_typos(path: &[u8], text: &str, hits: &Vec<TypoHit>, out: &mut Vec<Diagnostic>)
    requires
        text.spec_bytes().len() < usize::MAX,
        forall|k: int|
            0 <= k < hits@.len() ==> is_char_boundary(
                text.spec_bytes(),
                clamped(text.spec_bytes(), #[trigger] hits@[k].byte_offset as int),
            ),
    ensures
        views(final(out)@) == views(old(out)@) + typo_findings(path@, text.spec_bytes(), hit_views(hits@)),
{
    let ghost hs = hit_views(hits@);
    let ghost b = text.spec_bytes();
    let ghost start = views(out@);
    let mut k: usize = 0;
    proof {
        assert(hs.take(0) =~= Seq::<TypoHitView>::empty());
    }
    while k < hits.len()
        invariant
            k <= hits@.len(),
            hs == hit_views(hits@),
            b == text.spec_bytes(),
            b.len() < usize::MAX,
            forall|j: int|
                0 <= j < hits@.len() ==> is_char_boundary(
                    b,
                    clamped(b, #[trigger] hits@[j].byte_offset as int),
                ),
            views(out@) == start + typo_findings(path@, b, hs.take(k as int)),
        decreases hits@.len() - k,
    {
        let hit = &hits[k];
        let ghost before = out@;
        let (line, column) = byte_offset_to_line_col(text, hit.byte_offset);
        match &hit.status {
            TypoStatus::Valid => {},
            TypoStatus::Invalid => {
                let mut message = "`".to_owned();
                message.append(hit.typo.as_str());
                message.append("` is misspelled");
                out.push(
                    Diagnostic {
                        file: slice_to_vec(path),
                        line,
                        column,
                        severity: Severity::Warning,
                        rule: "typos",
                        message,
                        suggestion: None,
                    },
                );
            },
            TypoStatus::Corrections(cs) => {
                let suggestion = join_strings(cs, ", ");
                let mut message = "`".to_owned();
                message.append(hit.typo.as_str());
                message.append("` should be `");
                message.append(suggestion.as_str());
                message.append("`");
                out.push(
                    Diagnostic {
                        file: slice_to_vec(path),
                        line,
                        column,
                        severity: Severity::Warning,
                        rule: "typos",
                        message,
                        suggestion: Some(suggestion),
                    },
                );
            },
        }
        proof {
            assert(hs.take(k + 1).drop_last() =~= hs.take(k as int));
            assert(hs[k as int] == hits@[k as int]@);
            assert(views(out@) =~= views(before) + typo_finding(path@, b, hs[k as int]));
        }
        k = k + 1;
    }
    proof {
        assert(hs.take(k as int) =~= hs);
    }
}

/// Source-code spell-check using the `typos` crate. The bundled dictionary
/// is curated specifically to keep false-positives low.
pub fn check(path: &[u8], text: &str, out: &mut Vec<Diagnostic>)
    requires
        text.spec_bytes().len() < usize::MAX,
    ensures
        views(final(out)@) == views(old(out)@) + typo_findings(
            path@,
            text.spec_bytes(),
            found_typos(text@),
        ),
{
    let hits = find_typos(text);
    proof {
        let b = text.spec_bytes();
        vstd::utf8::encode_utf8_valid_utf8(text@);
        assert forall|k: int| 0 <= k < hits@.len() implies is_char_boundary(
            b,
            clamped(b, #[trigger] hits@[k].byte_offset as int),
        ) by {
            let o = hits@[k].byte_offset as int;
            assert(is_char_boundary(b, o));
            if o > b.len() {
                assert(false);
            }
        }
    }
    report_typos(path, text, &hits, out);
}

} // verus!
