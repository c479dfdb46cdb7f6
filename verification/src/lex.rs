//! Lexer adapter.
//!
//! Tokenizing Python is delegated to the external lexer; everything the
//! engine needs from it is the byte range of each token in the segment's
//! text. The token's own text is then a slice of the segment, and its kind is
//! recovered from that slice by verified code. A segment that the lexer
//! rejects is reported as a failure and falls back to verbatim output.

use vstd::prelude::*;

verus! {

/// The byte range of one token in a segment's text.
#[derive(Clone, Copy, PartialEq, Eq, Structural, Debug)]
pub struct Span {
    pub start: usize,
    pub end: usize,
}

/// What the external lexer returns for a byte sequence: the token ranges in
/// source order, or nothing when the bytes are not a lexable Python unit.
/// The lexer is a pure function of the text, so the result is a function of
/// the bytes alone.
pub uninterp spec fn lex_spans_of(text: Seq<u8>) -> Option<Seq<Span>>;

/// Relies on `rustpython_parser::lexer::lex`: it yields each token with its
/// byte range in the source, in source order, and an error exactly when the
/// text is not lexable as a Python module (or not UTF-8, in which case it is
/// not lexable at all). The result depends on the text alone.
#[verifier::external_body]
pub fn lex_spans(text: &Vec<u8>) -> (r: Option<Vec<Span>>)
    ensures
        r is None ==> lex_spans_of(text@) is None,
        r matches Some(v) ==> lex_spans_of(text@) == Some(v@),
{
    let s = match core::str::from_utf8(text.as_slice()) {
        Ok(s) => s,
        Err(_) => return None,
    };
    let mut out: Vec<Span> = Vec::new();
    for item in rustpython_parser::lexer::lex(s, rustpython_parser::Mode::Module) {
        match item {
            Ok((_, range)) => out.push(Span {
                start: range.start().to_usize(),
                end: range.end().to_usize(),
            }),
            Err(_) => return None,
        }
    }
    Some(out)
}

/// The nonempty token ranges, in order. Zero-width ranges carry structure the
/// engine recomputes itself (dedents, the end of file) and are dropped.
pub open spec fn nonempty_spans(s: Seq<Span>) -> Seq<Span>
    decreases s.len(),
{
    if s.len() == 0 {
        Seq::empty()
    } else {
        (if s[0].start < s[0].end {
            seq![s[0]]
        } else {
            Seq::empty()
        }) + nonempty_spans(s.drop_first())
    }
}

/// Well-formed token ranges for a text of length `len`: each range is
/// nonempty, lies inside the text, and ranges do not overlap or run
/// backwards.
pub open spec fn spans_wf(s: Seq<Span>, len: int) -> bool {
    &&& forall|i: int| 0 <= i < s.len() ==> (#[trigger] s[i]).start < s[i].end <= len
    &&& forall|i: int| 0 <= i && i + 1 < s.len() ==> (#[trigger] s[i]).end <= s[i + 1].start
}

/// Drop zero-width ranges, then accept the list only if it is well formed.
pub fn clean_spans(spans: &Vec<Span>, len: usize) -> (r: Option<Vec<Span>>)
    ensures
        r matches Some(v) ==> v@ == nonempty_spans(spans@) && spans_wf(v@, len as int),
        r is None ==> !spans_wf(nonempty_spans(spans@), len as int),
{
    let mut out: Vec<Span> = Vec::new();
    let mut i: usize = 0;
    proof {
        assert(spans@.skip(0) =~= spans@);
        assert(out@ + nonempty_spans(spans@) =~= nonempty_spans(spans@));
    }
    while i < spans.len()
        invariant
            i <= spans.len(),
            nonempty_spans(spans@) == out@ + nonempty_spans(spans@.skip(i as int)),
        decreases spans.len() - i,
    {
        let ghost rest = spans@.skip(i as int);
        let ghost pre = out@;
        let sp = spans[i];
        proof {
            assert(rest.drop_first() =~= spans@.skip(i + 1));
        }
        if sp.start < sp.end {
            out.push(sp);
            proof {
                assert(nonempty_spans(rest) == seq![sp] + nonempty_spans(spans@.skip(i + 1)));
                assert(pre + (seq![sp] + nonempty_spans(spans@.skip(i + 1)))
                    =~= out@ + nonempty_spans(spans@.skip(i + 1)));
            }
        } else {
            proof {
                assert(nonempty_spans(rest) =~= nonempty_spans(spans@.skip(i + 1)));
            }
        }
        i = i + 1;
    }
    proof {
        assert(nonempty_spans(spans@.skip(i as int)) =~= Seq::<Span>::empty());
        assert(out@ + nonempty_spans(spans@.skip(i as int)) =~= out@);
    }
    let mut k: usize = 0;
    while k < out.len()
        invariant
            k <= out.len(),
            out@ == nonempty_spans(spans@),
            forall|i: int| 0 <= i < k ==> (#[trigger] out@[i]).start < out@[i].end
                && out@[i].end <= len,
            forall|i: int| 0 <= i && i + 1 < k ==> (#[trigger] out@[i]).end <= out@[i + 1].start,
        decreases out.len() - k,
    {
        let sp = out[k];
        if !(sp.start < sp.end && sp.end <= len) {
            return None;
        }
        if k > 0 {
            let prev = out[k - 1];
            if !(prev.end <= sp.start) {
                return None;
            }
        }
        k = k + 1;
    }
    Some(out)
}

} // verus!
