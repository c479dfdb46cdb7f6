//! The beautifier's guarantees, stated and proved once and for all inputs.
//!
//! The document's lines are `line_seq(text)`; the beautified output is the
//! concatenation of `out_lines(seg_seq(line_seq(text)), iw)`. The lemmas here
//! say: that line list has exactly as many lines as the input, every line
//! matches the input line once spaces and tabs are dropped (so all change is
//! intra-line whitespace, confined to code segments), every sentinel line is
//! byte-identical at its original position, a segment the lexer rejects is
//! emitted byte-identical, the line-feed count of the whole output equals the
//! input's, and a document the beautifier leaves unchanged is a fixed point.
//!
//! Full idempotence — that one pass always yields such a fixed point — is
//! deliberately not stated: it turns on what the external lexer returns for
//! the re-emitted text, of which nothing here may be assumed. It is exercised
//! by the crate's tests instead.

use vstd::prelude::*;

use crate::beautify::{beautify_spec, out_lines, seg_result, SegStatus};
use crate::lex::lex_spans_of;
use crate::lines::{
    concat_lines, count_nl, lemma_count_nl_add, lemma_count_nl_skel, lemma_line_ok_nl,
    lemma_line_seq_joins, lemma_line_seq_of_wf, lemma_line_seq_wf, line_ok, line_seq, line_skel,
    skels, terminated, wf_lines,
};
use crate::segment::{
    first_sent, is_sentinel, lemma_first_sent_bounds, seg_seq, SegView,
};

verus! {

/// Whatever one code segment's fate, its emitted lines match the original
/// lines one for one once spaces and tabs are dropped; in particular there
/// are equally many.
pub proof fn lemma_seg_result_skels(ls: Seq<Seq<u8>>, iw: int)
    ensures
        skels(seg_result(ls, iw).0) == skels(ls),
        seg_result(ls, iw).0.len() == ls.len(),
{
    assert(skels(seg_result(ls, iw).0).len() == seg_result(ls, iw).0.len());
    assert(skels(ls).len() == ls.len());
}

/// A segment that the lexer rejects is emitted byte-identical, and its
/// diagnostic says so.
pub proof fn lemma_lex_failure_verbatim(ls: Seq<Seq<u8>>, iw: int)
    requires
        lex_spans_of(concat_lines(ls)) is None,
    ensures
        seg_result(ls, iw).0 == ls,
        seg_result(ls, iw).1 == SegStatus::LexFailure,
{
}

/// Line preservation over the whole document: the emitted line list is as
/// long as the input's, agrees with it line for line once spaces and tabs
/// are dropped, and every sentinel line appears byte-identical at its
/// original position.
pub proof fn lemma_lines_preserved(ls: Seq<Seq<u8>>, iw: int)
    ensures
        out_lines(seg_seq(ls), iw).len() == ls.len(),
        forall|i: int| 0 <= i < ls.len() ==> line_skel(#[trigger] out_lines(seg_seq(ls), iw)[i])
            == line_skel(ls[i]),
        forall|i: int| 0 <= i < ls.len() && is_sentinel(#[trigger] ls[i]) ==> out_lines(
            seg_seq(ls),
            iw,
        )[i] == ls[i],
    decreases ls.len(),
{
    let segs = seg_seq(ls);
    let ol = out_lines(segs, iw);
    if ls.len() == 0 {
    } else if is_sentinel(ls[0]) {
        lemma_lines_preserved(ls.drop_first(), iw);
        let rec = out_lines(seg_seq(ls.drop_first()), iw);
        assert(segs.drop_first() =~= seg_seq(ls.drop_first()));
        assert(ol == seq![ls[0]] + rec);
        assert(ol[0] == ls[0]);
        assert forall|i: int| 0 <= i < ls.len() implies line_skel(#[trigger] ol[i]) == line_skel(
            ls[i],
        ) by {
            if i >= 1 {
                assert(ol[i] == rec[i - 1]);
                assert(ls[i] == ls.drop_first()[i - 1]);
            }
        }
        assert forall|i: int| 0 <= i < ls.len() && is_sentinel(#[trigger] ls[i]) implies ol[i]
            == ls[i] by {
            if i >= 1 {
                assert(ol[i] == rec[i - 1]);
                assert(ls[i] == ls.drop_first()[i - 1]);
                assert(is_sentinel(ls.drop_first()[i - 1]));
            }
        }
    } else {
        let k = first_sent(ls);
        lemma_first_sent_bounds(ls);
        lemma_lines_preserved(ls.skip(k), iw);
        lemma_seg_result_skels(ls.take(k), iw);
        let hd = seg_result(ls.take(k), iw).0;
        let rec = out_lines(seg_seq(ls.skip(k)), iw);
        assert(segs.drop_first() =~= seg_seq(ls.skip(k)));
        assert(ol == hd + rec);
        assert(hd.len() == k);
        assert forall|i: int| 0 <= i < ls.len() implies line_skel(#[trigger] ol[i]) == line_skel(
            ls[i],
        ) by {
            if i < k {
                assert(ol[i] == hd[i]);
                assert(skels(hd)[i] == skels(ls.take(k))[i]);
                assert(line_skel(hd[i]) == line_skel(ls.take(k)[i]));
                assert(ls.take(k)[i] == ls[i]);
            } else {
                assert(ol[i] == rec[i - k]);
                assert(ls[i] == ls.skip(k)[i - k]);
            }
        }
        assert forall|i: int| 0 <= i < ls.len() && is_sentinel(#[trigger] ls[i]) implies ol[i]
            == ls[i] by {
            if i < k {
                assert(!is_sentinel(ls[i]));
            } else {
                assert(ol[i] == rec[i - k]);
                assert(ls[i] == ls.skip(k)[i - k]);
                assert(is_sentinel(ls.skip(k)[i - k]));
            }
        }
    }
}

/// Two line lists that agree line for line up to spaces and tabs hold
/// equally many line feeds in all.
pub proof fn lemma_count_nl_skel_eq(a: Seq<Seq<u8>>, b: Seq<Seq<u8>>)
    requires
        a.len() == b.len(),
        forall|i: int| 0 <= i < a.len() ==> line_skel(#[trigger] a[i]) == line_skel(b[i]),
    ensures
        count_nl(concat_lines(a)) == count_nl(concat_lines(b)),
    decreases a.len(),
{
    if a.len() == 0 {
    } else {
        lemma_count_nl_skel(a[0]);
        lemma_count_nl_skel(b[0]);
        lemma_count_nl_add(a[0], concat_lines(a.drop_first()));
        lemma_count_nl_add(b[0], concat_lines(b.drop_first()));
        assert forall|i: int| 0 <= i < a.drop_first().len() implies line_skel(
            #[trigger] a.drop_first()[i],
        ) == line_skel(b.drop_first()[i]) by {
            assert(a.drop_first()[i] == a[i + 1]);
            assert(b.drop_first()[i] == b[i + 1]);
        }
        lemma_count_nl_skel_eq(a.drop_first(), b.drop_first());
    }
}

/// For every input and configuration, the beautified document holds exactly
/// as many line feeds as the input: no line break is ever added or removed.
pub proof fn lemma_newline_count_preserved(text: Seq<u8>, iw: int)
    ensures
        count_nl(beautify_spec(text, iw)) == count_nl(text),
{
    let ls = line_seq(text);
    lemma_lines_preserved(ls, iw);
    lemma_count_nl_skel_eq(out_lines(seg_seq(ls), iw), ls);
    lemma_line_seq_joins(text);
}

/// The emitted line list of a well-shaped document is itself well shaped, so
/// concatenating and re-splitting it changes nothing.
pub proof fn lemma_out_lines_wf(ls: Seq<Seq<u8>>, iw: int)
    requires
        wf_lines(ls),
    ensures
        wf_lines(out_lines(seg_seq(ls), iw)),
    decreases ls.len(),
{
    let segs = seg_seq(ls);
    let ol = out_lines(segs, iw);
    lemma_lines_preserved(ls, iw);
    if ls.len() == 0 {
    } else if is_sentinel(ls[0]) {
        assert forall|i: int| 0 <= i < ls.drop_first().len() implies line_ok(
            #[trigger] ls.drop_first()[i],
        ) by {
            assert(ls.drop_first()[i] == ls[i + 1]);
        }
        assert forall|i: int| 0 <= i < ls.drop_first().len() - 1 implies terminated(
            #[trigger] ls.drop_first()[i],
        ) by {
            assert(ls.drop_first()[i] == ls[i + 1]);
        }
        lemma_out_lines_wf(ls.drop_first(), iw);
        lemma_lines_preserved(ls.drop_first(), iw);
        let rec = out_lines(seg_seq(ls.drop_first()), iw);
        assert(segs.drop_first() =~= seg_seq(ls.drop_first()));
        assert(ol == seq![ls[0]] + rec);
        assert forall|i: int| 0 <= i < ol.len() implies line_ok(#[trigger] ol[i]) by {
            if i >= 1 {
                assert(ol[i] == rec[i - 1]);
            }
        }
        assert forall|i: int| 0 <= i < ol.len() - 1 implies terminated(#[trigger] ol[i]) by {
            if i == 0 {
                assert(ls.len() >= 2);
                assert(terminated(ls[0]));
            } else {
                assert(ol[i] == rec[i - 1]);
            }
        }
    } else {
        let k = first_sent(ls);
        lemma_first_sent_bounds(ls);
        let tk = ls.take(k);
        let sk = ls.skip(k);
        assert forall|i: int| 0 <= i < tk.len() implies line_ok(#[trigger] tk[i]) by {
            assert(tk[i] == ls[i]);
        }
        assert forall|i: int| 0 <= i < tk.len() - 1 implies terminated(#[trigger] tk[i]) by {
            assert(tk[i] == ls[i]);
        }
        assert forall|i: int| 0 <= i < sk.len() implies line_ok(#[trigger] sk[i]) by {
            assert(sk[i] == ls[i + k]);
        }
        assert forall|i: int| 0 <= i < sk.len() - 1 implies terminated(#[trigger] sk[i]) by {
            assert(sk[i] == ls[i + k]);
        }
        lemma_out_lines_wf(sk, iw);
        lemma_lines_preserved(sk, iw);
        lemma_seg_result_skels(tk, iw);
        let hd = seg_result(tk, iw).0;
        let rec = out_lines(seg_seq(sk), iw);
        assert(segs.drop_first() =~= seg_seq(sk));
        assert(ol == hd + rec);
        assert(hd.len() == k);
        // The head is either the original lines or a freshly split rendering;
        // either way its lines are well shaped.
        let text = concat_lines(tk);
        match crate::lex::lex_spans_of(text) {
            Option::None => {},
            Option::Some(spans0) => {
                let spans = crate::lex::nonempty_spans(spans0);
                if crate::lex::spans_wf(spans, text.len() as int) {
                    match crate::engine::render_spec(text, spans, iw) {
                        Option::None => {},
                        Option::Some(cand) => {
                            lemma_line_seq_wf(cand);
                        },
                    }
                }
            },
        }
        assert(forall|i: int| 0 <= i < hd.len() ==> line_ok(#[trigger] hd[i]));
        assert(forall|i: int| 0 <= i < hd.len() - 1 ==> terminated(#[trigger] hd[i]));
        if k < ls.len() {
            // The head's last line ends in a line feed because the original
            // line there does, line feeds survive the skeleton, and a
            // well-shaped line can hold one only at its end.
            assert(terminated(ls[k - 1]));
            assert(skels(hd)[k - 1] == skels(tk)[k - 1]);
            assert(line_skel(hd[k - 1]) == line_skel(tk[k - 1]));
            lemma_count_nl_skel(hd[k - 1]);
            lemma_count_nl_skel(tk[k - 1]);
            assert(tk[k - 1] == ls[k - 1]);
            lemma_line_ok_nl(ls[k - 1]);
            lemma_line_ok_nl(hd[k - 1]);
            assert(terminated(hd[k - 1]));
        }
        assert forall|i: int| 0 <= i < ol.len() implies line_ok(#[trigger] ol[i]) by {
            if i < k {
                assert(ol[i] == hd[i]);
            } else {
                assert(ol[i] == rec[i - k]);
            }
        }
        assert forall|i: int| 0 <= i < ol.len() - 1 implies terminated(#[trigger] ol[i]) by {
            if i < k - 1 {
                assert(ol[i] == hd[i]);
            } else if i == k - 1 {
                assert(ol[i] == hd[i]);
                assert(k < ls.len());
            } else {
                assert(ol[i] == rec[i - k]);
                assert(rec.len() == sk.len());
            }
        }
    }
}

/// Line preservation over the final text: the beautified document has
/// exactly as many lines as the input, every line equals the input's line
/// once spaces and tabs are dropped, and every sentinel line appears
/// byte-identical at its original position.
pub proof fn lemma_document_lines_preserved(text: Seq<u8>, iw: int)
    ensures
        line_seq(beautify_spec(text, iw)).len() == line_seq(text).len(),
        forall|i: int| 0 <= i < line_seq(text).len() ==> line_skel(
            #[trigger] line_seq(beautify_spec(text, iw))[i],
        ) == line_skel(line_seq(text)[i]),
        forall|i: int| 0 <= i < line_seq(text).len() && is_sentinel(#[trigger] line_seq(text)[i])
            ==> line_seq(beautify_spec(text, iw))[i] == line_seq(text)[i],
{
    let ls = line_seq(text);
    lemma_line_seq_wf(text);
    lemma_lines_preserved(ls, iw);
    lemma_out_lines_wf(ls, iw);
    lemma_line_seq_of_wf(out_lines(seg_seq(ls), iw));
}

/// A document the beautifier already leaves unchanged is a fixed point:
/// beautifying it again changes nothing.
pub proof fn lemma_canonical_fixed_point(text: Seq<u8>, iw: int)
    requires
        beautify_spec(text, iw) == text,
    ensures
        beautify_spec(beautify_spec(text, iw), iw) == beautify_spec(text, iw),
{
}

} // verus!
