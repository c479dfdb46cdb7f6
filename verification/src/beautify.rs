//! The beautifier: fence, per-segment reformatting and document assembly.
//!
//! A code segment is joined, handed to the lexer adapter, re-emitted by the
//! engine, and then held against the line-break fence: the candidate is
//! accepted only if, line for line, its bytes with spaces and tabs removed
//! equal the original's. The fence runs unconditionally; on any failure —
//! the lexer rejects the segment, the engine gives up, or the fence finds a
//! divergence — the segment's original lines are emitted verbatim. Sentinel
//! segments are never reformatted at all.

use vstd::prelude::*;

use crate::engine::render_spec;
use crate::engine::render;
use crate::lex::{clean_spans, lex_spans, lex_spans_of, nonempty_spans, spans_wf};
use crate::lines::{
    bytes_eq, concat_lines, deep_view, join_lines, line_seq, skels, skel_of, split_lines,
};
use crate::segment::{copy_line, seg_seq, segs_view, split_segments, SegView};

verus! {

/// Run configuration, fixed before any segment is processed. Only the
/// quote-preserving mode exists: string quotes are never normalized, whatever
/// `normalize_quotes` says, and `line_length` is informational, since a
/// formatter that may not add or remove line breaks never rewraps. Blank-line
/// counts are always left exactly as in the source — collapsing them would
/// remove line breaks, which the fence forbids — so there is no non-strict
/// blank-line mode to configure.
#[derive(Clone, Copy, PartialEq, Eq, Structural, Debug)]
pub struct Config {
    /// Spaces per indentation level.
    pub indent_width: usize,
    /// The reference style's line-length target; never acted on.
    pub line_length: usize,
    /// Whether quotes would be normalized; only `false` is implemented.
    pub normalize_quotes: bool,
}

impl Config {
    /// The reference style's defaults.
    pub fn standard() -> (c: Config)
        ensures
            c.indent_width == 4,
            c.line_length == 88,
            !c.normalize_quotes,
    {
        Config { indent_width: 4, line_length: 88, normalize_quotes: false }
    }
}

/// How one segment was emitted.
#[derive(Clone, Copy, PartialEq, Eq, Structural, Debug)]
pub enum SegStatus {
    /// A sentinel segment, copied through byte-for-byte.
    Verbatim,
    /// A code segment the engine reformatted; the fence passed.
    Reformatted,
    /// The lexer rejected the segment (or returned unusable ranges); its
    /// lines were emitted unchanged.
    LexFailure,
    /// The engine gave up on a construct; the lines were emitted unchanged.
    EngineGiveUp,
    /// The fence found a line-break divergence; the candidate was discarded
    /// and the lines were emitted unchanged.
    FenceViolation,
}

/// One diagnostic per segment, in document order: the segment's line range —
/// it spans `line_count` lines from the zero-based document line
/// `first_line` — and how it was emitted.
#[derive(Clone, Copy, PartialEq, Eq, Structural, Debug)]
pub struct Diagnostic {
    pub first_line: usize,
    pub line_count: usize,
    pub status: SegStatus,
}

/// What becomes of one code segment with lines `ls`: the emitted lines and
/// the status. Every fallback returns the lines unchanged.
pub open spec fn seg_result(ls: Seq<Seq<u8>>, iw: int) -> (Seq<Seq<u8>>, SegStatus) {
    let text = concat_lines(ls);
    match lex_spans_of(text) {
        Option::None => (ls, SegStatus::LexFailure),
        Option::Some(spans0) => {
            let spans = nonempty_spans(spans0);
            if !spans_wf(spans, text.len() as int) {
                (ls, SegStatus::LexFailure)
            } else {
                match render_spec(text, spans, iw) {
                    Option::None => (ls, SegStatus::EngineGiveUp),
                    Option::Some(cand) => {
                        let cl = line_seq(cand);
                        if skels(cl) == skels(ls) {
                            (cl, SegStatus::Reformatted)
                        } else {
                            (ls, SegStatus::FenceViolation)
                        }
                    },
                }
            }
        },
    }
}

/// The emitted lines of a segment sequence, in order.
pub open spec fn out_lines(segs: Seq<SegView>, iw: int) -> Seq<Seq<u8>>
    decreases segs.len(),
{
    if segs.len() == 0 {
        Seq::empty()
    } else {
        (if segs[0].code {
            seg_result(segs[0].lines, iw).0
        } else {
            segs[0].lines
        }) + out_lines(segs.drop_first(), iw)
    }
}

/// The diagnostics of a segment sequence whose first line is document line
/// `first`, in order.
pub open spec fn diags_spec(segs: Seq<SegView>, iw: int, first: int) -> Seq<Diagnostic>
    decreases segs.len(),
{
    if segs.len() == 0 {
        Seq::empty()
    } else {
        seq![
            Diagnostic {
                first_line: first as usize,
                line_count: segs[0].lines.len() as usize,
                status: if segs[0].code {
                    seg_result(segs[0].lines, iw).1
                } else {
                    SegStatus::Verbatim
                },
            },
        ] + diags_spec(segs.drop_first(), iw, first + segs[0].lines.len())
    }
}

/// The whole document, beautified: segments are emitted in order, code
/// segments through the engine and the fence, sentinel segments verbatim.
pub open spec fn beautify_spec(text: Seq<u8>, iw: int) -> Seq<u8> {
    concat_lines(out_lines(seg_seq(line_seq(text)), iw))
}

/// The line-break fence: the candidate lines pass exactly when, line for
/// line, their skeletons (bytes with spaces and tabs removed, line feeds
/// kept) equal the original's.
pub fn fence_check(cand: &Vec<Vec<u8>>, orig: &Vec<Vec<u8>>) -> (r: bool)
    ensures
        r == (skels(deep_view(*cand)) == skels(deep_view(*orig))),
{
    let ghost dc = deep_view(*cand);
    let ghost dn = deep_view(*orig);
    if cand.len() != orig.len() {
        proof {
            assert(skels(dc).len() != skels(dn).len());
        }
        return false;
    }
    let mut i: usize = 0;
    while i < cand.len()
        invariant
            i <= cand.len(),
            dc == deep_view(*cand),
            dn == deep_view(*orig),
            dc.len() == dn.len() == cand.len() as int,
            forall|k: int| 0 <= k < i ==> skels(dc)[k] == skels(dn)[k],
        decreases cand.len() - i,
    {
        let sc = skel_of(&cand[i]);
        let sn = skel_of(&orig[i]);
        if !bytes_eq(&sc, &sn) {
            proof {
                assert(skels(dc)[i as int] != skels(dn)[i as int]);
            }
            return false;
        }
        i = i + 1;
    }
    proof {
        assert(skels(dc) =~= skels(dn));
    }
    true
}

/// Copy a segment's lines.
pub fn copy_lines(src: &Vec<Vec<u8>>) -> (r: Vec<Vec<u8>>)
    ensures
        deep_view(r) == deep_view(*src),
{
    let mut r: Vec<Vec<u8>> = Vec::new();
    let mut i: usize = 0;
    while i < src.len()
        invariant
            i <= src.len(),
            deep_view(r) == deep_view(*src).take(i as int),
        decreases src.len() - i,
    {
        let ghost pre = deep_view(r);
        let l = copy_line(&src[i]);
        r.push(l);
        i = i + 1;
        proof {
            assert(deep_view(r) =~= pre.push(deep_view(*src)[i - 1]));
            assert(pre.push(deep_view(*src)[i - 1]) =~= deep_view(*src).take(i as int));
        }
    }
    proof {
        assert(deep_view(*src).take(src@.len() as int) =~= deep_view(*src));
    }
    r
}

/// Append copies of all of `src`'s lines to `dst`.
pub fn append_lines(dst: &mut Vec<Vec<u8>>, src: &Vec<Vec<u8>>)
    ensures
        deep_view(*final(dst)) == deep_view(*old(dst)) + deep_view(*src),
{
    let mut i: usize = 0;
    proof {
        assert(deep_view(*dst) =~= deep_view(*old(dst)) + deep_view(*src).take(0));
    }
    while i < src.len()
        invariant
            i <= src.len(),
            deep_view(*dst) == deep_view(*old(dst)) + deep_view(*src).take(i as int),
        decreases src.len() - i,
    {
        let ghost pre = deep_view(*dst);
        let l = copy_line(&src[i]);
        dst.push(l);
        i = i + 1;
        proof {
            assert(deep_view(*dst) =~= pre.push(deep_view(*src)[i - 1]));
            assert(pre.push(deep_view(*src)[i - 1]) =~= deep_view(*old(dst)) + deep_view(
                *src,
            ).take(i as int));
        }
    }
    proof {
        assert(deep_view(*src).take(src@.len() as int) =~= deep_view(*src));
    }
}

/// Reformat one code segment, or return its lines unchanged with the reason.
pub fn reformat_code_segment(lines: &Vec<Vec<u8>>, iw: usize) -> (r: (Vec<Vec<u8>>, SegStatus))
    ensures
        deep_view(r.0) == seg_result(deep_view(*lines), iw as int).0,
        r.1 == seg_result(deep_view(*lines), iw as int).1,
{
    let text = join_lines(lines);
    let spans0 = match lex_spans(&text) {
        Option::Some(s) => s,
        Option::None => {
            return (copy_lines(lines), SegStatus::LexFailure);
        },
    };
    let spans = match clean_spans(&spans0, text.len()) {
        Option::Some(s) => s,
        Option::None => {
            return (copy_lines(lines), SegStatus::LexFailure);
        },
    };
    let cand = match render(&text, &spans, iw) {
        Option::Some(c) => c,
        Option::None => {
            return (copy_lines(lines), SegStatus::EngineGiveUp);
        },
    };
    let cl = split_lines(&cand);
    if fence_check(&cl, lines) {
        (cl, SegStatus::Reformatted)
    } else {
        (copy_lines(lines), SegStatus::FenceViolation)
    }
}

/// Beautify a whole document. The first result is the rendered document, the
/// second one diagnostic per segment in order.
pub fn beautify(text: &Vec<u8>, cfg: &Config) -> (r: (Vec<u8>, Vec<Diagnostic>))
    ensures
        r.0@ == beautify_spec(text@, cfg.indent_width as int),
        r.1@ == diags_spec(seg_seq(line_seq(text@)), cfg.indent_width as int, 0),
        crate::lines::count_nl(r.0@) == crate::lines::count_nl(text@),
        line_seq(r.0@).len() == line_seq(text@).len(),
        forall|i: int| 0 <= i < line_seq(text@).len() ==> crate::lines::line_skel(
            #[trigger] line_seq(r.0@)[i],
        ) == crate::lines::line_skel(line_seq(text@)[i]),
        forall|i: int| 0 <= i < line_seq(text@).len() && crate::segment::is_sentinel(
            #[trigger] line_seq(text@)[i],
        ) ==> line_seq(r.0@)[i] == line_seq(text@)[i],
{
    proof {
        crate::laws::lemma_newline_count_preserved(text@, cfg.indent_width as int);
        crate::laws::lemma_document_lines_preserved(text@, cfg.indent_width as int);
    }
    let iw = cfg.indent_width;
    let lines = split_lines(text);
    let segs = split_segments(&lines);
    let ghost sv = segs_view(segs);
    let mut out_ls: Vec<Vec<u8>> = Vec::new();
    let mut diags: Vec<Diagnostic> = Vec::new();
    let mut first_line: usize = 0;
    let mut i: usize = 0;
    proof {
        assert(sv.skip(0) =~= sv);
        assert(sv.take(0) =~= Seq::<SegView>::empty());
        assert(deep_view(out_ls) + out_lines(sv, iw as int) =~= out_lines(sv, iw as int));
        assert(diags@ + diags_spec(sv, iw as int, 0) =~= diags_spec(sv, iw as int, 0));
        crate::segment::lemma_seg_seq_partitions(deep_view(lines));
        crate::segment::lemma_total_lines_eq(sv);
        assert(crate::segment::total_lines(sv) == deep_view(lines).len());
    }
    let n_lines = lines.len();
    proof {
        assert(deep_view(lines).len() == n_lines as int);
    }
    while i < segs.len()
        invariant
            i <= segs.len(),
            sv == segs_view(segs),
            out_lines(sv, iw as int) == deep_view(out_ls) + out_lines(
                sv.skip(i as int),
                iw as int,
            ),
            diags_spec(sv, iw as int, 0) == diags@ + diags_spec(
                sv.skip(i as int),
                iw as int,
                first_line as int,
            ),
            first_line as int == crate::segment::total_lines(sv.take(i as int)),
            crate::segment::total_lines(sv) <= usize::MAX,
        decreases segs.len() - i,
    {
        let ghost rest = sv.skip(i as int);
        let ghost pre_out = deep_view(out_ls);
        let ghost pre_d = diags@;
        let ghost pre_fl = first_line as int;
        proof {
            assert(rest[0] == sv[i as int]);
            assert(rest.drop_first() =~= sv.skip(i + 1));
        }
        let seg = &segs[i];
        let st: SegStatus;
        if seg.code {
            let (ols, s) = reformat_code_segment(&seg.lines, iw);
            st = s;
            append_lines(&mut out_ls, &ols);
        } else {
            st = SegStatus::Verbatim;
            append_lines(&mut out_ls, &seg.lines);
        }
        let d = Diagnostic { first_line: first_line, line_count: seg.lines.len(), status: st };
        diags.push(d);
        proof {
            crate::segment::lemma_total_lines_push(sv.take(i as int), sv[i as int]);
            assert(sv.take(i as int).push(sv[i as int]) =~= sv.take(i + 1));
            crate::segment::lemma_total_lines_add(sv.take(i + 1), sv.skip(i + 1));
            assert(sv.take(i + 1) + sv.skip(i + 1) =~= sv);
            assert(first_line + seg.lines@.len() <= crate::segment::total_lines(sv));
        }
        first_line = first_line + seg.lines.len();
        i = i + 1;
        proof {
            let head = if rest[0].code {
                seg_result(rest[0].lines, iw as int).0
            } else {
                rest[0].lines
            };
            assert(out_lines(rest, iw as int) == head + out_lines(sv.skip(i as int), iw as int));
            assert(deep_view(out_ls) =~= pre_out + head);
            assert((pre_out + head) + out_lines(sv.skip(i as int), iw as int) =~= pre_out + (head
                + out_lines(sv.skip(i as int), iw as int)));
            assert(diags@ =~= pre_d.push(d));
            assert(diags_spec(rest, iw as int, pre_fl) == seq![d] + diags_spec(
                sv.skip(i as int),
                iw as int,
                first_line as int,
            ));
            assert(pre_d + (seq![d] + diags_spec(sv.skip(i as int), iw as int, first_line as int))
                =~= pre_d.push(d) + diags_spec(sv.skip(i as int), iw as int, first_line as int));
        }
    }
    proof {
        assert(sv.skip(i as int) =~= Seq::<SegView>::empty());
        assert(deep_view(out_ls) + out_lines(sv.skip(i as int), iw as int) =~= deep_view(out_ls));
        assert(diags@ + diags_spec(sv.skip(i as int), iw as int, first_line as int) =~= diags@);
    }
    let out = join_lines(&out_ls);
    (out, diags)
}

} // verus!
