//! The style rule engine.
//!
//! The engine re-emits a code segment token by token. Every token's own bytes
//! are copied verbatim from the segment text; what changes is only the
//! whitespace between tokens: indentation at the start of each line —
//! comment-only lines included — is recomputed from nesting depth (indent
//! levels plus open brackets), never copied from the original blanks, and the
//! space count between two tokens on one line comes from the spacing table.
//! Newline tokens are copied byte-for-byte, so the engine never adds or
//! removes a line break. Whitespace that carries structure it does not model
//! (a backslash continuation, a form feed) is copied verbatim. When the
//! segment nests implausibly deep or its indentation cannot be modelled, the
//! engine gives up and the caller falls back to the original text.
//!
//! No rule here ever inserts or removes a token. In particular the reference
//! style's magic-trailing-comma rule is left out entirely: adding or removing
//! a comma would change the non-whitespace skeleton that the fence holds
//! fixed, and line-break preservation overrides any rule that would touch it.
//!
//! The whole emission is mirrored by a specification-level fold
//! (`render_spec`), and the executable renderer is proved to return exactly
//! that fold's result.

use vstd::prelude::*;

use crate::lex::{Span, spans_wf};
use crate::lines::{push_range, SP};
use crate::tokens::{
    cls, cls_of, next_brackets, next_prev, sep_width, sep_width_of, next_prev_of, ws_only,
    ws_only_of, ws_width_from, ws_width_of, Cls, Prev,
};

verus! {

/// Caps beyond which the engine gives up rather than risk arithmetic it
/// cannot bound: nesting depth and indent width.
pub const MAX_DEPTH: usize = 100;

/// The cap on the leading whitespace of one line.
pub const MAX_LEAD: usize = 10000;

/// The engine's state between tokens, as mathematical values.
#[verifier::ext_equal]
pub struct EmitView {
    /// Bytes emitted so far.
    pub out: Seq<u8>,
    /// Leading bytes of the current line, collected while at line start.
    pub pending: Seq<u8>,
    /// Open brackets, innermost last.
    pub brackets: Seq<u8>,
    /// Widths of the open indentation levels, outermost first.
    pub indents: Seq<usize>,
    /// The last emitted token, as far as spacing cares.
    pub prev: Prev,
    /// End offset of the last consumed token range.
    pub last_end: int,
    /// Set when the engine has given up; the caller falls back.
    pub failed: bool,
}

/// `n` spaces.
pub open spec fn seq_spaces(n: int) -> Seq<u8> {
    Seq::new(if n >= 0 { n as nat } else { 0 }, |i: int| SP)
}

/// The innermost open bracket, if any.
pub open spec fn inner_of(bs: Seq<u8>) -> Option<u8> {
    if bs.len() > 0 {
        Some(bs.last())
    } else {
        None
    }
}

/// Pop indentation levels wider than `w`.
pub open spec fn pop_wider(ind: Seq<usize>, w: int) -> Seq<usize>
    decreases ind.len(),
{
    if ind.len() == 0 {
        ind
    } else if ind.last() > w {
        pop_wider(ind.drop_last(), w)
    } else {
        ind
    }
}

/// The indentation stack after a logical line whose leading width is `w`:
/// wider levels close, an unseen width opens a new level.
pub open spec fn update_indents(ind: Seq<usize>, w: int) -> Seq<usize> {
    let p = pop_wider(ind, w);
    if w <= 0 {
        p
    } else if p.len() > 0 && p.last() == w {
        p
    } else {
        p.push(w as usize)
    }
}

/// Whether token `t` of class `c` is a closing bracket (a continuation line
/// that starts with one sits a level shallower).
pub open spec fn closer_first(c: Cls, t: Seq<u8>) -> bool {
    c == Cls::Op && t.len() == 1 && (t[0] == 41 || t[0] == 93 || t[0] == 125)
}

/// The engine's state before any token.
pub open spec fn init_emit() -> EmitView {
    EmitView {
        out: Seq::empty(),
        pending: Seq::empty(),
        brackets: Seq::empty(),
        indents: Seq::empty(),
        prev: Prev::Start,
        last_end: 0,
        failed: false,
    }
}

/// One step of the emission: consume the token at range `sp`, preceded by the
/// gap bytes since the previous token.
pub open spec fn step_emit(v: EmitView, text: Seq<u8>, sp: Span, iw: int) -> EmitView {
    if v.failed {
        v
    } else {
        let g = text.subrange(v.last_end, sp.start as int);
        let t = text.subrange(sp.start as int, sp.end as int);
        let c = cls(t);
        let inner = inner_of(v.brackets);
        if v.prev == Prev::Start {
            let pend = v.pending + g;
            if c == Cls::Ws {
                EmitView { pending: pend + t, last_end: sp.end as int, ..v }
            } else if c == Cls::Newline {
                let out2 = if ws_only(pend) {
                    v.out + t
                } else {
                    v.out + pend + t
                };
                EmitView { out: out2, pending: Seq::empty(), last_end: sp.end as int, ..v }
            } else if c == Cls::Comment {
                // A comment-only line is reindented like a code line, by the
                // depth its own leading width maps to — but it leaves the
                // indentation stack untouched, since the tokenizer derives
                // block structure from code lines alone.
                if !ws_only(pend) {
                    EmitView {
                        out: v.out + pend + t,
                        pending: Seq::empty(),
                        prev: Prev::Comment,
                        last_end: sp.end as int,
                        ..v
                    }
                } else if pend.len() > MAX_LEAD as int || iw > MAX_DEPTH as int {
                    EmitView {
                        failed: true,
                        pending: Seq::empty(),
                        last_end: sp.end as int,
                        ..v
                    }
                } else if v.brackets.len() == 0 {
                    let w = ws_width_from(pend, 0);
                    let d = update_indents(v.indents, w).len();
                    if d > MAX_DEPTH as int {
                        EmitView {
                            failed: true,
                            pending: Seq::empty(),
                            last_end: sp.end as int,
                            ..v
                        }
                    } else {
                        EmitView {
                            out: v.out + seq_spaces(d * iw) + t,
                            pending: Seq::empty(),
                            prev: Prev::Comment,
                            last_end: sp.end as int,
                            ..v
                        }
                    }
                } else {
                    if v.indents.len() + v.brackets.len() > MAX_DEPTH as int {
                        EmitView {
                            failed: true,
                            pending: Seq::empty(),
                            last_end: sp.end as int,
                            ..v
                        }
                    } else {
                        let d = v.indents.len() + v.brackets.len();
                        EmitView {
                            out: v.out + seq_spaces(d * iw) + t,
                            pending: Seq::empty(),
                            prev: Prev::Comment,
                            last_end: sp.end as int,
                            ..v
                        }
                    }
                }
            } else {
                if !ws_only(pend) {
                    EmitView {
                        out: v.out + pend + t,
                        pending: Seq::empty(),
                        prev: next_prev(Prev::Start, c, t, inner),
                        brackets: next_brackets(v.brackets, c, t),
                        last_end: sp.end as int,
                        ..v
                    }
                } else if pend.len() > MAX_LEAD as int || iw > MAX_DEPTH as int {
                    EmitView {
                        failed: true,
                        pending: Seq::empty(),
                        last_end: sp.end as int,
                        ..v
                    }
                } else if v.brackets.len() == 0 {
                    let w = ws_width_from(pend, 0);
                    let ind2 = update_indents(v.indents, w);
                    if ind2.len() > MAX_DEPTH as int {
                        EmitView {
                            failed: true,
                            pending: Seq::empty(),
                            indents: ind2,
                            last_end: sp.end as int,
                            ..v
                        }
                    } else {
                        EmitView {
                            out: v.out + seq_spaces(ind2.len() * iw) + t,
                            pending: Seq::empty(),
                            indents: ind2,
                            prev: next_prev(Prev::Start, c, t, inner),
                            brackets: next_brackets(v.brackets, c, t),
                            last_end: sp.end as int,
                            ..v
                        }
                    }
                } else {
                    if v.indents.len() + v.brackets.len() > MAX_DEPTH as int {
                        EmitView {
                            failed: true,
                            pending: Seq::empty(),
                            last_end: sp.end as int,
                            ..v
                        }
                    } else {
                        let d = v.indents.len() + v.brackets.len() - (if closer_first(c, t) {
                            1int
                        } else {
                            0int
                        });
                        EmitView {
                            out: v.out + seq_spaces(d * iw) + t,
                            pending: Seq::empty(),
                            prev: next_prev(Prev::Start, c, t, inner),
                            brackets: next_brackets(v.brackets, c, t),
                            last_end: sp.end as int,
                            ..v
                        }
                    }
                }
            }
        } else {
            if c == Cls::Ws {
                if ws_only(g) && ws_only(t) {
                    EmitView { last_end: sp.end as int, ..v }
                } else {
                    EmitView { out: v.out + g + t, last_end: sp.end as int, ..v }
                }
            } else if c == Cls::Newline {
                let out2 = if ws_only(g) {
                    v.out + t
                } else {
                    v.out + g + t
                };
                EmitView {
                    out: out2,
                    pending: Seq::empty(),
                    prev: Prev::Start,
                    last_end: sp.end as int,
                    ..v
                }
            } else {
                let sepb = if ws_only(g) {
                    seq_spaces(sep_width(v.prev, c, t, inner) as int)
                } else {
                    g
                };
                EmitView {
                    out: v.out + sepb + t,
                    prev: next_prev(v.prev, c, t, inner),
                    brackets: next_brackets(v.brackets, c, t),
                    last_end: sp.end as int,
                    ..v
                }
            }
        }
    }
}

/// The emission after the first `n` tokens.
pub open spec fn fold_emit(text: Seq<u8>, spans: Seq<Span>, iw: int, n: int) -> EmitView
    decreases n,
{
    if n <= 0 {
        init_emit()
    } else {
        step_emit(fold_emit(text, spans, iw, n - 1), text, spans[n - 1], iw)
    }
}

/// Consume the tail after the last token: dropped when blank, kept verbatim
/// otherwise.
pub open spec fn finish_emit(v: EmitView, text: Seq<u8>) -> EmitView {
    if v.failed {
        v
    } else {
        let tail = v.pending + text.subrange(v.last_end, text.len() as int);
        if ws_only(tail) {
            v
        } else {
            EmitView { out: v.out + tail, ..v }
        }
    }
}

/// What the engine produces for segment `text` with token ranges `spans` and
/// indent width `iw`: the re-emitted bytes, or nothing when it gives up.
pub open spec fn render_spec(text: Seq<u8>, spans: Seq<Span>, iw: int) -> Option<Seq<u8>> {
    let v = finish_emit(fold_emit(text, spans, iw, spans.len() as int), text);
    if v.failed {
        None
    } else {
        Some(v.out)
    }
}

/// Append `n` spaces.
pub fn push_spaces(out: &mut Vec<u8>, n: usize)
    ensures
        final(out)@ == old(out)@ + seq_spaces(n as int),
{
    let mut j: usize = 0;
    while j < n
        invariant
            j <= n,
            out@ == old(out)@ + seq_spaces(j as int),
        decreases n - j,
    {
        out.push(SP);
        j = j + 1;
        proof {
            assert(out@ =~= old(out)@ + seq_spaces(j as int));
        }
    }
    proof {
        assert(out@ =~= old(out)@ + seq_spaces(n as int));
    }
}

/// Copy `src[from .. to]` into a fresh vector.
pub fn sub_vec(src: &Vec<u8>, from: usize, to: usize) -> (r: Vec<u8>)
    requires
        from <= to <= src@.len(),
    ensures
        r@ == src@.subrange(from as int, to as int),
{
    let mut r: Vec<u8> = Vec::new();
    push_range(&mut r, src, from, to);
    r
}

/// Re-emit the tokens of a segment. Returns the rendered bytes, or `None`
/// exactly when the specification-level emission gives up.
pub fn render(text: &Vec<u8>, spans: &Vec<Span>, iw: usize) -> (r: Option<Vec<u8>>)
    requires
        spans_wf(spans@, text@.len() as int),
    ensures
        r matches Some(v) ==> render_spec(text@, spans@, iw as int) == Some(v@),
        r is None ==> render_spec(text@, spans@, iw as int) is None,
{
    let mut out: Vec<u8> = Vec::new();
    let mut pending: Vec<u8> = Vec::new();
    let mut brackets: Vec<u8> = Vec::new();
    let mut indents: Vec<usize> = Vec::new();
    let mut prev: Prev = Prev::Start;
    let mut last_end: usize = 0;
    let mut failed: bool = false;
    let mut i: usize = 0;
    proof {
        assert(EmitView {
            out: out@,
            pending: pending@,
            brackets: brackets@,
            indents: indents@,
            prev: prev,
            last_end: last_end as int,
            failed: failed,
        } =~= fold_emit(text@, spans@, iw as int, 0));
    }
    while i < spans.len()
        invariant
            i <= spans.len(),
            spans_wf(spans@, text@.len() as int),
            (EmitView {
                out: out@,
                pending: pending@,
                brackets: brackets@,
                indents: indents@,
                prev: prev,
                last_end: last_end as int,
                failed: failed,
            }) == fold_emit(text@, spans@, iw as int, i as int),
            !failed ==> last_end as int == if i == 0 {
                0int
            } else {
                spans@[i - 1].end as int
            },
        decreases spans.len() - i,
    {
        let ghost pre = fold_emit(text@, spans@, iw as int, i as int);
        let sp = spans[i];
        proof {
            assert(fold_emit(text@, spans@, iw as int, i + 1) == step_emit(
                pre,
                text@,
                sp,
                iw as int,
            ));
        }
        if !failed {
            proof {
                assert(sp.start < sp.end <= text@.len());
                if i > 0 {
                    assert(spans@[i - 1].end <= spans@[i as int].start);
                }
                assert(last_end <= sp.start);
            }
            let g = sub_vec(text, last_end, sp.start);
            let t = sub_vec(text, sp.start, sp.end);
            let c = cls_of(&t);
            let inner: Option<u8> = if brackets.len() > 0 {
                Some(brackets[brackets.len() - 1])
            } else {
                None
            };
            proof {
                assert(inner == inner_of(brackets@));
            }
            if prev == Prev::Start {
                let mut pend = pending;
                pending = Vec::new();
                push_range(&mut pend, &g, 0, g.len());
                proof {
                    assert(g@.subrange(0, g@.len() as int) =~= g@);
                    assert(pend@ == pre.pending + g@);
                }
                if c == Cls::Ws {
                    push_range(&mut pend, &t, 0, t.len());
                    proof {
                        assert(t@.subrange(0, t@.len() as int) =~= t@);
                        assert((pre.pending + g@) + t@ =~= pend@);
                    }
                    pending = pend;
                } else if c == Cls::Newline {
                    if !ws_only_of(&pend) {
                        push_range(&mut out, &pend, 0, pend.len());
                        proof {
                            assert(pend@.subrange(0, pend@.len() as int) =~= pend@);
                        }
                    }
                    push_range(&mut out, &t, 0, t.len());
                    proof {
                        assert(t@.subrange(0, t@.len() as int) =~= t@);
                        if ws_only(pre.pending + g@) {
                            assert(out@ =~= pre.out + t@);
                        } else {
                            assert(out@ =~= (pre.out + (pre.pending + g@)) + t@);
                            assert(pre.out + (pre.pending + g@) + t@
                                =~= pre.out + (pre.pending + g@) + t@);
                        }
                    }
                } else if c == Cls::Comment {
                    if !ws_only_of(&pend) {
                        push_range(&mut out, &pend, 0, pend.len());
                        push_range(&mut out, &t, 0, t.len());
                        prev = Prev::Comment;
                        proof {
                            assert(pend@.subrange(0, pend@.len() as int) =~= pend@);
                            assert(t@.subrange(0, t@.len() as int) =~= t@);
                            assert(out@ =~= (pre.out + (pre.pending + g@)) + t@);
                        }
                    } else if pend.len() > MAX_LEAD || iw > MAX_DEPTH {
                        failed = true;
                    } else if brackets.len() == 0 {
                        let w = ws_width_of(&pend);
                        let mut keep: usize = indents.len();
                        proof {
                            assert(indents@.take(keep as int) =~= indents@);
                        }
                        while keep > 0 && indents[keep - 1] > w
                            invariant
                                keep <= indents@.len(),
                                pop_wider(indents@, w as int) == pop_wider(
                                    indents@.take(keep as int),
                                    w as int,
                                ),
                            decreases keep,
                        {
                            proof {
                                assert(indents@.take(keep as int).last() == indents@[keep - 1]);
                                assert(indents@.take(keep as int).drop_last() =~= indents@.take(
                                    keep - 1,
                                ));
                            }
                            keep = keep - 1;
                        }
                        proof {
                            if keep > 0 {
                                assert(indents@.take(keep as int).last() == indents@[keep - 1]);
                            }
                            assert(pop_wider(indents@, w as int) == indents@.take(keep as int));
                        }
                        let grows: bool = !(w == 0 || (keep > 0 && indents[keep - 1] == w));
                        proof {
                            let ind2 = update_indents(indents@, w as int);
                            if grows {
                                assert(ind2 == indents@.take(keep as int).push(
                                    (w as int) as usize,
                                ));
                                assert(ind2.len() == keep + 1);
                            } else {
                                assert(ind2 =~= indents@.take(keep as int));
                                assert(ind2.len() == keep as int);
                            }
                        }
                        if keep > MAX_DEPTH || (grows && keep >= MAX_DEPTH) {
                            failed = true;
                        } else {
                            let d: usize = if grows {
                                keep + 1
                            } else {
                                keep
                            };
                            proof {
                                assert(d * iw <= 10000) by (nonlinear_arith)
                                    requires
                                        d <= 100,
                                        iw <= 100,
                                ;
                            }
                            let n = d * iw;
                            push_spaces(&mut out, n);
                            push_range(&mut out, &t, 0, t.len());
                            prev = Prev::Comment;
                            proof {
                                assert(t@.subrange(0, t@.len() as int) =~= t@);
                                assert(out@ =~= (pre.out + seq_spaces(d as int * iw as int))
                                    + t@);
                            }
                        }
                    } else {
                        if indents.len() > MAX_DEPTH || brackets.len() > MAX_DEPTH
                            || indents.len() + brackets.len() > MAX_DEPTH {
                            failed = true;
                        } else {
                            let d: usize = indents.len() + brackets.len();
                            proof {
                                assert(d * iw <= 10000) by (nonlinear_arith)
                                    requires
                                        d <= 100,
                                        iw <= 100,
                                ;
                            }
                            let n = d * iw;
                            push_spaces(&mut out, n);
                            push_range(&mut out, &t, 0, t.len());
                            prev = Prev::Comment;
                            proof {
                                assert(t@.subrange(0, t@.len() as int) =~= t@);
                                assert(out@ =~= (pre.out + seq_spaces(d as int * iw as int))
                                    + t@);
                            }
                        }
                    }
                } else {
                    if !ws_only_of(&pend) {
                        push_range(&mut out, &pend, 0, pend.len());
                        push_range(&mut out, &t, 0, t.len());
                        prev = next_prev_of(Prev::Start, c, &t, inner);
                        apply_brackets(&mut brackets, c, &t);
                        proof {
                            assert(pend@.subrange(0, pend@.len() as int) =~= pend@);
                            assert(t@.subrange(0, t@.len() as int) =~= t@);
                            assert(out@ =~= (pre.out + (pre.pending + g@)) + t@);
                        }
                    } else if pend.len() > MAX_LEAD || iw > MAX_DEPTH {
                        failed = true;
                    } else if brackets.len() == 0 {
                        let w = ws_width_of(&pend);
                        while indents.len() > 0 && indents[indents.len() - 1] > w
                            invariant
                                pop_wider(pre.indents, w as int) == pop_wider(
                                    indents@,
                                    w as int,
                                ),
                            decreases indents.len(),
                        {
                            let ghost cur = indents@;
                            indents.pop();
                            proof {
                                assert(indents@ =~= cur.drop_last());
                            }
                        }
                        proof {
                            assert(pop_wider(indents@, w as int) == indents@);
                        }
                        if w > 0 && !(indents.len() > 0 && indents[indents.len() - 1] == w) {
                            indents.push(w);
                            proof {
                                assert(indents@ =~= pop_wider(pre.indents, w as int).push(
                                    (w as int) as usize,
                                ));
                            }
                        }
                        proof {
                            assert(indents@ == update_indents(pre.indents, w as int));
                        }
                        if indents.len() > MAX_DEPTH {
                            failed = true;
                        } else {
                            proof {
                                assert(indents@.len() * iw <= 10000) by (nonlinear_arith)
                                    requires
                                        indents@.len() <= 100,
                                        iw <= 100,
                                ;
                            }
                            let n = indents.len() * iw;
                            push_spaces(&mut out, n);
                            push_range(&mut out, &t, 0, t.len());
                            prev = next_prev_of(Prev::Start, c, &t, inner);
                            apply_brackets(&mut brackets, c, &t);
                            proof {
                                assert(t@.subrange(0, t@.len() as int) =~= t@);
                                assert(out@ =~= (pre.out + seq_spaces(
                                    indents@.len() * (iw as int),
                                )) + t@);
                            }
                        }
                    } else {
                        if indents.len() > MAX_DEPTH || brackets.len() > MAX_DEPTH
                            || indents.len() + brackets.len() > MAX_DEPTH {
                            failed = true;
                        } else {
                            let sub: usize = if closer_first_of(c, &t) {
                                1
                            } else {
                                0
                            };
                            let d: usize = indents.len() + brackets.len() - sub;
                            proof {
                                assert(d * iw <= 10000) by (nonlinear_arith)
                                    requires
                                        d <= 100,
                                        iw <= 100,
                                ;
                            }
                            let n = d * iw;
                            push_spaces(&mut out, n);
                            push_range(&mut out, &t, 0, t.len());
                            prev = next_prev_of(Prev::Start, c, &t, inner);
                            apply_brackets(&mut brackets, c, &t);
                            proof {
                                assert(t@.subrange(0, t@.len() as int) =~= t@);
                                assert(out@ =~= (pre.out + seq_spaces(d as int * iw as int))
                                    + t@);
                            }
                        }
                    }
                }
            } else {
                if c == Cls::Ws {
                    let gw = ws_only_of(&g);
                    let tw = ws_only_of(&t);
                    if !(gw && tw) {
                        push_range(&mut out, &g, 0, g.len());
                        push_range(&mut out, &t, 0, t.len());
                        proof {
                            assert(g@.subrange(0, g@.len() as int) =~= g@);
                            assert(t@.subrange(0, t@.len() as int) =~= t@);
                            assert(out@ =~= (pre.out + g@) + t@);
                        }
                    }
                } else if c == Cls::Newline {
                    if !ws_only_of(&g) {
                        push_range(&mut out, &g, 0, g.len());
                        proof {
                            assert(g@.subrange(0, g@.len() as int) =~= g@);
                        }
                    }
                    push_range(&mut out, &t, 0, t.len());
                    pending = Vec::new();
                    prev = Prev::Start;
                    proof {
                        assert(t@.subrange(0, t@.len() as int) =~= t@);
                        if ws_only(g@) {
                            assert(out@ =~= pre.out + t@);
                        } else {
                            assert(out@ =~= (pre.out + g@) + t@);
                        }
                    }
                } else {
                    if ws_only_of(&g) {
                        let n = sep_width_of(prev, c, &t, inner);
                        push_spaces(&mut out, n as usize);
                        proof {
                            assert(out@ =~= pre.out + seq_spaces(
                                sep_width(pre.prev, c, t@, inner) as int,
                            ));
                        }
                    } else {
                        push_range(&mut out, &g, 0, g.len());
                        proof {
                            assert(g@.subrange(0, g@.len() as int) =~= g@);
                        }
                    }
                    push_range(&mut out, &t, 0, t.len());
                    prev = next_prev_of(prev, c, &t, inner);
                    apply_brackets(&mut brackets, c, &t);
                    proof {
                        assert(t@.subrange(0, t@.len() as int) =~= t@);
                    }
                }
            }
            last_end = sp.end;
        }
        i = i + 1;
        proof {
            let post = fold_emit(text@, spans@, iw as int, i as int);
            assert(EmitView {
                out: out@,
                pending: pending@,
                brackets: brackets@,
                indents: indents@,
                prev: prev,
                last_end: last_end as int,
                failed: failed,
            } =~= post);
        }
    }
    if failed {
        return None;
    }
    proof {
        assert(last_end <= text@.len());
    }
    let mut tail = pending;
    push_range(&mut tail, text, last_end, text.len());
    proof {
        let v = fold_emit(text@, spans@, iw as int, spans@.len() as int);
        assert(tail@ == v.pending + text@.subrange(v.last_end, text@.len() as int));
    }
    if !ws_only_of(&tail) {
        push_range(&mut out, &tail, 0, tail.len());
        proof {
            assert(tail@.subrange(0, tail@.len() as int) =~= tail@);
        }
    }
    proof {
        let v = fold_emit(text@, spans@, iw as int, spans@.len() as int);
        let f = finish_emit(v, text@);
        assert(out@ =~= f.out);
    }
    Some(out)
}

/// Executable closer test.
pub fn closer_first_of(c: Cls, t: &Vec<u8>) -> (r: bool)
    ensures
        r == closer_first(c, t@),
{
    c == Cls::Op && t.len() == 1 && (t[0] == 41 || t[0] == 93 || t[0] == 125)
}

/// Executable bracket-stack update.
pub fn apply_brackets(bs: &mut Vec<u8>, c: Cls, t: &Vec<u8>)
    ensures
        final(bs)@ == next_brackets(old(bs)@, c, t@),
{
    if c == Cls::Op && t.len() == 1 && (t[0] == 40 || t[0] == 91 || t[0] == 123) {
        let b = t[0];
        bs.push(b);
    } else if c == Cls::Op && t.len() == 1 && (t[0] == 41 || t[0] == 93 || t[0] == 125) {
        if bs.len() > 0 {
            bs.pop();
            proof {
                assert(bs@ =~= old(bs)@.drop_last());
            }
        }
    }
}

} // verus!
