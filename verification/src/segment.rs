//! Sentinel classification and segment splitting.
//!
//! A physical line is a sentinel when its first bytes after leading blanks
//! are `#@`, the structural-marker prefix of the host outline format. Every
//! other line is code. Classification is purely syntactic on the line's
//! leading bytes; when a comment line happens to match the prefix it is
//! conservatively treated as a sentinel, which only means it is left
//! untouched.
//!
//! Segments partition the document's lines: each sentinel line stands alone
//! as a verbatim segment, and each maximal run of contiguous code lines forms
//! one reformat segment.

use vstd::prelude::*;

use crate::lines::{deep_view, push_range, SP, TAB};

verus! {

/// Byte value of `#`.
pub const HASH: u8 = 35;

/// Byte value of `@`.
pub const AT: u8 = 64;

/// Whether a line is a sentinel: leading spaces and tabs, then `#@`.
pub open spec fn is_sentinel(l: Seq<u8>) -> bool
    decreases l.len(),
{
    if l.len() >= 1 && (l[0] == SP || l[0] == TAB) {
        is_sentinel(l.drop_first())
    } else {
        l.len() >= 2 && l[0] == HASH && l[1] == AT
    }
}

/// One segment of the document: a single sentinel line (`code == false`), or
/// a maximal run of contiguous code lines (`code == true`).
pub struct Segment {
    pub code: bool,
    pub lines: Vec<Vec<u8>>,
}

/// The mathematical value of a segment.
pub struct SegView {
    pub code: bool,
    pub lines: Seq<Seq<u8>>,
}

/// The mathematical values of a vector of segments.
pub open spec fn segs_view(v: Vec<Segment>) -> Seq<SegView> {
    v@.map_values(|s: Segment| SegView { code: s.code, lines: deep_view(s.lines) })
}

/// Index of the first sentinel line, or `ls.len()` if there is none.
pub open spec fn first_sent(ls: Seq<Seq<u8>>) -> int
    decreases ls.len(),
{
    if ls.len() == 0 {
        0
    } else if is_sentinel(ls[0]) {
        0
    } else {
        1 + first_sent(ls.drop_first())
    }
}

/// The segments of a line sequence, in document order.
pub open spec fn seg_seq(ls: Seq<Seq<u8>>) -> Seq<SegView>
    decreases ls.len(),
{
    if ls.len() == 0 {
        Seq::empty()
    } else if is_sentinel(ls[0]) {
        seq![SegView { code: false, lines: seq![ls[0]] }] + seg_seq(ls.drop_first())
    } else {
        let k = first_sent(ls);
        if 1 <= k && k <= ls.len() {
            seq![SegView { code: true, lines: ls.take(k) }] + seg_seq(ls.skip(k))
        } else {
            seq![SegView { code: true, lines: ls }]
        }
    }
}

/// The lines of a segment sequence, concatenated in order.
pub open spec fn segs_lines(segs: Seq<SegView>) -> Seq<Seq<u8>>
    decreases segs.len(),
{
    if segs.len() == 0 {
        Seq::empty()
    } else {
        segs[0].lines + segs_lines(segs.drop_first())
    }
}

/// The number of lines a segment sequence spans in all.
pub open spec fn total_lines(segs: Seq<SegView>) -> nat
    decreases segs.len(),
{
    if segs.len() == 0 {
        0
    } else {
        segs[0].lines.len() + total_lines(segs.drop_first())
    }
}

pub proof fn lemma_total_lines_push(segs: Seq<SegView>, s: SegView)
    ensures
        total_lines(segs.push(s)) == total_lines(segs) + s.lines.len(),
    decreases segs.len(),
{
    if segs.len() == 0 {
        assert(segs.push(s)[0] == s);
        assert(segs.push(s).drop_first() =~= Seq::<SegView>::empty());
        assert(total_lines(Seq::<SegView>::empty()) == 0);
    } else {
        assert(segs.push(s)[0] == segs[0]);
        assert(segs.push(s).drop_first() =~= segs.drop_first().push(s));
        lemma_total_lines_push(segs.drop_first(), s);
    }
}

pub proof fn lemma_total_lines_add(a: Seq<SegView>, b: Seq<SegView>)
    ensures
        total_lines(a + b) == total_lines(a) + total_lines(b),
    decreases a.len(),
{
    if a.len() == 0 {
        assert(a + b =~= b);
    } else {
        assert((a + b).drop_first() =~= a.drop_first() + b);
        lemma_total_lines_add(a.drop_first(), b);
    }
}

/// A segment sequence spans exactly as many lines as it reproduces.
pub proof fn lemma_total_lines_eq(segs: Seq<SegView>)
    ensures
        total_lines(segs) == segs_lines(segs).len(),
    decreases segs.len(),
{
    if segs.len() == 0 {
    } else {
        lemma_total_lines_eq(segs.drop_first());
    }
}

pub proof fn lemma_first_sent_bounds(ls: Seq<Seq<u8>>)
    ensures
        0 <= first_sent(ls) <= ls.len(),
        forall|i: int| 0 <= i < first_sent(ls) ==> !is_sentinel(ls[i]),
        first_sent(ls) < ls.len() ==> is_sentinel(ls[first_sent(ls)]),
    decreases ls.len(),
{
    if ls.len() == 0 {
    } else if is_sentinel(ls[0]) {
    } else {
        lemma_first_sent_bounds(ls.drop_first());
        assert forall|i: int| 0 <= i < first_sent(ls) implies !is_sentinel(ls[i]) by {
            if i >= 1 {
                assert(!is_sentinel(ls.drop_first()[i - 1]));
            }
        }
        if first_sent(ls) < ls.len() {
            assert(is_sentinel(ls.drop_first()[first_sent(ls) - 1]));
        }
    }
}

/// `first_sent` is determined by any witness index.
pub proof fn lemma_first_sent_is(ls: Seq<Seq<u8>>, k: int)
    requires
        0 <= k <= ls.len(),
        forall|i: int| 0 <= i < k ==> !is_sentinel(ls[i]),
        k < ls.len() ==> is_sentinel(ls[k]),
    ensures
        k < ls.len() ==> first_sent(ls) == k,
        k == ls.len() ==> first_sent(ls) == ls.len(),
    decreases ls.len(),
{
    if ls.len() == 0 {
    } else if is_sentinel(ls[0]) {
        assert(k == 0);
    } else {
        assert(k >= 1);
        lemma_first_sent_is(ls.drop_first(), k - 1);
    }
}

/// The segments of a line sequence reproduce exactly those lines.
pub proof fn lemma_seg_seq_partitions(ls: Seq<Seq<u8>>)
    ensures
        segs_lines(seg_seq(ls)) == ls,
    decreases ls.len(),
{
    if ls.len() == 0 {
        assert(segs_lines(seg_seq(ls)) =~= ls);
    } else if is_sentinel(ls[0]) {
        lemma_seg_seq_partitions(ls.drop_first());
        let segs = seg_seq(ls);
        assert(segs.drop_first() =~= seg_seq(ls.drop_first()));
        assert(segs_lines(segs) =~= seq![ls[0]] + ls.drop_first());
        assert(seq![ls[0]] + ls.drop_first() =~= ls);
    } else {
        let k = first_sent(ls);
        lemma_first_sent_bounds(ls);
        if 1 <= k && k <= ls.len() {
            lemma_seg_seq_partitions(ls.skip(k));
            let segs = seg_seq(ls);
            assert(segs.drop_first() =~= seg_seq(ls.skip(k)));
            assert(segs_lines(segs) =~= ls.take(k) + ls.skip(k));
            assert(ls.take(k) + ls.skip(k) =~= ls);
        }
    }
}

/// Every verbatim segment is one sentinel line; every code segment is a
/// nonempty run of non-sentinel lines.
pub proof fn lemma_seg_seq_shape(ls: Seq<Seq<u8>>)
    ensures
        forall|k: int|
            0 <= k < seg_seq(ls).len() ==> {
                let sv = #[trigger] seg_seq(ls)[k];
                &&& (!sv.code ==> sv.lines.len() == 1 && is_sentinel(sv.lines[0]))
                &&& (sv.code ==> sv.lines.len() >= 1 && (forall|j: int|
                    0 <= j < sv.lines.len() ==> !is_sentinel(#[trigger] sv.lines[j])))
            },
    decreases ls.len(),
{
    if ls.len() == 0 {
    } else if is_sentinel(ls[0]) {
        lemma_seg_seq_shape(ls.drop_first());
        assert forall|k: int| 0 <= k < seg_seq(ls).len() implies {
            let sv = #[trigger] seg_seq(ls)[k];
            &&& (!sv.code ==> sv.lines.len() == 1 && is_sentinel(sv.lines[0]))
            &&& (sv.code ==> sv.lines.len() >= 1 && (forall|j: int|
                0 <= j < sv.lines.len() ==> !is_sentinel(#[trigger] sv.lines[j])))
        } by {
            if k >= 1 {
                assert(seg_seq(ls)[k] == seg_seq(ls.drop_first())[k - 1]);
            }
        }
    } else {
        let k0 = first_sent(ls);
        lemma_first_sent_bounds(ls);
        if 1 <= k0 && k0 <= ls.len() {
            lemma_seg_seq_shape(ls.skip(k0));
            assert forall|k: int| 0 <= k < seg_seq(ls).len() implies {
                let sv = #[trigger] seg_seq(ls)[k];
                &&& (!sv.code ==> sv.lines.len() == 1 && is_sentinel(sv.lines[0]))
                &&& (sv.code ==> sv.lines.len() >= 1 && (forall|j: int|
                    0 <= j < sv.lines.len() ==> !is_sentinel(#[trigger] sv.lines[j])))
            } by {
                if k == 0 {
                    let sv = seg_seq(ls)[0];
                    assert(sv.lines =~= ls.take(k0));
                    assert forall|j: int| 0 <= j < sv.lines.len()
                        implies !is_sentinel(#[trigger] sv.lines[j]) by {
                        assert(sv.lines[j] == ls[j]);
                    }
                } else {
                    assert(seg_seq(ls)[k] == seg_seq(ls.skip(k0))[k - 1]);
                }
            }
        }
    }
}

/// Classify one line: `true` when it is a sentinel line.
pub fn classify_line(l: &Vec<u8>) -> (r: bool)
    ensures
        r == is_sentinel(l@),
{
    let mut i: usize = 0;
    proof {
        assert(l@.skip(0) =~= l@);
    }
    while i < l.len() && (l[i] == SP || l[i] == TAB)
        invariant
            i <= l.len(),
            is_sentinel(l@) == is_sentinel(l@.skip(i as int)),
        decreases l.len() - i,
    {
        proof {
            assert(l@.skip(i as int).drop_first() =~= l@.skip(i + 1));
        }
        i = i + 1;
    }
    let ghost rest = l@.skip(i as int);
    if i < l.len() && i + 1 < l.len() {
        let r = l[i] == HASH && l[i + 1] == AT;
        proof {
            assert(rest.len() >= 2);
            assert(rest[0] == l@[i as int] && rest[1] == l@[i + 1]);
        }
        r
    } else {
        proof {
            assert(rest.len() < 2);
        }
        false
    }
}

/// Copy a line.
pub fn copy_line(l: &Vec<u8>) -> (r: Vec<u8>)
    ensures
        r@ == l@,
{
    let mut r: Vec<u8> = Vec::new();
    push_range(&mut r, l, 0, l.len());
    proof {
        assert(l@.subrange(0, l@.len() as int) =~= l@);
    }
    r
}

/// Split the document's lines into verbatim and reformat segments.
pub fn split_segments(lines: &Vec<Vec<u8>>) -> (r: Vec<Segment>)
    ensures
        segs_view(r) == seg_seq(deep_view(*lines)),
{
    let ghost all = deep_view(*lines);
    let mut r: Vec<Segment> = Vec::new();
    let mut pos: usize = 0;
    proof {
        assert(segs_view(r) =~= Seq::<SegView>::empty());
        assert(all.skip(0) =~= all);
        assert(segs_view(r) + seg_seq(all) =~= seg_seq(all));
    }
    while pos < lines.len()
        invariant
            pos <= lines.len(),
            all == deep_view(*lines),
            seg_seq(all) == segs_view(r) + seg_seq(all.skip(pos as int)),
        decreases lines.len() - pos,
    {
        let ghost rest = all.skip(pos as int);
        let ghost pre = segs_view(r);
        if classify_line(&lines[pos]) {
            let seg_lines: Vec<Vec<u8>> = vec![copy_line(&lines[pos])];
            let seg = Segment { code: false, lines: seg_lines };
            proof {
                assert(rest[0] == all[pos as int]);
                assert(deep_view(seg.lines) =~= seq![all[pos as int]]);
                assert(rest.drop_first() =~= all.skip(pos + 1));
                assert(seg_seq(rest) == seq![
                    SegView { code: false, lines: seq![rest[0]] },
                ] + seg_seq(all.skip(pos + 1)));
                assert(pre + (seq![SegView { code: false, lines: seq![rest[0]] }] + seg_seq(
                    all.skip(pos + 1),
                )) =~= pre.push(SegView { code: false, lines: seq![rest[0]] }) + seg_seq(
                    all.skip(pos + 1),
                ));
            }
            r.push(seg);
            proof {
                assert(segs_view(r) =~= pre.push(
                    SegView { code: false, lines: seq![rest[0]] },
                ));
            }
            pos = pos + 1;
        } else {
            let mut j: usize = pos + 1;
            proof {
                assert(!is_sentinel(rest[0]));
            }
            while j < lines.len() && !classify_line(&lines[j])
                invariant
                    pos < j <= lines.len(),
                    all == deep_view(*lines),
                    forall|i: int| pos <= i < j ==> !is_sentinel(#[trigger] all[i]),
                decreases lines.len() - j,
            {
                j = j + 1;
            }
            proof {
                assert(forall|i: int| 0 <= i < j - pos ==> !is_sentinel(#[trigger] rest[i]));
                if j < lines.len() {
                    assert(is_sentinel(rest[j - pos]));
                }
                lemma_first_sent_is(rest, j - pos);
            }
            let mut seg_lines: Vec<Vec<u8>> = Vec::new();
            let mut i: usize = pos;
            while i < j
                invariant
                    pos <= i <= j <= lines.len(),
                    all == deep_view(*lines),
                    deep_view(seg_lines) == all.subrange(pos as int, i as int),
                decreases j - i,
            {
                let ghost dpre = deep_view(seg_lines);
                let cl = copy_line(&lines[i]);
                seg_lines.push(cl);
                proof {
                    assert(deep_view(seg_lines) =~= dpre.push(all[i as int]));
                    assert(dpre.push(all[i as int]) =~= all.subrange(pos as int, i + 1));
                }
                i = i + 1;
            }
            let seg = Segment { code: true, lines: seg_lines };
            proof {
                let k = first_sent(rest);
                assert(k == j - pos);
                assert(rest.take(k) =~= all.subrange(pos as int, j as int));
                assert(rest.skip(k) =~= all.skip(j as int));
                assert(1 <= k <= rest.len());
                assert(seg_seq(rest) == seq![SegView { code: true, lines: rest.take(k) }]
                    + seg_seq(all.skip(j as int)));
                assert(deep_view(seg.lines) == rest.take(k));
                assert(pre + (seq![SegView { code: true, lines: rest.take(k) }] + seg_seq(
                    all.skip(j as int),
                )) =~= pre.push(SegView { code: true, lines: rest.take(k) }) + seg_seq(
                    all.skip(j as int),
                ));
            }
            let ghost seg_lines_v = deep_view(seg.lines);
            r.push(seg);
            proof {
                assert(segs_view(r) =~= pre.push(SegView { code: true, lines: seg_lines_v }));
            }
            pos = j;
        }
    }
    proof {
        assert(all.skip(pos as int) =~= Seq::<Seq<u8>>::empty());
        assert(segs_view(r) + seg_seq(all.skip(pos as int)) =~= segs_view(r));
    }
    r
}

} // verus!
