//! Physical lines of a document.
//!
//! A document is a sequence of bytes; its physical lines each keep their own
//! terminating line feed, so that concatenating the lines gives back the
//! document exactly. The last line may lack a terminator. Lines are never
//! empty.

use vstd::prelude::*;

verus! {

/// Byte value of a line feed.
pub const NL: u8 = 10;

/// Byte value of a space.
pub const SP: u8 = 32;

/// Byte value of a horizontal tab.
pub const TAB: u8 = 9;

/// Number of line-feed bytes in a byte sequence.
pub open spec fn count_nl(s: Seq<u8>) -> nat
    decreases s.len(),
{
    if s.len() == 0 {
        0
    } else {
        (if s[0] == NL { 1nat } else { 0nat }) + count_nl(s.drop_first())
    }
}

/// Index of the first line feed in `s`, or `s.len()` if there is none.
pub open spec fn first_nl(s: Seq<u8>) -> int
    decreases s.len(),
{
    if s.len() == 0 {
        0
    } else if s[0] == NL {
        0
    } else {
        1 + first_nl(s.drop_first())
    }
}

/// The physical lines of `s`: each line keeps its terminating line feed, the
/// last line may lack one, and no line is empty.
pub open spec fn line_seq(s: Seq<u8>) -> Seq<Seq<u8>>
    decreases s.len(),
{
    if s.len() == 0 {
        Seq::empty()
    } else {
        let k = first_nl(s);
        if 0 <= k && k < s.len() {
            seq![s.take(k + 1)] + line_seq(s.skip(k + 1))
        } else {
            seq![s]
        }
    }
}

/// Concatenation of a sequence of byte sequences.
pub open spec fn concat_lines(ls: Seq<Seq<u8>>) -> Seq<u8>
    decreases ls.len(),
{
    if ls.len() == 0 {
        Seq::empty()
    } else {
        ls[0] + concat_lines(ls.drop_first())
    }
}

/// A line's skeleton: its bytes with spaces and tabs removed. Line feeds and
/// every other byte stay, in order.
pub open spec fn line_skel(l: Seq<u8>) -> Seq<u8>
    decreases l.len(),
{
    if l.len() == 0 {
        Seq::empty()
    } else if l[0] == SP || l[0] == TAB {
        line_skel(l.drop_first())
    } else {
        seq![l[0]] + line_skel(l.drop_first())
    }
}

/// The skeletons of a sequence of lines.
pub open spec fn skels(ls: Seq<Seq<u8>>) -> Seq<Seq<u8>> {
    ls.map_values(|l: Seq<u8>| line_skel(l))
}

/// The views of a vector of byte vectors.
pub open spec fn deep_view(v: Vec<Vec<u8>>) -> Seq<Seq<u8>> {
    v@.map_values(|l: Vec<u8>| l@)
}

pub proof fn lemma_first_nl_bounds(s: Seq<u8>)
    ensures
        0 <= first_nl(s) <= s.len(),
        forall|i: int| 0 <= i < first_nl(s) ==> s[i] != NL,
        first_nl(s) < s.len() ==> s[first_nl(s)] == NL,
    decreases s.len(),
{
    if s.len() == 0 {
    } else if s[0] == NL {
    } else {
        lemma_first_nl_bounds(s.drop_first());
        assert forall|i: int| 0 <= i < first_nl(s) implies s[i] != NL by {
            if i >= 1 {
                assert(s.drop_first()[i - 1] != NL);
            }
        }
        if first_nl(s) < s.len() {
            assert(s.drop_first()[first_nl(s) - 1] == NL);
        }
    }
}

/// `first_nl` is determined by any witness index.
pub proof fn lemma_first_nl_is(s: Seq<u8>, k: int)
    requires
        0 <= k <= s.len(),
        forall|i: int| 0 <= i < k ==> s[i] != NL,
        k < s.len() ==> s[k] == NL,
    ensures
        k < s.len() ==> first_nl(s) == k,
        k == s.len() ==> first_nl(s) == s.len(),
    decreases s.len(),
{
    if s.len() == 0 {
    } else if s[0] == NL {
        assert(k == 0);
    } else {
        assert(k >= 1);
        lemma_first_nl_is(s.drop_first(), k - 1);
    }
}

/// Concatenating the physical lines of `s` gives back `s`.
pub proof fn lemma_line_seq_joins(s: Seq<u8>)
    ensures
        concat_lines(line_seq(s)) == s,
    decreases s.len(),
{
    if s.len() == 0 {
        assert(concat_lines(line_seq(s)) =~= s);
    } else {
        let k = first_nl(s);
        lemma_first_nl_bounds(s);
        if k < s.len() {
            let rest = s.skip(k + 1);
            lemma_line_seq_joins(rest);
            let ls = seq![s.take(k + 1)] + line_seq(rest);
            assert(ls.drop_first() =~= line_seq(rest));
            assert(concat_lines(ls) =~= s.take(k + 1) + rest);
            assert(s.take(k + 1) + rest =~= s);
        } else {
            let ls = seq![s];
            assert(ls.drop_first() =~= Seq::<Seq<u8>>::empty());
            assert(concat_lines(Seq::<Seq<u8>>::empty()) =~= Seq::<u8>::empty());
            assert(s + Seq::<u8>::empty() =~= s);
            assert(concat_lines(ls) =~= s);
        }
    }
}

/// Line-feed counting distributes over concatenation.
pub proof fn lemma_count_nl_add(a: Seq<u8>, b: Seq<u8>)
    ensures
        count_nl(a + b) == count_nl(a) + count_nl(b),
    decreases a.len(),
{
    if a.len() == 0 {
        assert(a + b =~= b);
    } else {
        assert((a + b).drop_first() =~= a.drop_first() + b);
        lemma_count_nl_add(a.drop_first(), b);
    }
}

/// Removing spaces and tabs does not change the line-feed count.
pub proof fn lemma_count_nl_skel(l: Seq<u8>)
    ensures
        count_nl(line_skel(l)) == count_nl(l),
    decreases l.len(),
{
    if l.len() == 0 {
    } else {
        lemma_count_nl_skel(l.drop_first());
        if l[0] == SP || l[0] == TAB {
        } else {
            let one = seq![l[0]];
            lemma_count_nl_add(one, line_skel(l.drop_first()));
            assert(one.drop_first() =~= Seq::<u8>::empty());
            assert(count_nl(Seq::<u8>::empty()) == 0);
            assert(count_nl(one) == if l[0] == NL { 1nat } else { 0nat });
        }
    }
}

/// A well-shaped physical line: nonempty, with a line feed at most as its
/// last byte.
pub open spec fn line_ok(l: Seq<u8>) -> bool {
    l.len() >= 1 && forall|j: int| 0 <= j < l.len() - 1 ==> l[j] != NL
}

/// A line that ends with a line feed.
pub open spec fn terminated(l: Seq<u8>) -> bool {
    l.len() >= 1 && l[l.len() - 1] == NL
}

/// A well-shaped line list: every line is well shaped and every line but the
/// last is terminated.
pub open spec fn wf_lines(xs: Seq<Seq<u8>>) -> bool {
    &&& forall|i: int| 0 <= i < xs.len() ==> line_ok(#[trigger] xs[i])
    &&& forall|i: int| 0 <= i < xs.len() - 1 ==> terminated(#[trigger] xs[i])
}

/// The physical lines of any document are well shaped.
pub proof fn lemma_line_seq_wf(s: Seq<u8>)
    ensures
        wf_lines(line_seq(s)),
    decreases s.len(),
{
    if s.len() == 0 {
    } else {
        let k = first_nl(s);
        lemma_first_nl_bounds(s);
        if k < s.len() {
            lemma_line_seq_wf(s.skip(k + 1));
            let head = s.take(k + 1);
            let rest = line_seq(s.skip(k + 1));
            assert(line_ok(head) && terminated(head));
            assert forall|i: int| 0 <= i < line_seq(s).len() implies line_ok(
                #[trigger] line_seq(s)[i],
            ) by {
                if i >= 1 {
                    assert(line_seq(s)[i] == rest[i - 1]);
                }
            }
            assert forall|i: int| 0 <= i < line_seq(s).len() - 1 implies terminated(
                #[trigger] line_seq(s)[i],
            ) by {
                if i >= 1 {
                    assert(line_seq(s)[i] == rest[i - 1]);
                }
            }
        } else {
            assert forall|i: int| 0 <= i < line_seq(s).len() implies line_ok(
                #[trigger] line_seq(s)[i],
            ) by {
                assert(line_seq(s)[i] == s);
            }
        }
    }
}

/// Splitting the concatenation of a well-shaped line list gives back exactly
/// that list.
pub proof fn lemma_line_seq_of_wf(xs: Seq<Seq<u8>>)
    requires
        wf_lines(xs),
    ensures
        line_seq(concat_lines(xs)) == xs,
    decreases xs.len(),
{
    if xs.len() == 0 {
        assert(line_seq(concat_lines(xs)) =~= xs);
    } else {
        let s = concat_lines(xs);
        let head = xs[0];
        let rest = concat_lines(xs.drop_first());
        assert(s == head + rest);
        if xs.len() == 1 {
            assert(xs.drop_first() =~= Seq::<Seq<u8>>::empty());
            assert(s =~= head);
            if terminated(head) {
                lemma_first_nl_is(s, s.len() - 1);
                assert(line_seq(s) == seq![s.take(s.len() as int)] + line_seq(
                    s.skip(s.len() as int),
                ));
                assert(s.take(s.len() as int) =~= s);
                assert(s.skip(s.len() as int) =~= Seq::<u8>::empty());
                assert(line_seq(s) =~= xs);
            } else {
                assert forall|j: int| 0 <= j < s.len() implies s[j] != NL by {
                    if j == s.len() - 1 {
                        assert(!terminated(head));
                    }
                }
                lemma_first_nl_is(s, s.len() as int);
                assert(line_seq(s) =~= seq![s]);
                assert(seq![s] =~= xs);
            }
        } else {
            assert(terminated(head));
            let k = head.len() - 1;
            assert forall|j: int| 0 <= j < k implies s[j] != NL by {
                assert(s[j] == head[j]);
            }
            assert(s[k] == head[k as int]);
            assert(s.len() > k);
            lemma_first_nl_is(s, k);
            assert(line_seq(s) == seq![s.take(k + 1)] + line_seq(s.skip(k + 1)));
            assert(s.take(k + 1) =~= head);
            assert(s.skip(k + 1) =~= rest);
            assert forall|i: int| 0 <= i < xs.drop_first().len() implies line_ok(
                #[trigger] xs.drop_first()[i],
            ) by {
                assert(xs.drop_first()[i] == xs[i + 1]);
            }
            assert forall|i: int| 0 <= i < xs.drop_first().len() - 1 implies terminated(
                #[trigger] xs.drop_first()[i],
            ) by {
                assert(xs.drop_first()[i] == xs[i + 1]);
            }
            lemma_line_seq_of_wf(xs.drop_first());
            assert(line_seq(s) =~= seq![head] + xs.drop_first());
            assert(seq![head] + xs.drop_first() =~= xs);
        }
    }
}

/// A well-shaped line holds a line feed exactly when it is terminated.
pub proof fn lemma_line_ok_nl(l: Seq<u8>)
    requires
        line_ok(l),
    ensures
        (count_nl(l) > 0) == terminated(l),
    decreases l.len(),
{
    if l.len() == 1 {
    } else {
        assert(l.drop_first().len() >= 1);
        assert forall|j: int| 0 <= j < l.drop_first().len() - 1 implies l.drop_first()[j]
            != NL by {
            assert(l.drop_first()[j] == l[j + 1]);
        }
        lemma_line_ok_nl(l.drop_first());
        assert(l.drop_first()[l.len() - 2] == l[l.len() - 1]);
    }
}

/// Split a document into its physical lines.
pub fn split_lines(text: &Vec<u8>) -> (r: Vec<Vec<u8>>)
    ensures
        deep_view(r) == line_seq(text@),
{
    let mut r: Vec<Vec<u8>> = Vec::new();
    let mut pos: usize = 0;
    proof {
        assert(deep_view(r) =~= Seq::<Seq<u8>>::empty());
        assert(text@.skip(0) =~= text@);
        assert(deep_view(r) + line_seq(text@) =~= line_seq(text@));
    }
    while pos < text.len()
        invariant
            pos <= text.len(),
            line_seq(text@) == deep_view(r) + line_seq(text@.skip(pos as int)),
        decreases text.len() - pos,
    {
        let ghost rest = text@.skip(pos as int);
        let mut j: usize = pos;
        while j < text.len() && text[j] != NL
            invariant
                pos <= j <= text.len(),
                forall|i: int| pos <= i < j ==> text@[i] != NL,
            decreases text.len() - j,
        {
            j = j + 1;
        }
        proof {
            assert(forall|i: int| 0 <= i < j - pos ==> rest[i] != NL);
            if j < text.len() {
                assert(rest[j - pos] == NL);
            }
            lemma_first_nl_is(rest, j - pos);
        }
        let stop: usize = if j < text.len() { j + 1 } else { j };
        let mut line: Vec<u8> = Vec::new();
        let mut i: usize = pos;
        while i < stop
            invariant
                pos <= i <= stop <= text.len(),
                line@ == text@.subrange(pos as int, i as int),
            decreases stop - i,
        {
            let b = text[i];
            line.push(b);
            i = i + 1;
            proof {
                assert(line@ =~= text@.subrange(pos as int, i as int));
            }
        }
        proof {
            let k = first_nl(rest);
            if j < text.len() {
                assert(k == j - pos);
                assert(rest.take(k + 1) =~= text@.subrange(pos as int, stop as int));
                assert(rest.skip(k + 1) =~= text@.skip(stop as int));
                assert(line_seq(rest) == seq![line@] + line_seq(text@.skip(stop as int)));
            } else {
                assert(k == rest.len());
                assert(rest =~= text@.subrange(pos as int, stop as int));
                assert(line_seq(rest) =~= seq![line@]);
                assert(text@.skip(stop as int) =~= Seq::<u8>::empty());
            }
            assert(deep_view(r).push(line@) =~= r@.push(line).map_values(|l: Vec<u8>| l@));
            assert(deep_view(r).push(line@) + line_seq(text@.skip(stop as int))
                =~= deep_view(r) + (seq![line@] + line_seq(text@.skip(stop as int))));
        }
        r.push(line);
        pos = stop;
    }
    proof {
        assert(text@.skip(pos as int) =~= Seq::<u8>::empty());
        assert(deep_view(r) + line_seq(text@.skip(pos as int)) =~= deep_view(r));
    }
    r
}

/// Append `src[from .. to]` to `out`.
pub fn push_range(out: &mut Vec<u8>, src: &Vec<u8>, from: usize, to: usize)
    requires
        from <= to <= src@.len(),
    ensures
        final(out)@ == old(out)@ + src@.subrange(from as int, to as int),
{
    let mut i: usize = from;
    while i < to
        invariant
            from <= i <= to <= src@.len(),
            out@ == old(out)@ + src@.subrange(from as int, i as int),
        decreases to - i,
    {
        let b = src[i];
        out.push(b);
        i = i + 1;
        proof {
            assert(out@ =~= old(out)@ + src@.subrange(from as int, i as int));
        }
    }
}

/// Concatenate lines back into one document.
pub fn join_lines(ls: &Vec<Vec<u8>>) -> (r: Vec<u8>)
    ensures
        r@ == concat_lines(deep_view(*ls)),
{
    let mut r: Vec<u8> = Vec::new();
    let mut i: usize = 0;
    proof {
        assert(deep_view(*ls).skip(0) =~= deep_view(*ls));
        assert(r@ + concat_lines(deep_view(*ls)) =~= concat_lines(deep_view(*ls)));
    }
    while i < ls.len()
        invariant
            i <= ls.len(),
            concat_lines(deep_view(*ls)) == r@ + concat_lines(deep_view(*ls).skip(i as int)),
        decreases ls.len() - i,
    {
        let ghost pre = r@;
        let ghost rest = deep_view(*ls).skip(i as int);
        let line = &ls[i];
        push_range(&mut r, line, 0, line.len());
        proof {
            assert(rest[0] == line@);
            assert(line@.subrange(0, line@.len() as int) =~= line@);
            assert(rest.drop_first() =~= deep_view(*ls).skip(i + 1));
            assert(concat_lines(rest) == line@ + concat_lines(deep_view(*ls).skip(i + 1)));
            assert(pre + (line@ + concat_lines(deep_view(*ls).skip(i + 1)))
                =~= (pre + line@) + concat_lines(deep_view(*ls).skip(i + 1)));
        }
        i = i + 1;
    }
    proof {
        assert(deep_view(*ls).skip(i as int) =~= Seq::<Seq<u8>>::empty());
        assert(r@ + concat_lines(deep_view(*ls).skip(i as int)) =~= r@);
    }
    r
}

/// A line's skeleton, executably.
pub fn skel_of(l: &Vec<u8>) -> (r: Vec<u8>)
    ensures
        r@ == line_skel(l@),
{
    let mut r: Vec<u8> = Vec::new();
    let mut i: usize = 0;
    proof {
        assert(l@.skip(0) =~= l@);
        assert(r@ + line_skel(l@) =~= line_skel(l@));
    }
    while i < l.len()
        invariant
            i <= l.len(),
            line_skel(l@) == r@ + line_skel(l@.skip(i as int)),
        decreases l.len() - i,
    {
        let ghost rest = l@.skip(i as int);
        let ghost pre = r@;
        let b = l[i];
        proof {
            assert(rest.drop_first() =~= l@.skip(i + 1));
        }
        if b != SP && b != TAB {
            r.push(b);
            proof {
                assert(line_skel(rest) == seq![b] + line_skel(l@.skip(i + 1)));
                assert(pre + (seq![b] + line_skel(l@.skip(i + 1)))
                    =~= (pre + seq![b]) + line_skel(l@.skip(i + 1)));
                assert(r@ =~= pre + seq![b]);
            }
        }
        i = i + 1;
    }
    proof {
        assert(l@.skip(i as int) =~= Seq::<u8>::empty());
        assert(r@ + line_skel(l@.skip(i as int)) =~= r@);
    }
    r
}

/// Byte-for-byte equality of two byte vectors.
pub fn bytes_eq(a: &Vec<u8>, b: &Vec<u8>) -> (r: bool)
    ensures
        r == (a@ == b@),
{
    if a.len() != b.len() {
        proof {
            assert(a@.len() != b@.len());
        }
        return false;
    }
    let mut i: usize = 0;
    while i < a.len()
        invariant
            i <= a.len(),
            a@.len() == b@.len(),
            forall|k: int| 0 <= k < i ==> a@[k] == b@[k],
        decreases a.len() - i,
    {
        if a[i] != b[i] {
            return false;
        }
        i = i + 1;
    }
    proof {
        assert(a@ =~= b@);
    }
    true
}

} // verus!
