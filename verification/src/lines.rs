//! Splitting byte content into lines.
//!
//! A buffer is split strictly on line-feed boundaries, with the terminator
//! kept attached to the preceding line, so that concatenating the lines
//! reproduces the original bytes exactly — including a possibly missing
//! terminator on the final line.  No normalization of line endings or
//! whitespace is performed: merging is byte-exact.

use vstd::prelude::*;
use vstd::seq_lib::lemma_flatten_concat;

verus! {

/// The bytes that a sequence of owned lines spells out, line by line.
pub open spec fn view_lines(v: Seq<Vec<u8>>) -> Seq<Seq<u8>> {
    Seq::new(v.len(), |i: int| v[i]@)
}

/// Appending one line to a line list appends its bytes to the view.
pub proof fn lemma_view_lines_push(v: Seq<Vec<u8>>, x: Vec<u8>)
    ensures
        view_lines(v.push(x)) == view_lines(v).push(x@),
{
    assert(view_lines(v.push(x)) =~= view_lines(v).push(x@));
}

/// A line carrying its terminator: nonempty, ends with a line feed and has
/// no line feed anywhere else.
pub open spec fn line_terminated(l: Seq<u8>) -> bool {
    &&& l.len() > 0
    &&& l[l.len() - 1] == 10u8
    &&& forall|i: int| 0 <= i < l.len() - 1 ==> l[i] != 10u8
}

/// A final line with no terminator: nonempty and free of line feeds.
pub open spec fn line_unterminated(l: Seq<u8>) -> bool {
    &&& l.len() > 0
    &&& forall|i: int| 0 <= i < l.len() ==> l[i] != 10u8
}

/// Every line ends with a line feed, except that the last line may lack one.
pub open spec fn lines_wf(ls: Seq<Seq<u8>>) -> bool {
    forall|i: int| 0 <= i < ls.len() ==> (line_terminated(#[trigger] ls[i]) || (i == ls.len() - 1
        && line_unterminated(ls[i])))
}

/// Length of the first line of `s`: up to and including the first line
/// feed, or all of `s` when it holds none.
pub open spec fn first_line_len(s: Seq<u8>) -> int
    decreases s.len(),
{
    if s.len() == 0 {
        0
    } else if s[0] == 10u8 {
        1
    } else {
        1 + first_line_len(s.skip(1))
    }
}

pub proof fn lemma_first_line_len_bounds(s: Seq<u8>)
    ensures
        s.len() > 0 ==> 1 <= first_line_len(s) <= s.len(),
        s.len() == 0 ==> first_line_len(s) == 0,
    decreases s.len(),
{
    if s.len() > 0 && s[0] != 10u8 {
        lemma_first_line_len_bounds(s.skip(1));
    }
}

/// The lines of a byte buffer, in order.
pub open spec fn line_seq(s: Seq<u8>) -> Seq<Seq<u8>>
    decreases s.len(),
    via line_seq_dec
{
    if s.len() == 0 {
        Seq::empty()
    } else {
        seq![s.take(first_line_len(s))].add(line_seq(s.skip(first_line_len(s))))
    }
}

#[via_fn]
proof fn line_seq_dec(s: Seq<u8>) {
    lemma_first_line_len_bounds(s);
}

/// Where the first line ends: scanning from the front, the first line runs
/// through the first line feed, or to the end when there is none.
pub proof fn lemma_first_line_len_scan(t: Seq<u8>, j: int)
    requires
        0 <= j <= t.len(),
        forall|i: int| 0 <= i < j ==> t[i] != 10u8,
        j < t.len() ==> t[j] == 10u8,
    ensures
        j < t.len() ==> first_line_len(t) == j + 1,
        j == t.len() ==> first_line_len(t) == j,
    decreases j,
{
    if j == 0 {
    } else {
        assert(t[0] != 10u8);
        lemma_first_line_len_scan(t.skip(1), j - 1);
    }
}

/// The first line is well formed: no interior line feed, and it either ends
/// with one or runs to the end of the buffer.
pub proof fn lemma_first_line_shape(s: Seq<u8>)
    requires
        s.len() > 0,
    ensures
        forall|i: int| 0 <= i < first_line_len(s) - 1 ==> s[i] != 10u8,
        s[first_line_len(s) - 1] == 10u8 || first_line_len(s) == s.len(),
    decreases s.len(),
{
    lemma_first_line_len_bounds(s);
    if s[0] != 10u8 {
        let f = first_line_len(s);
        lemma_first_line_len_bounds(s.skip(1));
        if s.len() > 1 {
            lemma_first_line_shape(s.skip(1));
            assert forall|i: int| 0 <= i < f - 1 implies s[i] != 10u8 by {
                if i > 0 {
                    assert(s[i] == s.skip(1)[i - 1]);
                }
            }
            if f < s.len() {
                assert(s[f - 1] == s.skip(1)[f - 2]);
            }
        }
    }
}

/// Concatenating the lines of a buffer gives the buffer back.
pub proof fn lemma_line_seq_flatten(s: Seq<u8>)
    ensures
        line_seq(s).flatten() == s,
    decreases s.len(),
{
    if s.len() == 0 {
        assert(line_seq(s).flatten() =~= s);
    } else {
        let f = first_line_len(s);
        lemma_first_line_len_bounds(s);
        lemma_line_seq_flatten(s.skip(f));
        lemma_flatten_concat(seq![s.take(f)], line_seq(s.skip(f)));
        seq![s.take(f)].lemma_flatten_one_element();
        assert(s.take(f).add(s.skip(f)) =~= s);
    }
}

/// The lines of any buffer are well formed.
pub proof fn lemma_line_seq_wf(s: Seq<u8>)
    ensures
        lines_wf(line_seq(s)),
    decreases s.len(),
{
    if s.len() > 0 {
        let f = first_line_len(s);
        lemma_first_line_len_bounds(s);
        lemma_first_line_shape(s);
        lemma_line_seq_wf(s.skip(f));
        let ls = line_seq(s);
        assert forall|i: int| 0 <= i < ls.len() implies (line_terminated(#[trigger] ls[i]) || (i
            == ls.len() - 1 && line_unterminated(ls[i]))) by {
            if i == 0 {
                let l = s.take(f);
                if s[f - 1] == 10u8 {
                    assert(line_terminated(l));
                } else {
                    assert(f == s.len());
                    assert(s.skip(f).len() == 0);
                    assert(ls.len() == 1);
                    assert(line_unterminated(l));
                }
            } else {
                assert(ls[i] == line_seq(s.skip(f))[i - 1]);
            }
        }
    }
}

/// Splits a buffer into its lines; the terminator stays on its line and
/// the split loses nothing.
pub fn split_lines(input: &Vec<u8>) -> (r: Vec<Vec<u8>>)
    ensures
        view_lines(r@) == line_seq(input@),
        lines_wf(view_lines(r@)),
{
    proof {
        lemma_line_seq_wf(input@);
    }
    let mut r: Vec<Vec<u8>> = Vec::new();
    let mut pos: usize = 0;
    proof {
        assert(input@.skip(0) =~= input@);
        assert(view_lines(r@) + line_seq(input@) =~= line_seq(input@));
    }
    while pos < input.len()
        invariant
            pos <= input.len(),
            line_seq(input@) == view_lines(r@) + line_seq(input@.skip(pos as int)),
        decreases input.len() - pos,
    {
        let mut end: usize = pos;
        while end < input.len() && input[end] != 10u8
            invariant
                pos <= end <= input.len(),
                forall|i: int| pos <= i < end ==> input@[i] != 10u8,
            decreases input.len() - end,
        {
            end = end + 1;
        }
        let ghost t = input@.skip(pos as int);
        proof {
            lemma_first_line_len_scan(t, end - pos);
        }
        if end < input.len() {
            end = end + 1;
        }
        proof {
            assert(first_line_len(t) == end - pos);
        }
        let mut l: Vec<u8> = Vec::new();
        let mut k: usize = pos;
        while k < end
            invariant
                pos <= k <= end <= input.len(),
                l@ == input@.subrange(pos as int, k as int),
            decreases end - k,
        {
            l.push(input[k]);
            proof {
                assert(l@ =~= input@.subrange(pos as int, k + 1));
            }
            k = k + 1;
        }
        proof {
            assert(l@ =~= t.take(end - pos));
            assert(t.skip(end - pos) =~= input@.skip(end as int));
            assert(line_seq(t) == seq![l@].add(line_seq(input@.skip(end as int))));
            lemma_view_lines_push(r@, l);
            assert(view_lines(r@).push(l@) + line_seq(input@.skip(end as int)) =~= view_lines(r@)
                + line_seq(t));
        }
        r.push(l);
        pos = end;
    }
    proof {
        assert(line_seq(input@.skip(pos as int)) =~= Seq::<Seq<u8>>::empty());
        assert(view_lines(r@) + line_seq(input@.skip(pos as int)) =~= view_lines(r@));
    }
    r
}

/// Byte-for-byte equality of two buffers.
pub fn bytes_eq(a: &Vec<u8>, b: &Vec<u8>) -> (r: bool)
    ensures
        r <==> a@ == b@,
{
    if a.len() != b.len() {
        return false;
    }
    let mut i: usize = 0;
    while i < a.len()
        invariant
            i <= a.len(),
            a.len() == b.len(),
            forall|j: int| 0 <= j < i ==> a@[j] == b@[j],
        decreases a.len() - i,
    {
        if a[i] != b[i] {
            return false;
        }
        i = i + 1;
    }
    proof {
        assert(a@ =~= b@);
    }
    true
}

/// Whether line `ai` of one list equals line `bi` of another, byte for
/// byte.
pub fn line_eq_at(a: &Vec<Vec<u8>>, ai: usize, b: &Vec<Vec<u8>>, bi: usize) -> (r: bool)
    requires
        ai < a@.len(),
        bi < b@.len(),
    ensures
        r <==> view_lines(a@)[ai as int] == view_lines(b@)[bi as int],
{
    bytes_eq(&a[ai], &b[bi])
}

/// An owned copy of a byte buffer.
pub fn clone_bytes(v: &Vec<u8>) -> (r: Vec<u8>)
    ensures
        r@ == v@,
{
    let mut r: Vec<u8> = Vec::new();
    let mut i: usize = 0;
    while i < v.len()
        invariant
            i <= v.len(),
            r@ == v@.subrange(0, i as int),
        decreases v.len() - i,
    {
        r.push(v[i]);
        proof {
            assert(r@ =~= v@.subrange(0, i + 1));
        }
        i = i + 1;
    }
    proof {
        assert(r@ =~= v@);
    }
    r
}

/// An owned copy of the lines `from..to` of a line list.
pub fn slice_lines(v: &Vec<Vec<u8>>, from: usize, to: usize) -> (r: Vec<Vec<u8>>)
    requires
        from <= to <= v@.len(),
    ensures
        view_lines(r@) == view_lines(v@).subrange(from as int, to as int),
{
    let mut r: Vec<Vec<u8>> = Vec::new();
    let mut i: usize = from;
    while i < to
        invariant
            from <= i <= to <= v@.len(),
            view_lines(r@) == view_lines(v@).subrange(from as int, i as int),
        decreases to - i,
    {
        let l = clone_bytes(&v[i]);
        proof {
            lemma_view_lines_push(r@, l);
            assert(view_lines(r@).push(l@) =~= view_lines(v@).subrange(from as int, i + 1));
        }
        r.push(l);
        i = i + 1;
    }
    r
}

/// The bytes that the lines `from..to` of a line list spell out, appended
/// to `out`.
pub fn append_lines(out: &mut Vec<u8>, v: &Vec<Vec<u8>>, from: usize, to: usize)
    requires
        from <= to <= v@.len(),
    ensures
        final(out)@ == old(out)@ + view_lines(v@).subrange(from as int, to as int).flatten(),
{
    let mut i: usize = from;
    while i < to
        invariant
            from <= i <= to <= v@.len(),
            out@ == old(out)@ + view_lines(v@).subrange(from as int, i as int).flatten(),
        decreases to - i,
    {
        let mut j: usize = 0;
        let ghost mid = out@;
        while j < v[i].len()
            invariant
                0 <= i < v@.len(),
                j <= v@[i as int]@.len(),
                out@ == mid + v@[i as int]@.subrange(0, j as int),
            decreases v@[i as int]@.len() - j,
        {
            out.push(v[i][j]);
            proof {
                assert(out@ =~= mid + v@[i as int]@.subrange(0, j + 1));
            }
            j = j + 1;
        }
        proof {
            let pre = view_lines(v@).subrange(from as int, i as int);
            let post = view_lines(v@).subrange(from as int, i + 1);
            assert(post =~= pre.push(v@[i as int]@));
            pre.lemma_flatten_push(v@[i as int]@);
            assert(v@[i as int]@.subrange(0, v@[i as int]@.len() as int) =~= v@[i as int]@);
            assert(out@ =~= old(out)@ + post.flatten());
        }
        i = i + 1;
    }
}

/// The bytes that the lines `from..to` spell out, as a fresh buffer.
pub fn bytes_of_lines(v: &Vec<Vec<u8>>, from: usize, to: usize) -> (r: Vec<u8>)
    requires
        from <= to <= v@.len(),
    ensures
        r@ == view_lines(v@).subrange(from as int, to as int).flatten(),
{
    let mut r: Vec<u8> = Vec::new();
    append_lines(&mut r, v, from, to);
    r
}

/// A subrange splits at any interior point.
pub proof fn lemma_subrange_split<A>(s: Seq<A>, a: int, b: int, c: int)
    requires
        0 <= a <= b <= c <= s.len(),
    ensures
        s.subrange(a, c) == s.subrange(a, b) + s.subrange(b, c),
{
    assert(s.subrange(a, c) =~= s.subrange(a, b) + s.subrange(b, c));
}

} // verus!
