//! Pairwise edit scripts over line sequences.
//!
//! An edit script for a pair (base, other) is an ordered, non-overlapping,
//! fully-covering list of hunks over both index spaces.  The merge core
//! depends only on these ordering and coverage guarantees, not on any
//! particular alignment algorithm; the algorithm here walks both
//! sequences in step and, at a mismatch, resynchronizes at the nearest
//! match reachable by a growing lookahead, preferring the earliest
//! (lowest-offset) alignment.  Edits separated by equal context stay
//! separate hunks.

use vstd::prelude::*;
use crate::lines::{view_lines, line_eq_at};

verus! {

#[derive(Clone, Copy, PartialEq, Eq, Structural, Debug)]
pub enum HunkKind {
    Equal,
    Replace,
    Insert,
    Delete,
}

/// One hunk of an edit script: a base range aligned with an other range.
#[derive(Clone, Copy, Debug)]
pub struct EditHunk {
    pub base_start: usize,
    pub base_end: usize,
    pub other_start: usize,
    pub other_end: usize,
    pub kind: HunkKind,
}

/// A hunk is internally consistent with its kind: equal hunks really carry
/// equal content, inserts take no base lines, deletes produce no other
/// lines.
pub open spec fn hunk_wf(h: EditHunk, base: Seq<Seq<u8>>, other: Seq<Seq<u8>>) -> bool {
    &&& h.base_start <= h.base_end <= base.len()
    &&& h.other_start <= h.other_end <= other.len()
    &&& match h.kind {
        HunkKind::Equal => {
            &&& h.base_end - h.base_start == h.other_end - h.other_start
            &&& h.base_end > h.base_start
            &&& base.subrange(h.base_start as int, h.base_end as int) == other.subrange(
                h.other_start as int,
                h.other_end as int,
            )
        },
        HunkKind::Replace => h.base_start < h.base_end && h.other_start < h.other_end,
        HunkKind::Insert => h.base_start == h.base_end && h.other_start < h.other_end,
        HunkKind::Delete => h.base_start < h.base_end && h.other_start == h.other_end,
    }
}

/// The guarantees every edit script gives: hunks are ordered, contiguous
/// and fully covering on both sides, every hunk is consistent with its
/// kind, and two edits are always separated by equal context.
pub open spec fn script_wf(s: Seq<EditHunk>, base: Seq<Seq<u8>>, other: Seq<Seq<u8>>) -> bool {
    &&& forall|i: int| 0 <= i < s.len() ==> hunk_wf(#[trigger] s[i], base, other)
    &&& s.len() > 0 ==> s[0].base_start == 0 && s[0].other_start == 0
    &&& forall|i: int|
        0 < i < s.len() ==> (#[trigger] s[i]).base_start == s[i - 1].base_end && s[i].other_start
            == s[i - 1].other_end
    &&& s.len() > 0 ==> s[s.len() - 1].base_end == base.len() && s[s.len() - 1].other_end
        == other.len()
    &&& s.len() == 0 ==> base.len() == 0 && other.len() == 0
    &&& forall|i: int|
        0 < i < s.len() ==> !(!((#[trigger] s[i]).kind is Equal) && !(s[i - 1].kind is Equal))
}

/// All hunks of the script leave the content unchanged.
pub open spec fn script_all_equal(s: Seq<EditHunk>) -> bool {
    forall|i: int| 0 <= i < s.len() ==> (#[trigger] s[i]).kind is Equal
}

/// One edited span of an edit script: the base lines `base_start..base_end`
/// are replaced by the other lines `other_start..other_end`.
#[derive(Clone, Copy, Debug)]
pub struct Change {
    pub base_start: usize,
    pub base_end: usize,
    pub other_start: usize,
    pub other_end: usize,
}

/// The positional discipline of a change list: spans are ordered,
/// strictly separated, in bounds, never degenerate, and the alignment
/// shift carries from each span to the next.
pub open spec fn changes_pos_wf(cs: Seq<Change>, base: Seq<Seq<u8>>, other: Seq<Seq<u8>>) -> bool {
    &&& forall|i: int|
        0 <= i < cs.len() ==> ((#[trigger] cs[i]).base_start <= cs[i].base_end <= base.len()
            && cs[i].other_start <= cs[i].other_end <= other.len() && !(cs[i].base_start
            == cs[i].base_end && cs[i].other_start == cs[i].other_end))
    &&& cs.len() > 0 ==> cs[0].other_start == cs[0].base_start
    &&& forall|i: int|
        0 < i < cs.len() ==> (cs[i - 1].base_end < (#[trigger] cs[i]).base_start && cs[i].other_start
            - cs[i].base_start == cs[i - 1].other_end - cs[i - 1].base_end)
    &&& cs.len() > 0 ==> base.len() - cs[cs.len() - 1].base_end == other.len() - cs[cs.len()
        - 1].other_end
    &&& cs.len() == 0 ==> base.len() == other.len()
}

/// The content discipline of a change list: between two spans, before the
/// first and after the last, both sides carry the same lines.
#[verifier::opaque]
pub open spec fn changes_content_wf(
    cs: Seq<Change>,
    base: Seq<Seq<u8>>,
    other: Seq<Seq<u8>>,
) -> bool {
    &&& cs.len() > 0 ==> base.subrange(0, cs[0].base_start as int) == other.subrange(
        0,
        cs[0].other_start as int,
    )
    &&& forall|i: int|
        0 < i < cs.len() ==> base.subrange(
            cs[i - 1].base_end as int,
            (#[trigger] cs[i]).base_start as int,
        ) == other.subrange(cs[i - 1].other_end as int, cs[i].other_start as int)
    &&& cs.len() > 0 ==> base.subrange(cs[cs.len() - 1].base_end as int, base.len() as int)
        == other.subrange(cs[cs.len() - 1].other_end as int, other.len() as int)
    &&& cs.len() == 0 ==> base == other
}

/// The edited spans of a well-formed script, stripped of equal context.
pub open spec fn changes_wf(cs: Seq<Change>, base: Seq<Seq<u8>>, other: Seq<Seq<u8>>) -> bool {
    changes_pos_wf(cs, base, other) && changes_content_wf(cs, base, other)
}

/// Strips the equal context out of a well-formed script, leaving only its
/// edited spans.
#[verifier::rlimit(100)]
pub fn changes_of(
    s: &Vec<EditHunk>,
    Ghost(base): Ghost<Seq<Seq<u8>>>,
    Ghost(other): Ghost<Seq<Seq<u8>>>,
) -> (cs: Vec<Change>)
    requires
        script_wf(s@, base, other),
    ensures
        changes_wf(cs@, base, other),
        script_all_equal(s@) ==> cs@.len() == 0,
{
    let mut cs: Vec<Change> = Vec::new();
    let mut i: usize = 0;
    let ghost mut cur_b: int = 0;
    let ghost mut cur_o: int = 0;
    let ghost mut anchor_b: int = 0;
    let ghost mut anchor_o: int = 0;
    while i < s.len()
        invariant
            script_wf(s@, base, other),
            i <= s@.len(),
            cur_b == if i > 0 {
                s@[i - 1].base_end as int
            } else {
                0
            },
            cur_o == if i > 0 {
                s@[i - 1].other_end as int
            } else {
                0
            },
            0 <= anchor_b <= cur_b <= base.len(),
            0 <= anchor_o <= cur_o <= other.len(),
            cur_o - anchor_o == cur_b - anchor_b,
            base.subrange(anchor_b, cur_b) == other.subrange(anchor_o, cur_o),
            cs@.len() > 0 ==> anchor_b == cs@[cs@.len() - 1].base_end && anchor_o == cs@[cs@.len()
                - 1].other_end,
            cs@.len() == 0 ==> anchor_b == 0 && anchor_o == 0,
            forall|k: int|
                0 <= k < cs@.len() ==> ((#[trigger] cs@[k]).base_start <= cs@[k].base_end
                    <= base.len() && cs@[k].other_start <= cs@[k].other_end <= other.len()
                    && !(cs@[k].base_start == cs@[k].base_end && cs@[k].other_start
                    == cs@[k].other_end)),
            cs@.len() > 0 ==> cs@[0].other_start == cs@[0].base_start && base.subrange(
                0,
                cs@[0].base_start as int,
            ) == other.subrange(0, cs@[0].other_start as int),
            forall|k: int|
                0 < k < cs@.len() ==> (cs@[k - 1].base_end < (#[trigger] cs@[k]).base_start
                    && cs@[k].other_start - cs@[k].base_start == cs@[k - 1].other_end - cs@[k
                    - 1].base_end && base.subrange(
                    cs@[k - 1].base_end as int,
                    cs@[k].base_start as int,
                ) == other.subrange(cs@[k - 1].other_end as int, cs@[k].other_start as int)),
            i > 0 && !(s@[i - 1].kind is Equal) ==> anchor_b == cur_b && anchor_o == cur_o,
            i > 0 && (s@[i - 1].kind is Equal) && cs@.len() > 0 ==> cur_b > anchor_b,
            cs@.len() > 0 ==> exists|k: int| 0 <= k < i && !((#[trigger] s@[k]).kind is Equal),
        decreases s@.len() - i,
    {
        let h = s[i];
        proof {
            assert(hunk_wf(s@[i as int], base, other));
            assert(h.base_start as int == cur_b && h.other_start as int == cur_o);
        }
        let is_equal = match h.kind {
            HunkKind::Equal => true,
            _ => false,
        };
        if is_equal {
            proof {
                let nb = h.base_end as int;
                let no = h.other_end as int;
                crate::lines::lemma_subrange_split(base, anchor_b, cur_b, nb);
                crate::lines::lemma_subrange_split(other, anchor_o, cur_o, no);
                assert(base.subrange(cur_b, nb) == other.subrange(cur_o, no));
                cur_b = nb;
                cur_o = no;
            }
        } else {
            proof {
                if cs@.len() > 0 {
                    if i > 0 && !(s@[i - 1].kind is Equal) {
                        assert(false);
                    }
                    assert(anchor_b < cur_b);
                }
                cur_b = h.base_end as int;
                cur_o = h.other_end as int;
                anchor_b = cur_b;
                anchor_o = cur_o;
            }
            cs.push(
                Change {
                    base_start: h.base_start,
                    base_end: h.base_end,
                    other_start: h.other_start,
                    other_end: h.other_end,
                },
            );
            proof {
                assert(base.subrange(anchor_b, cur_b) =~= other.subrange(anchor_o, cur_o));
            }
        }
        i = i + 1;
    }
    proof {
        reveal(changes_content_wf);
        if s@.len() == 0 {
            assert(base =~= other);
        } else {
            assert(cur_b == base.len() && cur_o == other.len());
            assert(base.subrange(anchor_b, base.len() as int) == other.subrange(
                anchor_o,
                other.len() as int,
            ));
            if cs@.len() == 0 {
                assert(base.subrange(0, base.len() as int) =~= base);
                assert(other.subrange(0, other.len() as int) =~= other);
            }
        }
        assert(changes_pos_wf(cs@, base, other));
        assert(changes_content_wf(cs@, base, other));
    }
    cs
}

/// Hunks are contiguous from the origin up to the given end positions,
/// each consistent with its kind, and edits separated by equal context.
#[verifier::opaque]
pub open spec fn script_chain(
    s: Seq<EditHunk>,
    base: Seq<Seq<u8>>,
    other: Seq<Seq<u8>>,
    pe: int,
    oe: int,
) -> bool {
    &&& s.len() > 0 ==> s[0].base_start == 0 && s[0].other_start == 0
    &&& s.len() == 0 ==> pe == 0 && oe == 0
    &&& s.len() > 0 ==> s[s.len() - 1].base_end == pe && s[s.len() - 1].other_end == oe
    &&& forall|i: int|
        0 < i < s.len() ==> (#[trigger] s[i]).base_start == s[i - 1].base_end && s[i].other_start
            == s[i - 1].other_end
    &&& forall|i: int| 0 <= i < s.len() ==> hunk_wf(#[trigger] s[i], base, other)
    &&& forall|i: int|
        0 < i < s.len() ==> !(!((#[trigger] s[i]).kind is Equal) && !(s[i - 1].kind is Equal))
}

/// A chain covering both sequences in full is a well-formed script.
pub proof fn lemma_chain_is_wf(s: Seq<EditHunk>, base: Seq<Seq<u8>>, other: Seq<Seq<u8>>)
    requires
        script_chain(s, base, other, base.len() as int, other.len() as int),
    ensures
        script_wf(s, base, other),
{
    reveal(script_chain);
}

/// Appends one hunk whose starts sit at the chain's ends, keeping the
/// chain; a hunk following an edit must be equal context.
#[verifier::rlimit(100)]
#[verifier::spinoff_prover]
fn push_hunk(s: &mut Vec<EditHunk>, base: &Vec<Vec<u8>>, other: &Vec<Vec<u8>>, h: EditHunk)
    requires
        script_chain(
            old(s)@,
            view_lines(base@),
            view_lines(other@),
            h.base_start as int,
            h.other_start as int,
        ),
        hunk_wf(h, view_lines(base@), view_lines(other@)),
        old(s)@.len() > 0 && !(old(s)@[old(s)@.len() - 1].kind is Equal) ==> h.kind is Equal,
    ensures
        final(s)@ == old(s)@.push(h),
        script_chain(
            final(s)@,
            view_lines(base@),
            view_lines(other@),
            h.base_end as int,
            h.other_end as int,
        ),
{
    let ghost s0 = s@;
    s.push(h);
    proof {
        reveal(script_chain);
        assert forall|k: int| 0 <= k < s@.len() implies #[trigger] s@[k] == (if k < s0.len() {
            s0[k]
        } else {
            h
        }) by {}
        assert(script_chain(s@, view_lines(base@), view_lines(other@), h.base_end as int,
            h.other_end as int));
    }
}

/// Closes the walk: emits the open equal run and, when one side still
/// has lines, the final edit covering the rest, yielding a well-formed
/// script.
#[verifier::rlimit(100)]
#[verifier::spinoff_prover]
fn close_script(
    s: &mut Vec<EditHunk>,
    base: &Vec<Vec<u8>>,
    other: &Vec<Vec<u8>>,
    i: usize,
    j: usize,
    rb: usize,
    ro: usize,
)
    requires
        rb <= i <= base@.len(),
        ro <= j <= other@.len(),
        i - rb == j - ro,
        i == base@.len() || j == other@.len(),
        forall|q: int|
            0 <= q < i - rb ==> #[trigger] view_lines(base@)[rb + q] == view_lines(other@)[ro + q],
        script_chain(old(s)@, view_lines(base@), view_lines(other@), rb as int, ro as int),
        old(s)@.len() > 0 && !(old(s)@[old(s)@.len() - 1].kind is Equal) ==> rb < i || (i
            == base@.len() && j == other@.len()),
        view_lines(base@) == view_lines(other@) ==> i == j && i == base@.len() && j
            == other@.len() && script_all_equal(old(s)@),
    ensures
        script_wf(final(s)@, view_lines(base@), view_lines(other@)),
        view_lines(base@) == view_lines(other@) ==> script_all_equal(final(s)@),
{
    let ghost bv = view_lines(base@);
    let ghost ov = view_lines(other@);
    let n = base.len();
    let m = other.len();
    let mut rb = rb;
    let mut ro = ro;
    if i > rb {
        let h = EditHunk {
            base_start: rb,
            base_end: i,
            other_start: ro,
            other_end: j,
            kind: HunkKind::Equal,
        };
        proof {
            assert forall|q: int| 0 <= q < i - rb implies bv.subrange(rb as int, i as int)[q]
                == ov.subrange(ro as int, j as int)[q] by {
                assert(bv[rb + q] == ov[ro + q]);
            }
            assert(bv.subrange(rb as int, i as int) =~= ov.subrange(ro as int, j as int));
            assert(hunk_wf(h, bv, ov));
        }
        push_hunk(s, base, other, h);
        rb = i;
        ro = j;
    }
    if i < n || j < m {
        let kind = if i == n {
            HunkKind::Insert
        } else if j == m {
            HunkKind::Delete
        } else {
            HunkKind::Replace
        };
        let h = EditHunk { base_start: i, base_end: n, other_start: j, other_end: m, kind: kind };
        proof {
            if s@.len() > 0 && !(s@[s@.len() - 1].kind is Equal) {
                assert(false);
            }
            if bv == ov {
                assert(bv.len() == ov.len());
                assert(false) by {
                    if i < n {
                        assert(bv[i as int] == ov[i as int]);
                    }
                }
            }
            assert(hunk_wf(h, bv, ov));
        }
        push_hunk(s, base, other, h);
        proof {
            lemma_chain_is_wf(s@, bv, ov);
        }
    } else {
        proof {
            lemma_chain_is_wf(s@, bv, ov);
        }
    }
    proof {
        if bv == ov {
            assert(bv.len() == ov.len());
        }
    }
}

/// Searches for the nearest pair of matching lines after a mismatch at
/// `(i, j)`, by growing total lookahead: a match of base line `i+f1` with
/// other line `j+f2`.  Smaller totals are preferred, so the earliest
/// realignment wins.
#[verifier::rlimit(100)]
#[verifier::spinoff_prover]
fn find_resync(base: &Vec<Vec<u8>>, other: &Vec<Vec<u8>>, i: usize, j: usize) -> (r: (
    bool,
    usize,
    usize,
))
    requires
        i < base@.len(),
        j < other@.len(),
    ensures
        r.0 ==> i + r.1 < base@.len() && j + r.2 < other@.len() && r.1 + r.2 >= 1 && view_lines(
            base@,
        )[i + r.1] == view_lines(other@)[j + r.2],
{
    let ghost bv = view_lines(base@);
    let ghost ov = view_lines(other@);
    let n = base.len();
    let m = other.len();
    let du = n - 1 - i;
    let dv = m - 1 - j;
    let dmax = if dv > usize::MAX - du {
        usize::MAX
    } else {
        du + dv
    };
    let mut d: usize = 1;
    let mut f1: usize = 0;
    let mut f2: usize = 0;
    let mut found: bool = false;
    while !found && d <= dmax
        invariant
            bv == view_lines(base@),
            ov == view_lines(other@),
            n == base@.len(),
            m == other@.len(),
            i < n,
            j < m,
            du == n - 1 - i,
            dv == m - 1 - j,
            1 <= d,
            found ==> f1 <= du && f2 <= dv && f1 + f2 >= 1 && bv[i + f1] == ov[j + f2],
        decreases dmax - d + (if found {
            0int
        } else {
            1int
        }),
    {
        let mut d1: usize = if d > dv {
            d - dv
        } else {
            0
        };
        while !found && d1 <= d && d1 <= du
            invariant
                bv == view_lines(base@),
                ov == view_lines(other@),
                n == base@.len(),
                m == other@.len(),
                i < n,
                j < m,
                du == n - 1 - i,
                dv == m - 1 - j,
                1 <= d,
                d1 >= if d > dv {
                    d - dv
                } else {
                    0
                },
                found ==> f1 <= du && f2 <= dv && f1 + f2 >= 1 && bv[i + f1] == ov[j + f2],
            decreases d + 1 - d1 + (if found {
                0int
            } else {
                1int
            }),
        {
            let d2 = d - d1;
            if d2 <= dv && line_eq_at(base, i + d1, other, j + d2) {
                f1 = d1;
                f2 = d2;
                found = true;
            } else {
                d1 = d1 + 1;
            }
        }
        if !found {
            if d == dmax {
                break;
            }
            d = d + 1;
        }
    }
    (found, f1, f2)
}

/// Aligns `base` and `other` line by line: equal lines extend an equal
/// run; at a mismatch the walk resynchronizes at the nearest match found
/// by growing lookahead — a deletion, an insertion or a replacement of
/// that many lines — preferring the earliest (lowest-offset) alignment.
/// Edits separated by equal context therefore stay separate spans.
/// Identical inputs yield a script without any edit.
#[verifier::rlimit(100)]
#[verifier::spinoff_prover]
pub fn diff(base: &Vec<Vec<u8>>, other: &Vec<Vec<u8>>) -> (s: Vec<EditHunk>)
    ensures
        script_wf(s@, view_lines(base@), view_lines(other@)),
        view_lines(base@) == view_lines(other@) ==> script_all_equal(s@),
{
    let n = base.len();
    let m = other.len();
    let ghost bv = view_lines(base@);
    let ghost ov = view_lines(other@);
    let mut s: Vec<EditHunk> = Vec::new();
    let mut i: usize = 0;
    let mut j: usize = 0;
    let mut rb: usize = 0;
    let mut ro: usize = 0;
    let mut open_tail: bool = false;
    proof {
        reveal(script_chain);
        assert(script_chain(s@, bv, ov, 0, 0));
    }
    while i < n && j < m && !open_tail
        invariant
            bv == view_lines(base@),
            ov == view_lines(other@),
            n == base@.len(),
            m == other@.len(),
            rb <= i <= n,
            ro <= j <= m,
            i - rb == j - ro,
            forall|q: int| 0 <= q < i - rb ==> #[trigger] bv[rb + q] == ov[ro + q],
            script_chain(s@, bv, ov, rb as int, ro as int),
            !open_tail && s@.len() > 0 && !(s@[s@.len() - 1].kind is Equal) ==> (rb < i || (i < n
                && j < m && bv[i as int] == ov[j as int])),
            open_tail ==> i == n && j == m && rb == n && ro == m,
            bv == ov ==> i == j && script_all_equal(s@),
        decreases n - i + m - j,
    {
        if line_eq_at(base, i, other, j) {
            proof {
                assert forall|q: int| 0 <= q < i + 1 - rb implies #[trigger] bv[rb + q] == ov[ro
                    + q] by {
                    if q == i - rb {
                        assert(bv[i as int] == ov[j as int]);
                    }
                }
            }
            i = i + 1;
            j = j + 1;
        } else {
            proof {
                if bv == ov {
                    assert(bv[i as int] == ov[j as int]);
                    assert(false);
                }
            }
            if i > rb {
                let h = EditHunk {
                    base_start: rb,
                    base_end: i,
                    other_start: ro,
                    other_end: j,
                    kind: HunkKind::Equal,
                };
                proof {
                    assert forall|q: int| 0 <= q < i - rb implies bv.subrange(rb as int, i as int)[q]
                        == ov.subrange(ro as int, j as int)[q] by {
                        assert(bv[rb + q] == ov[ro + q]);
                    }
                    assert(bv.subrange(rb as int, i as int) =~= ov.subrange(ro as int, j as int));
                    assert(hunk_wf(h, bv, ov));
                }
                push_hunk(&mut s, base, other, h);
                rb = i;
                ro = j;
            }
            proof {
                if s@.len() > 0 && !(s@[s@.len() - 1].kind is Equal) {
                    assert(false);
                }
            }
            let (found, f1, f2) = find_resync(base, other, i, j);
            if found {
                if f1 == 0 {
                    let h = EditHunk {
                        base_start: i,
                        base_end: i,
                        other_start: j,
                        other_end: j + f2,
                        kind: HunkKind::Insert,
                    };
                    push_hunk(&mut s, base, other, h);
                    j = j + f2;
                } else if f2 == 0 {
                    let h = EditHunk {
                        base_start: i,
                        base_end: i + f1,
                        other_start: j,
                        other_end: j,
                        kind: HunkKind::Delete,
                    };
                    push_hunk(&mut s, base, other, h);
                    i = i + f1;
                } else {
                    let h = EditHunk {
                        base_start: i,
                        base_end: i + f1,
                        other_start: j,
                        other_end: j + f2,
                        kind: HunkKind::Replace,
                    };
                    push_hunk(&mut s, base, other, h);
                    i = i + f1;
                    j = j + f2;
                }
            } else {
                let h = EditHunk {
                    base_start: i,
                    base_end: n,
                    other_start: j,
                    other_end: m,
                    kind: HunkKind::Replace,
                };
                push_hunk(&mut s, base, other, h);
                i = n;
                j = m;
                open_tail = true;
            }
            rb = i;
            ro = j;
        }
    }
    close_script(&mut s, base, other, i, j, rb, ro);
    s
}

} // verus!
