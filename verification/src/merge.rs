//! The hunk merger: combining the base→ours and base→theirs edit scripts
//! into one partition of the common-ancestor line space.
//!
//! Base line positions are walked in increasing order with a cursor into
//! each side's edited spans.  Within each partition range, each side is
//! either entirely equal to base or entirely inside edited spans of that
//! side.  Classification compares the two sides' replacement byte content,
//! so edits that converge on identical bytes never conflict.

use vstd::prelude::*;
use crate::diff::{Change, changes_wf, changes_content_wf, changes_pos_wf};
use crate::lines::{view_lines, bytes_of_lines, bytes_eq};

verus! {

#[derive(Clone, Copy, PartialEq, Eq, Structural, Debug)]
pub enum Classification {
    Stable,
    OursChanged,
    TheirsChanged,
    BothChangedIdentical,
    BothChangedConflicting,
}

/// One region of the merged partition: a base range together with the
/// aligned ranges of both sides and its classification.
#[derive(Clone, Copy, Debug)]
pub struct MergeRegion {
    pub base_start: usize,
    pub base_end: usize,
    pub ours_start: usize,
    pub ours_end: usize,
    pub theirs_start: usize,
    pub theirs_end: usize,
    pub class: Classification,
}

/// How a region is classified, given the byte content of the three sides:
/// byte-identical replacements on both sides are convergent, not
/// conflicting.
pub open spec fn spec_classify(b: Seq<u8>, o: Seq<u8>, t: Seq<u8>) -> Classification {
    if o == b && t == b {
        Classification::Stable
    } else if o == b {
        Classification::TheirsChanged
    } else if t == b {
        Classification::OursChanged
    } else if o == t {
        Classification::BothChangedIdentical
    } else {
        Classification::BothChangedConflicting
    }
}

pub open spec fn region_base_bytes(r: MergeRegion, base: Seq<Seq<u8>>) -> Seq<u8> {
    base.subrange(r.base_start as int, r.base_end as int).flatten()
}

pub open spec fn region_ours_bytes(r: MergeRegion, ours: Seq<Seq<u8>>) -> Seq<u8> {
    ours.subrange(r.ours_start as int, r.ours_end as int).flatten()
}

pub open spec fn region_theirs_bytes(r: MergeRegion, theirs: Seq<Seq<u8>>) -> Seq<u8> {
    theirs.subrange(r.theirs_start as int, r.theirs_end as int).flatten()
}

/// The region's classification agrees with its content.
#[verifier::opaque]
pub open spec fn region_class_ok(
    r: MergeRegion,
    base: Seq<Seq<u8>>,
    ours: Seq<Seq<u8>>,
    theirs: Seq<Seq<u8>>,
) -> bool {
    r.class == spec_classify(
        region_base_bytes(r, base),
        region_ours_bytes(r, ours),
        region_theirs_bytes(r, theirs),
    )
}

/// Regions are ordered by base position, non-overlapping and contiguous,
/// in all three index spaces at once, up to the given end positions.
#[verifier::opaque]
pub open spec fn regions_chain(
    rs: Seq<MergeRegion>,
    base: Seq<Seq<u8>>,
    ours: Seq<Seq<u8>>,
    theirs: Seq<Seq<u8>>,
    pe: int,
    oe: int,
    te: int,
) -> bool {
    &&& rs.len() > 0 ==> rs[0].base_start == 0 && rs[0].ours_start == 0 && rs[0].theirs_start == 0
    &&& rs.len() == 0 ==> pe == 0 && oe == 0 && te == 0
    &&& rs.len() > 0 ==> rs[rs.len() - 1].base_end == pe && rs[rs.len() - 1].ours_end == oe
        && rs[rs.len() - 1].theirs_end == te
    &&& forall|k: int|
        0 < k < rs.len() ==> (#[trigger] rs[k]).base_start == rs[k - 1].base_end && rs[k].ours_start
            == rs[k - 1].ours_end && rs[k].theirs_start == rs[k - 1].theirs_end
    &&& forall|k: int|
        0 <= k < rs.len() ==> ((#[trigger] rs[k]).base_start <= rs[k].base_end <= base.len()
            && rs[k].ours_start <= rs[k].ours_end <= ours.len() && rs[k].theirs_start
            <= rs[k].theirs_end <= theirs.len())
    &&& forall|k: int| 0 <= k < rs.len() ==> region_class_ok(#[trigger] rs[k], base, ours, theirs)
}

/// A full partition: contiguous regions covering base, ours and theirs.
pub open spec fn regions_wf(
    rs: Seq<MergeRegion>,
    base: Seq<Seq<u8>>,
    ours: Seq<Seq<u8>>,
    theirs: Seq<Seq<u8>>,
) -> bool {
    regions_chain(rs, base, ours, theirs, base.len() as int, ours.len() as int, theirs.len() as int)
}

/// Every region keeps ours aligned with base: ours did not edit anything.
pub open spec fn all_ours_base(rs: Seq<MergeRegion>) -> bool {
    forall|k: int|
        0 <= k < rs.len() ==> (#[trigger] rs[k]).ours_start == rs[k].base_start && rs[k].ours_end
            == rs[k].base_end
}

/// Every region keeps theirs aligned with base: theirs did not edit
/// anything.
pub open spec fn all_theirs_base(rs: Seq<MergeRegion>) -> bool {
    forall|k: int|
        0 <= k < rs.len() ==> (#[trigger] rs[k]).theirs_start == rs[k].base_start
            && rs[k].theirs_end == rs[k].base_end
}

/// No region carries changes from both sides.
pub open spec fn all_single_sided(rs: Seq<MergeRegion>) -> bool {
    forall|k: int|
        0 <= k < rs.len() ==> ((#[trigger] rs[k]).class is Stable || rs[k].class is OursChanged
            || rs[k].class is TheirsChanged)
}

/// Two edited base spans collide: their interiors intersect, or they are
/// simultaneous pure insertions at the same base offset.
pub open spec fn spec_overlap(abs: int, abe: int, bbs: int, bbe: int) -> bool {
    if abs == abe && bbs == bbe {
        abs == bbs
    } else if abs == abe {
        bbs < abs < bbe
    } else if bbs == bbe {
        abs < bbs < abe
    } else {
        abs < bbe && bbs < abe
    }
}

/// No edited span of one side collides with an edited span of the other.
#[verifier::opaque]
pub open spec fn no_cross_overlap(co: Seq<Change>, ct: Seq<Change>) -> bool {
    forall|i: int, j: int|
        0 <= i < co.len() && 0 <= j < ct.len() ==> !spec_overlap(
            (#[trigger] co[i]).base_start as int,
            co[i].base_end as int,
            (#[trigger] ct[j]).base_start as int,
            ct[j].base_end as int,
        )
}

/// Both sides edit exactly the same lone base span.
pub open spec fn lone_pair(co: Seq<Change>, ct: Seq<Change>) -> bool {
    co.len() == 1 && ct.len() == 1 && co[0].base_start == ct[0].base_start && co[0].base_end
        == ct[0].base_end
}

fn range_overlaps(lo: usize, hi: usize, c: &Change) -> (r: bool)
    requires
        lo <= hi,
        c.base_start <= c.base_end,
    ensures
        r == spec_overlap(lo as int, hi as int, c.base_start as int, c.base_end as int),
{
    if lo == hi && c.base_start == c.base_end {
        lo == c.base_start
    } else if lo == hi {
        c.base_start < lo && lo < c.base_end
    } else if c.base_start == c.base_end {
        lo < c.base_start && c.base_start < hi
    } else {
        lo < c.base_end && c.base_start < hi
    }
}

/// Classifies one region by the byte content of its three sides.
pub fn classify(
    base: &Vec<Vec<u8>>,
    ours: &Vec<Vec<u8>>,
    theirs: &Vec<Vec<u8>>,
    bs: usize,
    be: usize,
    os: usize,
    oe: usize,
    ts: usize,
    te: usize,
) -> (c: Classification)
    requires
        bs <= be <= base@.len(),
        os <= oe <= ours@.len(),
        ts <= te <= theirs@.len(),
    ensures
        c == spec_classify(
            view_lines(base@).subrange(bs as int, be as int).flatten(),
            view_lines(ours@).subrange(os as int, oe as int).flatten(),
            view_lines(theirs@).subrange(ts as int, te as int).flatten(),
        ),
{
    let b = bytes_of_lines(base, bs, be);
    let o = bytes_of_lines(ours, os, oe);
    let t = bytes_of_lines(theirs, ts, te);
    let ob = bytes_eq(&o, &b);
    let tb = bytes_eq(&t, &b);
    if ob && tb {
        Classification::Stable
    } else if ob {
        Classification::TheirsChanged
    } else if tb {
        Classification::OursChanged
    } else if bytes_eq(&o, &t) {
        Classification::BothChangedIdentical
    } else {
        Classification::BothChangedConflicting
    }
}

/// A slice of an equal-with-shift stretch is itself equal with that shift.
pub proof fn lemma_shifted_slice(
    x: Seq<Seq<u8>>,
    y: Seq<Seq<u8>>,
    g1x: int,
    g2x: int,
    g1y: int,
    a: int,
    b: int,
)
    requires
        0 <= g1x <= a <= b <= g2x <= x.len(),
        0 <= g1y,
        g1y + (g2x - g1x) <= y.len(),
        x.subrange(g1x, g2x) == y.subrange(g1y, g1y + (g2x - g1x)),
    ensures
        x.subrange(a, b) == y.subrange(a + (g1y - g1x), b + (g1y - g1x)),
{
    let d = g1y - g1x;
    assert forall|q: int| 0 <= q < b - a implies x.subrange(a, b)[q] == y.subrange(
        a + d,
        b + d,
    )[q] by {
        assert(x.subrange(g1x, g2x)[a - g1x + q] == y.subrange(g1y, g1y + (g2x - g1x))[a - g1x
            + q]);
    }
    assert(x.subrange(a, b) =~= y.subrange(a + d, b + d));
}

/// One side's cursor is in sync at a base position outside every edited
/// span: the side position differs from the base position by the running
/// shift of the spans already passed.
pub open spec fn side_sync(
    cs: Seq<Change>,
    k: int,
    pos: int,
    spos: int,
    base: Seq<Seq<u8>>,
    side: Seq<Seq<u8>>,
) -> bool {
    &&& 0 <= k <= cs.len()
    &&& if k > 0 {
        cs[k - 1].base_end <= pos && spos - pos == cs[k - 1].other_end - cs[k - 1].base_end
    } else {
        spos == pos
    }
    &&& k < cs.len() ==> pos <= cs[k].base_start
    &&& 0 <= pos <= base.len()
    &&& 0 <= spos <= side.len()
}

/// The side's content over a base range that lies outside every edited
/// span equals the base content there.
pub proof fn lemma_sync_gap_eq(
    cs: Seq<Change>,
    k: int,
    pos: int,
    spos: int,
    base: Seq<Seq<u8>>,
    side: Seq<Seq<u8>>,
    a: int,
    b: int,
)
    requires
        changes_wf(cs, base, side),
        side_sync(cs, k, pos, spos, base, side),
        pos <= a <= b,
        k < cs.len() ==> b <= cs[k].base_start,
        k == cs.len() ==> b <= base.len(),
    ensures
        side.subrange(a + (spos - pos), b + (spos - pos)) == base.subrange(a, b),
        b + (spos - pos) <= side.len(),
{
    reveal(changes_content_wf);
    let d = spos - pos;
    let g1 = if k > 0 {
        cs[k - 1].base_end as int
    } else {
        0
    };
    let g2 = if k < cs.len() {
        cs[k].base_start as int
    } else {
        base.len() as int
    };
    let g1y = g1 + d;
    if cs.len() == 0 {
        assert(base =~= base.subrange(0, base.len() as int));
        assert(side =~= side.subrange(0, side.len() as int));
        assert(base.subrange(g1, g2) == side.subrange(g1y, g1y + (g2 - g1)));
    } else if k == 0 {
        assert(d == 0);
        assert(base.subrange(0, cs[0].base_start as int) == side.subrange(
            0,
            cs[0].other_start as int,
        ));
    } else if k < cs.len() {
        assert(base.subrange(cs[k - 1].base_end as int, cs[k].base_start as int) == side.subrange(
            cs[k - 1].other_end as int,
            cs[k].other_start as int,
        ));
        assert(cs[k].other_start - cs[k].base_start == cs[k - 1].other_end - cs[k - 1].base_end);
    } else {
        assert(base.subrange(cs[k - 1].base_end as int, base.len() as int) == side.subrange(
            cs[k - 1].other_end as int,
            side.len() as int,
        ));
    }
    lemma_shifted_slice(base, side, g1, g2, g1y, a, b);
}

/// A colliding pair of spans refutes cross-independence.
proof fn lemma_cross_witness(co: Seq<Change>, ct: Seq<Change>, ii: int, jj: int)
    requires
        0 <= ii < co.len(),
        0 <= jj < ct.len(),
        spec_overlap(
            co[ii].base_start as int,
            co[ii].base_end as int,
            ct[jj].base_start as int,
            ct[jj].base_end as int,
        ),
    ensures
        !no_cross_overlap(co, ct),
{
    reveal(no_cross_overlap);
    if no_cross_overlap(co, ct) {
        assert(!spec_overlap(
            co[ii].base_start as int,
            co[ii].base_end as int,
            ct[jj].base_start as int,
            ct[jj].base_end as int,
        ));
    }
}

/// After the colliding group `lo..hi` is closed, the next unconsumed span
/// of a side starts at or after `hi`.
pub proof fn lemma_next_clear(
    cs: Seq<Change>,
    base: Seq<Seq<u8>>,
    side: Seq<Seq<u8>>,
    k0: int,
    k: int,
    lo: int,
    hi: int,
    anyc: bool,
)
    requires
        changes_wf(cs, base, side),
        0 <= k0 <= k <= cs.len(),
        lo <= hi,
        anyc == (k > k0),
        anyc ==> lo <= cs[k - 1].base_start,
        k < cs.len() ==> lo <= cs[k].base_start,
        !anyc && k0 < cs.len() ==> cs[k0].base_start > lo || (cs[k0].base_start == lo
            && cs[k0].base_start != cs[k0].base_end) || (cs[k0].base_start == lo && lo == hi),
        k < cs.len() ==> !spec_overlap(lo, hi, cs[k].base_start as int, cs[k].base_end as int),
    ensures
        k < cs.len() ==> cs[k].base_start >= hi,
{
    if k < cs.len() {
        let c = cs[k];
        if (c.base_start as int) < hi {
            if c.base_start == c.base_end {
                if c.base_start == lo {
                    if anyc {
                        assert(cs[k - 1].base_end < c.base_start);
                        assert(false);
                    } else {
                        assert(false);
                    }
                } else {
                    assert(spec_overlap(lo, hi, c.base_start as int, c.base_end as int));
                    assert(false);
                }
            } else {
                if lo < hi {
                    assert(spec_overlap(lo, hi, c.base_start as int, c.base_end as int));
                    assert(false);
                }
            }
        }
    }
}

/// Where the group ends inside or after the last consumed span of a side,
/// the side position that aligns with the group end is in bounds and in
/// sync.
pub proof fn lemma_side_end(
    cs: Seq<Change>,
    base: Seq<Seq<u8>>,
    side: Seq<Seq<u8>>,
    k: int,
    hi: int,
)
    requires
        changes_wf(cs, base, side),
        0 < k <= cs.len(),
        cs[k - 1].base_end <= hi,
        k < cs.len() ==> hi <= cs[k].base_start,
        hi <= base.len(),
    ensures
        cs[k - 1].other_end + (hi - cs[k - 1].base_end) <= side.len(),
        side_sync(cs, k, hi, cs[k - 1].other_end + (hi - cs[k - 1].base_end), base, side),
{
    if k < cs.len() {
        assert(cs[k].other_start - cs[k].base_start == cs[k - 1].other_end - cs[k - 1].base_end);
        assert(cs[k].other_start <= side.len());
    } else {
        assert(base.len() - cs[k - 1].base_end == side.len() - cs[k - 1].other_end);
    }
}

/// Emits the stable region `pos..upto`, both sides being equal to base
/// there, and advances all three cursors.  Does nothing when the gap is
/// empty.
#[verifier::rlimit(100)]
#[verifier::spinoff_prover]
fn push_stable(
    rs: &mut Vec<MergeRegion>,
    base: &Vec<Vec<u8>>,
    ours: &Vec<Vec<u8>>,
    theirs: &Vec<Vec<u8>>,
    cs_o: &Vec<Change>,
    cs_t: &Vec<Change>,
    Ghost(i): Ghost<int>,
    Ghost(j): Ghost<int>,
    pos: usize,
    opos: usize,
    tpos: usize,
    upto: usize,
)
    requires
        changes_wf(cs_o@, view_lines(base@), view_lines(ours@)),
        changes_wf(cs_t@, view_lines(base@), view_lines(theirs@)),
        side_sync(cs_o@, i, pos as int, opos as int, view_lines(base@), view_lines(ours@)),
        side_sync(cs_t@, j, pos as int, tpos as int, view_lines(base@), view_lines(theirs@)),
        regions_chain(
            old(rs)@,
            view_lines(base@),
            view_lines(ours@),
            view_lines(theirs@),
            pos as int,
            opos as int,
            tpos as int,
        ),
        pos <= upto <= base@.len(),
        i < cs_o@.len() ==> upto <= cs_o@[i].base_start,
        j < cs_t@.len() ==> upto <= cs_t@[j].base_start,
    ensures
        opos + (upto - pos) <= ours@.len(),
        tpos + (upto - pos) <= theirs@.len(),
        side_sync(
            cs_o@,
            i,
            upto as int,
            opos + (upto - pos),
            view_lines(base@),
            view_lines(ours@),
        ),
        side_sync(
            cs_t@,
            j,
            upto as int,
            tpos + (upto - pos),
            view_lines(base@),
            view_lines(theirs@),
        ),
        regions_chain(
            final(rs)@,
            view_lines(base@),
            view_lines(ours@),
            view_lines(theirs@),
            upto as int,
            opos + (upto - pos),
            tpos + (upto - pos),
        ),
        upto == pos ==> final(rs)@ == old(rs)@,
        upto > pos ==> final(rs)@ == old(rs)@.push(
            (MergeRegion {
                base_start: pos,
                base_end: upto,
                ours_start: opos,
                ours_end: (opos + (upto - pos)) as usize,
                theirs_start: tpos,
                theirs_end: (tpos + (upto - pos)) as usize,
                class: Classification::Stable,
            }),
        ),
        all_ours_base(old(rs)@) && opos == pos ==> all_ours_base(final(rs)@),
        all_theirs_base(old(rs)@) && tpos == pos ==> all_theirs_base(final(rs)@),
        all_single_sided(old(rs)@) ==> all_single_sided(final(rs)@),
{
    let ghost bv = view_lines(base@);
    let ghost ov = view_lines(ours@);
    let ghost tv = view_lines(theirs@);
    proof {
        reveal(regions_chain);
        lemma_sync_gap_eq(
            cs_o@,
            i,
            pos as int,
            opos as int,
            bv,
            ov,
            pos as int,
            upto as int,
        );
        lemma_sync_gap_eq(
            cs_t@,
            j,
            pos as int,
            tpos as int,
            bv,
            tv,
            pos as int,
            upto as int,
        );
    }
    let olen = ours.len();
    let tlen = theirs.len();
    proof {
        assert(upto as int + (opos as int - pos as int) <= ov.len());
        assert(upto as int + (tpos as int - pos as int) <= tv.len());
        assert(opos as int + (upto as int - pos as int) <= olen);
        assert(tpos as int + (upto as int - pos as int) <= tlen);
    }
    if upto > pos {
        let glen = upto - pos;
        let oend = opos + glen;
        let tend = tpos + glen;
        let c = classify(base, ours, theirs, pos, upto, opos, oend, tpos, tend);
        proof {
            assert(ov.subrange(opos as int, oend as int) == bv.subrange(pos as int, upto as int));
            assert(tv.subrange(tpos as int, tend as int) == bv.subrange(pos as int, upto as int));
            assert(c == Classification::Stable);
        }
        let r = MergeRegion {
            base_start: pos,
            base_end: upto,
            ours_start: opos,
            ours_end: oend,
            theirs_start: tpos,
            theirs_end: tend,
            class: c,
        };
        let ghost s0 = rs@;
        rs.push(r);
        proof {
            reveal(region_class_ok);
            assert(region_class_ok(r, bv, ov, tv));
            lemma_chain_push(s0, bv, ov, tv, r);
            assert(rs@ == s0.push(r));
        }
    }
}


/// The cursor state after one colliding group of edited spans is closed.
struct Group {
    i: usize,
    j: usize,
    hi: usize,
    any_o: bool,
    any_t: bool,
    last_o_be: usize,
    last_o_oe: usize,
    last_t_be: usize,
    last_t_oe: usize,
}

/// Opens a colliding group at base position `pos` by consuming the seed
/// span: the span starting there, a pure insertion ahead of a span that
/// begins at the same offset, and ours ahead of theirs.
#[verifier::rlimit(100)]
#[verifier::spinoff_prover]
fn seed_group(
    base: &Vec<Vec<u8>>,
    ours: &Vec<Vec<u8>>,
    theirs: &Vec<Vec<u8>>,
    cs_o: &Vec<Change>,
    cs_t: &Vec<Change>,
    i: usize,
    j: usize,
    pos: usize,
    opos: usize,
    tpos: usize,
) -> (g: Group)
    requires
        changes_wf(cs_o@, view_lines(base@), view_lines(ours@)),
        changes_wf(cs_t@, view_lines(base@), view_lines(theirs@)),
        side_sync(cs_o@, i as int, pos as int, opos as int, view_lines(base@), view_lines(ours@)),
        side_sync(cs_t@, j as int, pos as int, tpos as int, view_lines(base@), view_lines(theirs@)),
        (i < cs_o@.len() && cs_o@[i as int].base_start == pos) || (j < cs_t@.len()
            && cs_t@[j as int].base_start == pos),
    ensures
        i <= g.i <= cs_o@.len(),
        j <= g.j <= cs_t@.len(),
        g.any_o == (g.i > i),
        g.any_t == (g.j > j),
        g.any_o || g.any_t,
        g.i + g.j == i + j + 1,
        pos <= g.hi <= base@.len(),
        g.any_o ==> g.last_o_be == cs_o@[g.i - 1].base_end && g.last_o_oe == cs_o@[g.i
            - 1].other_end && g.last_o_be <= g.hi && pos <= cs_o@[g.i - 1].base_start,
        g.any_t ==> g.last_t_be == cs_t@[g.j - 1].base_end && g.last_t_oe == cs_t@[g.j
            - 1].other_end && g.last_t_be <= g.hi && pos <= cs_t@[g.j - 1].base_start,
        g.i < cs_o@.len() ==> pos <= cs_o@[g.i as int].base_start,
        g.j < cs_t@.len() ==> pos <= cs_t@[g.j as int].base_start,
        (g.hi == g.last_o_be && g.any_o) || (g.hi == g.last_t_be && g.any_t),
        !g.any_t && g.any_o ==> g.i as int == i + 1 && pos == cs_o@[i as int].base_start && g.hi
            == cs_o@[i as int].base_end,
        !g.any_o && g.any_t ==> g.j as int == j + 1 && pos == cs_t@[j as int].base_start && g.hi
            == cs_t@[j as int].base_end,
        !g.any_o && i < cs_o@.len() ==> cs_o@[i as int].base_start > pos || (cs_o@[i
            as int].base_start == pos && cs_o@[i as int].base_start != cs_o@[i as int].base_end)
            || (cs_o@[i as int].base_start == pos && pos == g.hi),
        !g.any_t && j < cs_t@.len() ==> cs_t@[j as int].base_start > pos || (cs_t@[j
            as int].base_start == pos && cs_t@[j as int].base_start != cs_t@[j as int].base_end)
            || (cs_t@[j as int].base_start == pos && pos == g.hi),
        lone_pair(cs_o@, cs_t@) && i == 0 && j == 0 ==> g.any_o && !g.any_t && g.hi
            == cs_o@[0].base_end,
    {
    let ours_here = i < cs_o.len() && cs_o[i].base_start == pos;
    let theirs_here = j < cs_t.len() && cs_t[j].base_start == pos;
    let take_ours: bool = if ours_here && theirs_here {
        !(cs_t[j].base_start == cs_t[j].base_end && cs_o[i].base_start != cs_o[i].base_end)
    } else {
        ours_here
    };
    if take_ours {
        let a = cs_o[i];
        Group {
            i: i + 1,
            j: j,
            hi: a.base_end,
            any_o: true,
            any_t: false,
            last_o_be: a.base_end,
            last_o_oe: a.other_end,
            last_t_be: 0,
            last_t_oe: 0,
        }
    } else {
        let b = cs_t[j];
        Group {
            i: i,
            j: j + 1,
            hi: b.base_end,
            any_o: false,
            any_t: true,
            last_o_be: 0,
            last_o_oe: 0,
            last_t_be: b.base_end,
            last_t_oe: b.other_end,
        }
    }
}

/// Consumes the colliding group of edited spans starting at base position
/// `pos`: the seed span, then every span of either side that collides with
/// the growing group, until both sides are clear of it.
#[verifier::rlimit(100)]
#[verifier::spinoff_prover]
fn absorb_group(
    base: &Vec<Vec<u8>>,
    ours: &Vec<Vec<u8>>,
    theirs: &Vec<Vec<u8>>,
    cs_o: &Vec<Change>,
    cs_t: &Vec<Change>,
    i: usize,
    j: usize,
    pos: usize,
    opos: usize,
    tpos: usize,
) -> (g: Group)
    requires
        changes_wf(cs_o@, view_lines(base@), view_lines(ours@)),
        changes_wf(cs_t@, view_lines(base@), view_lines(theirs@)),
        side_sync(cs_o@, i as int, pos as int, opos as int, view_lines(base@), view_lines(ours@)),
        side_sync(cs_t@, j as int, pos as int, tpos as int, view_lines(base@), view_lines(theirs@)),
        (i < cs_o@.len() && cs_o@[i as int].base_start == pos) || (j < cs_t@.len()
            && cs_t@[j as int].base_start == pos),
    ensures
        i <= g.i <= cs_o@.len(),
        j <= g.j <= cs_t@.len(),
        g.any_o == (g.i > i),
        g.any_t == (g.j > j),
        g.any_o || g.any_t,
        pos <= g.hi <= base@.len(),
        g.any_o ==> g.last_o_be == cs_o@[g.i - 1].base_end && g.last_o_oe == cs_o@[g.i
            - 1].other_end && g.last_o_be <= g.hi && pos <= cs_o@[g.i - 1].base_start,
        g.any_t ==> g.last_t_be == cs_t@[g.j - 1].base_end && g.last_t_oe == cs_t@[g.j
            - 1].other_end && g.last_t_be <= g.hi && pos <= cs_t@[g.j - 1].base_start,
        g.i < cs_o@.len() ==> cs_o@[g.i as int].base_start >= g.hi,
        g.j < cs_t@.len() ==> cs_t@[g.j as int].base_start >= g.hi,
        (g.hi == g.last_o_be && g.any_o) || (g.hi == g.last_t_be && g.any_t),
        g.any_o && g.any_t ==> !no_cross_overlap(cs_o@, cs_t@),
        lone_pair(cs_o@, cs_t@) && i == 0 && j == 0 ==> g.i == 1 && g.j == 1 && g.hi
            == cs_o@[0].base_end,
{
    let ghost bv = view_lines(base@);
    let ghost ov = view_lines(ours@);
    let ghost tv = view_lines(theirs@);
    let n = base.len();
    let ghost i0 = i as int;
    let ghost j0 = j as int;
    let s = seed_group(base, ours, theirs, cs_o, cs_t, i, j, pos, opos, tpos);
    let mut i = s.i;
    let mut j = s.j;
    let lo: usize = pos;
    let mut hi: usize = s.hi;
    let mut any_o: bool = s.any_o;
    let mut any_t: bool = s.any_t;
    let mut last_o_be: usize = s.last_o_be;
    let mut last_o_oe: usize = s.last_o_oe;
    let mut last_t_be: usize = s.last_t_be;
    let mut last_t_oe: usize = s.last_t_oe;
    while (i < cs_o.len() && range_overlaps(lo, hi, &cs_o[i])) || (j < cs_t.len()
        && range_overlaps(lo, hi, &cs_t[j]))
        invariant
            changes_pos_wf(cs_o@, bv, ov),
            changes_pos_wf(cs_t@, bv, tv),
            bv == view_lines(base@),
            ov == view_lines(ours@),
            tv == view_lines(theirs@),
            n == base@.len(),
            i0 <= i <= cs_o@.len(),
            j0 <= j <= cs_t@.len(),
            any_o == (i as int > i0),
            any_t == (j as int > j0),
            any_o || any_t,
            lo <= hi <= n,
            lo == pos,
            side_sync(cs_o@, i0, lo as int, opos as int, bv, ov),
            side_sync(cs_t@, j0, lo as int, tpos as int, bv, tv),
            any_o ==> last_o_be == cs_o@[i - 1].base_end && last_o_oe == cs_o@[i - 1].other_end
                && last_o_be <= hi && lo <= cs_o@[i - 1].base_start,
            any_t ==> last_t_be == cs_t@[j - 1].base_end && last_t_oe == cs_t@[j - 1].other_end
                && last_t_be <= hi && lo <= cs_t@[j - 1].base_start,
            i < cs_o@.len() ==> lo <= cs_o@[i as int].base_start,
            j < cs_t@.len() ==> lo <= cs_t@[j as int].base_start,
            (hi == last_o_be && any_o) || (hi == last_t_be && any_t),
            !any_t && any_o ==> i as int == i0 + 1 && lo == cs_o@[i0].base_start && hi
                == cs_o@[i0].base_end,
            !any_o && any_t ==> j as int == j0 + 1 && lo == cs_t@[j0].base_start && hi
                == cs_t@[j0].base_end,
            !any_o && i0 < cs_o@.len() ==> cs_o@[i0].base_start > lo || (cs_o@[i0].base_start == lo
                && cs_o@[i0].base_start != cs_o@[i0].base_end) || (cs_o@[i0].base_start == lo && lo
                == hi),
            !any_t && j0 < cs_t@.len() ==> cs_t@[j0].base_start > lo || (cs_t@[j0].base_start == lo
                && cs_t@[j0].base_start != cs_t@[j0].base_end) || (cs_t@[j0].base_start == lo && lo
                == hi),
            any_o && any_t ==> !no_cross_overlap(cs_o@, cs_t@),
        decreases cs_o@.len() - i + cs_t@.len() - j,
    {
        if i < cs_o.len() && range_overlaps(lo, hi, &cs_o[i]) {
            let a = cs_o[i];
            proof {
                assert(cs_o@[i as int].base_end <= bv.len());
                if !any_t {
                    assert(cs_o@[i - 1].base_end < a.base_start);
                    assert(false);
                } else if !any_o {
                    assert(spec_overlap(
                        (cs_o@[i as int]).base_start as int,
                        cs_o@[i as int].base_end as int,
                        (cs_t@[j0]).base_start as int,
                        cs_t@[j0].base_end as int,
                    ));
                    lemma_cross_witness(cs_o@, cs_t@, i as int, j0);
                }
            }
            if a.base_end > hi {
                hi = a.base_end;
            }
            any_o = true;
            last_o_be = a.base_end;
            last_o_oe = a.other_end;
            i = i + 1;
        } else {
            let b = cs_t[j];
            proof {
                assert(cs_t@[j as int].base_end <= bv.len());
                if !any_o {
                    assert(cs_t@[j - 1].base_end < b.base_start);
                    assert(false);
                } else if !any_t {
                    assert(spec_overlap(
                        (cs_o@[i0]).base_start as int,
                        cs_o@[i0].base_end as int,
                        (cs_t@[j as int]).base_start as int,
                        cs_t@[j as int].base_end as int,
                    ));
                    lemma_cross_witness(cs_o@, cs_t@, i0, j as int);
                }
            }
            if b.base_end > hi {
                hi = b.base_end;
            }
            any_t = true;
            last_t_be = b.base_end;
            last_t_oe = b.other_end;
            j = j + 1;
        }
    }
    proof {
        lemma_next_clear(cs_o@, bv, ov, i0, i as int, lo as int, hi as int, any_o);
        lemma_next_clear(cs_t@, bv, tv, j0, j as int, lo as int, hi as int, any_t);
    }
    Group {
        i: i,
        j: j,
        hi: hi,
        any_o: any_o,
        any_t: any_t,
        last_o_be: last_o_be,
        last_o_oe: last_o_oe,
        last_t_be: last_t_be,
        last_t_oe: last_t_oe,
    }
}


/// The side position aligned with the group end `hi`, for one side of the
/// merge: past the last consumed span when the side took part in the
/// group, else straight across the gap, where the side equals base.
#[verifier::rlimit(100)]
#[verifier::spinoff_prover]
fn side_end_of(
    base: &Vec<Vec<u8>>,
    side: &Vec<Vec<u8>>,
    cs: &Vec<Change>,
    k0: usize,
    k: usize,
    anyc: bool,
    last_be: usize,
    last_oe: usize,
    pos: usize,
    spos: usize,
    hi: usize,
) -> (e: usize)
    requires
        changes_wf(cs@, view_lines(base@), view_lines(side@)),
        side_sync(cs@, k0 as int, pos as int, spos as int, view_lines(base@), view_lines(side@)),
        anyc == (k > k0),
        k0 <= k <= cs@.len(),
        pos <= hi <= base@.len(),
        anyc ==> last_be == cs@[k - 1].base_end && last_oe == cs@[k - 1].other_end && last_be <= hi
            && pos <= cs@[k - 1].base_start,
        k < cs@.len() ==> cs@[k as int].base_start >= hi,
    ensures
        spos <= e <= side@.len(),
        side_sync(cs@, k as int, hi as int, e as int, view_lines(base@), view_lines(side@)),
        anyc ==> e == last_oe + (hi - last_be),
        !anyc ==> e == spos + (hi - pos) && view_lines(side@).subrange(spos as int, e as int)
            == view_lines(base@).subrange(pos as int, hi as int),
{
    let ghost bv = view_lines(base@);
    let ghost sv = view_lines(side@);
    let slen = side.len();
    if anyc {
        proof {
            lemma_side_end(cs@, bv, sv, k as int, hi as int);
            assert(last_oe as int + (hi as int - last_be as int) <= slen);
            assert(spos as int <= cs@[k0 as int].other_start);
            lemma_other_start_monotone(cs@, bv, sv, k0 as int, k as int - 1);
            assert(spos <= last_oe);
        }
        last_oe + (hi - last_be)
    } else {
        proof {
            lemma_sync_gap_eq(cs@, k0 as int, pos as int, spos as int, bv, sv, pos as int,
                hi as int);
        }
        spos + (hi - pos)
    }
}

/// Other-side span positions increase along a change list.
proof fn lemma_other_start_monotone(
    cs: Seq<Change>,
    base: Seq<Seq<u8>>,
    side: Seq<Seq<u8>>,
    a: int,
    m: int,
)
    requires
        changes_wf(cs, base, side),
        0 <= a <= m < cs.len(),
    ensures
        cs[m].other_start >= cs[a].other_start,
        cs[m].other_end >= cs[a].other_start,
    decreases m - a,
{
    if m > a {
        lemma_other_start_monotone(cs, base, side, a, m - 1);
        assert(cs[m].other_start - cs[m].base_start == cs[m - 1].other_end - cs[m - 1].base_end);
        assert(cs[m - 1].base_end < cs[m].base_start);
    }
}

/// Builds the merged region for the colliding group of edited spans that
/// starts at base position `pos`, classifying it by the byte content of
/// the three sides, and returns it with the advanced span cursors.
#[verifier::rlimit(100)]
#[verifier::spinoff_prover]
fn advance(
    base: &Vec<Vec<u8>>,
    ours: &Vec<Vec<u8>>,
    theirs: &Vec<Vec<u8>>,
    cs_o: &Vec<Change>,
    cs_t: &Vec<Change>,
    i: usize,
    j: usize,
    pos: usize,
    opos: usize,
    tpos: usize,
) -> (res: (usize, usize, MergeRegion))
    requires
        changes_wf(cs_o@, view_lines(base@), view_lines(ours@)),
        changes_wf(cs_t@, view_lines(base@), view_lines(theirs@)),
        side_sync(cs_o@, i as int, pos as int, opos as int, view_lines(base@), view_lines(ours@)),
        side_sync(cs_t@, j as int, pos as int, tpos as int, view_lines(base@), view_lines(theirs@)),
        (i < cs_o@.len() && cs_o@[i as int].base_start == pos) || (j < cs_t@.len()
            && cs_t@[j as int].base_start == pos),
    ensures
        i <= res.0 <= cs_o@.len(),
        j <= res.1 <= cs_t@.len(),
        res.0 + res.1 > i + j,
        res.2.base_start == pos && res.2.ours_start == opos && res.2.theirs_start == tpos,
        pos <= res.2.base_end <= base@.len(),
        opos <= res.2.ours_end <= ours@.len(),
        tpos <= res.2.theirs_end <= theirs@.len(),
        side_sync(
            cs_o@,
            res.0 as int,
            res.2.base_end as int,
            res.2.ours_end as int,
            view_lines(base@),
            view_lines(ours@),
        ),
        side_sync(
            cs_t@,
            res.1 as int,
            res.2.base_end as int,
            res.2.theirs_end as int,
            view_lines(base@),
            view_lines(theirs@),
        ),
        region_class_ok(res.2, view_lines(base@), view_lines(ours@), view_lines(theirs@)),
        cs_o@.len() == 0 ==> res.2.ours_start == res.2.base_start && res.2.ours_end
            == res.2.base_end,
        cs_t@.len() == 0 ==> res.2.theirs_start == res.2.base_start && res.2.theirs_end
            == res.2.base_end,
        no_cross_overlap(cs_o@, cs_t@) ==> (res.2.class is Stable || res.2.class is OursChanged
            || res.2.class is TheirsChanged),
        lone_pair(cs_o@, cs_t@) && i == 0 && j == 0 ==> res.0 == 1 && res.1 == 1
            && res.2.base_end == cs_o@[0].base_end && res.2.ours_start == cs_o@[0].other_start
            && res.2.ours_end == cs_o@[0].other_end && res.2.theirs_start == cs_t@[0].other_start
            && res.2.theirs_end == cs_t@[0].other_end,
{
    let ghost bv = view_lines(base@);
    let ghost ov = view_lines(ours@);
    let ghost tv = view_lines(theirs@);
    let g = absorb_group(base, ours, theirs, cs_o, cs_t, i, j, pos, opos, tpos);
    let hi = g.hi;
    let oend: usize = side_end_of(
        base,
        ours,
        cs_o,
        i,
        g.i,
        g.any_o,
        g.last_o_be,
        g.last_o_oe,
        pos,
        opos,
        hi,
    );
    let tend: usize = side_end_of(
        base,
        theirs,
        cs_t,
        j,
        g.j,
        g.any_t,
        g.last_t_be,
        g.last_t_oe,
        pos,
        tpos,
        hi,
    );
    let c = classify(base, ours, theirs, pos, hi, opos, oend, tpos, tend);
    let r = MergeRegion {
        base_start: pos,
        base_end: hi,
        ours_start: opos,
        ours_end: oend,
        theirs_start: tpos,
        theirs_end: tend,
        class: c,
    };
    proof {
        reveal(region_class_ok);
        assert(region_class_ok(r, bv, ov, tv));
        if !g.any_o {
            assert(ov.subrange(opos as int, oend as int) == bv.subrange(pos as int, hi as int));
            assert(region_ours_bytes(r, ov) == region_base_bytes(r, bv));
        }
        if !g.any_t {
            assert(tv.subrange(tpos as int, tend as int) == bv.subrange(pos as int, hi as int));
            assert(region_theirs_bytes(r, tv) == region_base_bytes(r, bv));
        }
        if no_cross_overlap(cs_o@, cs_t@) {
            assert(!(g.any_o && g.any_t));
            if !g.any_o {
                assert(r.class is Stable || r.class is TheirsChanged);
            } else {
                assert(r.class is Stable || r.class is OursChanged);
            }
        }
        if cs_o@.len() == 0 {
            assert(opos == pos);
        }
        if cs_t@.len() == 0 {
            assert(tpos == pos);
        }
        if lone_pair(cs_o@, cs_t@) && i == 0 && j == 0 {
            assert(r.ours_start == cs_o@[0].other_start);
            assert(r.ours_end == cs_o@[0].other_end);
            assert(r.theirs_start == cs_t@[0].other_start);
            assert(r.theirs_end == cs_t@[0].other_end);
        }
    }
    (g.i, g.j, r)
}

/// Appending a region whose three starts sit at the chain's ends extends
/// the chain to the region's ends.
#[verifier::rlimit(100)]
#[verifier::spinoff_prover]
proof fn lemma_chain_push(
    rs: Seq<MergeRegion>,
    bv: Seq<Seq<u8>>,
    ov: Seq<Seq<u8>>,
    tv: Seq<Seq<u8>>,
    r: MergeRegion,
)
    requires
        regions_chain(rs, bv, ov, tv, r.base_start as int, r.ours_start as int,
            r.theirs_start as int),
        r.base_start <= r.base_end <= bv.len(),
        r.ours_start <= r.ours_end <= ov.len(),
        r.theirs_start <= r.theirs_end <= tv.len(),
        region_class_ok(r, bv, ov, tv),
    ensures
        regions_chain(rs.push(r), bv, ov, tv, r.base_end as int, r.ours_end as int,
            r.theirs_end as int),
        all_ours_base(rs) && r.ours_start == r.base_start && r.ours_end == r.base_end
            ==> all_ours_base(rs.push(r)),
        all_theirs_base(rs) && r.theirs_start == r.base_start && r.theirs_end == r.base_end
            ==> all_theirs_base(rs.push(r)),
        all_single_sided(rs) && (r.class is Stable || r.class is OursChanged || r.class
            is TheirsChanged) ==> all_single_sided(rs.push(r)),
{
    reveal(regions_chain);
    let s1 = rs.push(r);
    assert forall|k: int| 0 <= k < s1.len() implies #[trigger] s1[k] == (if k < rs.len() {
        rs[k]
    } else {
        r
    }) by {}
    assert(regions_chain(s1, bv, ov, tv, r.base_end as int, r.ours_end as int,
        r.theirs_end as int));
}

/// Appends one region to the chain, carrying the chain and the
/// side-alignment facts across the push.
#[verifier::rlimit(100)]
#[verifier::spinoff_prover]
fn push_region(
    rs: &mut Vec<MergeRegion>,
    base: &Vec<Vec<u8>>,
    ours: &Vec<Vec<u8>>,
    theirs: &Vec<Vec<u8>>,
    r: MergeRegion,
)
    requires
        regions_chain(
            old(rs)@,
            view_lines(base@),
            view_lines(ours@),
            view_lines(theirs@),
            r.base_start as int,
            r.ours_start as int,
            r.theirs_start as int,
        ),
        r.base_start <= r.base_end <= base@.len(),
        r.ours_start <= r.ours_end <= ours@.len(),
        r.theirs_start <= r.theirs_end <= theirs@.len(),
        region_class_ok(r, view_lines(base@), view_lines(ours@), view_lines(theirs@)),
    ensures
        final(rs)@ == old(rs)@.push(r),
        regions_chain(
            final(rs)@,
            view_lines(base@),
            view_lines(ours@),
            view_lines(theirs@),
            r.base_end as int,
            r.ours_end as int,
            r.theirs_end as int,
        ),
        all_ours_base(old(rs)@) && r.ours_start == r.base_start && r.ours_end == r.base_end
            ==> all_ours_base(final(rs)@),
        all_theirs_base(old(rs)@) && r.theirs_start == r.base_start && r.theirs_end == r.base_end
            ==> all_theirs_base(final(rs)@),
        all_single_sided(old(rs)@) && (r.class is Stable || r.class is OursChanged || r.class
            is TheirsChanged) ==> all_single_sided(final(rs)@),
{
    let ghost bv = view_lines(base@);
    let ghost ov = view_lines(ours@);
    let ghost tv = view_lines(theirs@);
    let ghost s0 = rs@;
    rs.push(r);
    proof {
        lemma_chain_push(s0, bv, ov, tv, r);
        assert(rs@ == s0.push(r));
    }
}

/// Builds the merged partition of the base line space from the two sides'
/// edited spans, walking base positions in increasing order.  Spans that
/// collide combine into one region, ours ordered before theirs for
/// simultaneous insertions at one offset; a span touching only one side
/// yields a single-side region; everything in between is stable.
#[verifier::rlimit(100)]
#[verifier::spinoff_prover]
pub fn merge_regions(
    base: &Vec<Vec<u8>>,
    ours: &Vec<Vec<u8>>,
    theirs: &Vec<Vec<u8>>,
    cs_o: &Vec<Change>,
    cs_t: &Vec<Change>,
) -> (rs: Vec<MergeRegion>)
    requires
        changes_wf(cs_o@, view_lines(base@), view_lines(ours@)),
        changes_wf(cs_t@, view_lines(base@), view_lines(theirs@)),
    ensures
        regions_wf(rs@, view_lines(base@), view_lines(ours@), view_lines(theirs@)),
        cs_o@.len() == 0 ==> all_ours_base(rs@),
        cs_t@.len() == 0 ==> all_theirs_base(rs@),
        no_cross_overlap(cs_o@, cs_t@) ==> all_single_sided(rs@),
        lone_pair(cs_o@, cs_t@) ==> exists|k: int|
            0 <= k < rs@.len() && (#[trigger] rs@[k]).base_start == cs_o@[0].base_start
                && rs@[k].base_end == cs_o@[0].base_end && rs@[k].ours_start
                == cs_o@[0].other_start && rs@[k].ours_end == cs_o@[0].other_end
                && rs@[k].theirs_start == cs_t@[0].other_start && rs@[k].theirs_end
                == cs_t@[0].other_end,
{
    let ghost bv = view_lines(base@);
    let ghost ov = view_lines(ours@);
    let ghost tv = view_lines(theirs@);
    let n = base.len();
    let olen = ours.len();
    let tlen = theirs.len();
    let mut rs: Vec<MergeRegion> = Vec::new();
    let mut i: usize = 0;
    let mut j: usize = 0;
    let mut pos: usize = 0;
    let mut opos: usize = 0;
    let mut tpos: usize = 0;
    proof {
        reveal(regions_chain);
        assert(regions_chain(rs@, bv, ov, tv, 0, 0, 0));
    }
    while i < cs_o.len() || j < cs_t.len()
        invariant
            changes_wf(cs_o@, bv, ov),
            changes_wf(cs_t@, bv, tv),
            bv == view_lines(base@),
            ov == view_lines(ours@),
            tv == view_lines(theirs@),
            n == base@.len(),
            olen == ours@.len(),
            tlen == theirs@.len(),
            side_sync(cs_o@, i as int, pos as int, opos as int, bv, ov),
            side_sync(cs_t@, j as int, pos as int, tpos as int, bv, tv),
            regions_chain(rs@, bv, ov, tv, pos as int, opos as int, tpos as int),
            cs_o@.len() == 0 ==> all_ours_base(rs@),
            cs_t@.len() == 0 ==> all_theirs_base(rs@),
            no_cross_overlap(cs_o@, cs_t@) ==> all_single_sided(rs@),
            lone_pair(cs_o@, cs_t@) ==> i == j,
            lone_pair(cs_o@, cs_t@) && i as int == 1 ==> exists|k: int|
                0 <= k < rs@.len() && (#[trigger] rs@[k]).base_start == cs_o@[0].base_start
                    && rs@[k].base_end == cs_o@[0].base_end && rs@[k].ours_start
                    == cs_o@[0].other_start && rs@[k].ours_end == cs_o@[0].other_end
                    && rs@[k].theirs_start == cs_t@[0].other_start && rs@[k].theirs_end
                    == cs_t@[0].other_end,
        decreases cs_o@.len() - i + cs_t@.len() - j,
    {
        let nstart: usize = if i < cs_o.len() && j < cs_t.len() {
            if cs_o[i].base_start <= cs_t[j].base_start {
                cs_o[i].base_start
            } else {
                cs_t[j].base_start
            }
        } else if i < cs_o.len() {
            cs_o[i].base_start
        } else {
            cs_t[j].base_start
        };
        push_stable(
            &mut rs,
            base,
            ours,
            theirs,
            cs_o,
            cs_t,
            Ghost(i as int),
            Ghost(j as int),
            pos,
            opos,
            tpos,
            nstart,
        );
        let gap = nstart - pos;
        let oposn = opos + gap;
        let tposn = tpos + gap;
        let (ni, nj, r) = advance(base, ours, theirs, cs_o, cs_t, i, j, nstart, oposn, tposn);
        let ghost rs1 = rs@;
        push_region(&mut rs, base, ours, theirs, r);
        proof {
            if lone_pair(cs_o@, cs_t@) {
                assert(i == 0 && j == 0);
                assert(ni == 1 && nj == 1);
                assert(rs@[rs@.len() - 1] == r);
            }
        }
        i = ni;
        j = nj;
        pos = r.base_end;
        opos = r.ours_end;
        tpos = r.theirs_end;
    }
    close_regions(&mut rs, base, ours, theirs, cs_o, cs_t, Ghost(i as int), Ghost(j as int),
        pos, opos, tpos);
    rs
}

/// Emits the trailing stable region and closes the partition: the chain
/// then covers all three sequences in full.
#[verifier::rlimit(100)]
#[verifier::spinoff_prover]
fn close_regions(
    rs: &mut Vec<MergeRegion>,
    base: &Vec<Vec<u8>>,
    ours: &Vec<Vec<u8>>,
    theirs: &Vec<Vec<u8>>,
    cs_o: &Vec<Change>,
    cs_t: &Vec<Change>,
    Ghost(i): Ghost<int>,
    Ghost(j): Ghost<int>,
    pos: usize,
    opos: usize,
    tpos: usize,
)
    requires
        changes_wf(cs_o@, view_lines(base@), view_lines(ours@)),
        changes_wf(cs_t@, view_lines(base@), view_lines(theirs@)),
        i == cs_o@.len(),
        j == cs_t@.len(),
        side_sync(cs_o@, i, pos as int, opos as int, view_lines(base@), view_lines(ours@)),
        side_sync(cs_t@, j, pos as int, tpos as int, view_lines(base@), view_lines(theirs@)),
        regions_chain(
            old(rs)@,
            view_lines(base@),
            view_lines(ours@),
            view_lines(theirs@),
            pos as int,
            opos as int,
            tpos as int,
        ),
    ensures
        regions_wf(final(rs)@, view_lines(base@), view_lines(ours@), view_lines(theirs@)),
        all_ours_base(old(rs)@) && cs_o@.len() == 0 ==> all_ours_base(final(rs)@),
        all_theirs_base(old(rs)@) && cs_t@.len() == 0 ==> all_theirs_base(final(rs)@),
        all_single_sided(old(rs)@) ==> all_single_sided(final(rs)@),
        forall|k: int| 0 <= k < old(rs)@.len() ==> final(rs)@[k] == old(rs)@[k],
        final(rs)@.len() >= old(rs)@.len(),
{
    let ghost bv = view_lines(base@);
    let ghost ov = view_lines(ours@);
    let ghost tv = view_lines(theirs@);
    let n = base.len();
    let olen = ours.len();
    let tlen = theirs.len();
    push_stable(rs, base, ours, theirs, cs_o, cs_t, Ghost(i), Ghost(j), pos, opos, tpos, n);
    proof {
        if cs_o@.len() > 0 {
            assert(olen - cs_o@[cs_o@.len() - 1].other_end == n - cs_o@[cs_o@.len()
                - 1].base_end);
        }
        if cs_t@.len() > 0 {
            assert(tlen - cs_t@[cs_t@.len() - 1].other_end == n - cs_t@[cs_t@.len()
                - 1].base_end);
        }
        assert(opos as int + (n as int - pos as int) == olen);
        assert(tpos as int + (n as int - pos as int) == tlen);
    }
}

} // verus!
