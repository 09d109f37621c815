//! Laws that relate the rendering styles and the override modes to one
//! another, stated over the same spec functions that the renderer's own
//! contract uses.

use vstd::prelude::*;
use crate::merge::{MergeRegion, all_single_sided};
use crate::render::{
    Options, ResolveWith, ConflictStyle, spec_render, spec_render_region, spec_render_conflict,
    marker_line, has_conflict,
};

verus! {

/// For one conflicting region, the diff3 rendering equals the merge
/// rendering with exactly the ancestor marker line and the ancestor
/// content inserted between the ours block and the separator: the prefix
/// up to and including the ours content, and the suffix from the
/// separator on, are shared byte for byte.
pub proof fn lemma_diff3_extends_merge(
    o: Seq<Seq<u8>>,
    b: Seq<Seq<u8>>,
    t: Seq<Seq<u8>>,
    lo: Option<Seq<u8>>,
    lb: Option<Seq<u8>>,
    lt: Option<Seq<u8>>,
)
    ensures
        spec_render_conflict(o, b, t, lo, lb, lt, ConflictStyle::Merge) == (marker_line(60u8, lo)
            + o.flatten()) + (marker_line(61u8, Option::None) + t.flatten() + marker_line(
            62u8,
            lt,
        )),
        spec_render_conflict(o, b, t, lo, lb, lt, ConflictStyle::Diff3) == (marker_line(60u8, lo)
            + o.flatten()) + (marker_line(124u8, lb) + b.flatten()) + (marker_line(
            61u8,
            Option::None,
        ) + t.flatten() + marker_line(62u8, lt)),
{
    assert(spec_render_conflict(o, b, t, lo, lb, lt, ConflictStyle::Merge) =~= (marker_line(
        60u8,
        lo,
    ) + o.flatten()) + (marker_line(61u8, Option::None) + t.flatten() + marker_line(62u8, lt)));
    assert(spec_render_conflict(o, b, t, lo, lb, lt, ConflictStyle::Diff3) =~= (marker_line(
        60u8,
        lo,
    ) + o.flatten()) + (marker_line(124u8, lb) + b.flatten()) + (marker_line(61u8, Option::None)
        + t.flatten() + marker_line(62u8, lt)));
}

/// A conflicting region under the union override renders as the ours
/// content immediately followed by the theirs content, with no markers
/// and nothing dropped or deduplicated.
pub proof fn lemma_union_override(
    r: MergeRegion,
    bv: Seq<Seq<u8>>,
    ov: Seq<Seq<u8>>,
    tv: Seq<Seq<u8>>,
    lo: Option<Seq<u8>>,
    lb: Option<Seq<u8>>,
    lt: Option<Seq<u8>>,
    style: ConflictStyle,
)
    requires
        r.class is BothChangedConflicting,
    ensures
        spec_render_region(
            r,
            bv,
            ov,
            tv,
            lo,
            lb,
            lt,
            Options { style: style, on_conflict: Some(ResolveWith::Union) },
        ) == ov.subrange(r.ours_start as int, r.ours_end as int).flatten() + tv.subrange(
            r.theirs_start as int,
            r.theirs_end as int,
        ).flatten(),
{
}

/// Rendering distributes over concatenation of region lists.
pub proof fn lemma_render_concat(
    a: Seq<MergeRegion>,
    b: Seq<MergeRegion>,
    bv: Seq<Seq<u8>>,
    ov: Seq<Seq<u8>>,
    tv: Seq<Seq<u8>>,
    lo: Option<Seq<u8>>,
    lb: Option<Seq<u8>>,
    lt: Option<Seq<u8>>,
    opts: Options,
)
    ensures
        spec_render(a + b, bv, ov, tv, lo, lb, lt, opts) == spec_render(
            a,
            bv,
            ov,
            tv,
            lo,
            lb,
            lt,
            opts,
        ) + spec_render(b, bv, ov, tv, lo, lb, lt, opts),
    decreases a.len(),
{
    if a.len() == 0 {
        assert(a + b =~= b);
        assert(Seq::<u8>::empty() + spec_render(b, bv, ov, tv, lo, lb, lt, opts) =~= spec_render(
            b,
            bv,
            ov,
            tv,
            lo,
            lb,
            lt,
            opts,
        ));
    } else {
        assert((a + b)[0] == a[0]);
        assert((a + b).skip(1) =~= a.skip(1) + b);
        lemma_render_concat(a.skip(1), b, bv, ov, tv, lo, lb, lt, opts);
        assert(spec_render_region(a[0], bv, ov, tv, lo, lb, lt, opts) + (spec_render(
            a.skip(1),
            bv,
            ov,
            tv,
            lo,
            lb,
            lt,
            opts,
        ) + spec_render(b, bv, ov, tv, lo, lb, lt, opts)) =~= (spec_render_region(
            a[0],
            bv,
            ov,
            tv,
            lo,
            lb,
            lt,
            opts,
        ) + spec_render(a.skip(1), bv, ov, tv, lo, lb, lt, opts)) + spec_render(
            b,
            bv,
            ov,
            tv,
            lo,
            lb,
            lt,
            opts,
        ));
    }
}

/// Whatever surrounds it, a conflicting region without an override
/// renders its marker block into the output in place: the output splits
/// into the rendering of the regions before it, the region's own marker
/// block in the configured style, and the rendering of the regions after
/// it.
pub proof fn lemma_conflict_block_in_output(
    rs: Seq<MergeRegion>,
    k: int,
    bv: Seq<Seq<u8>>,
    ov: Seq<Seq<u8>>,
    tv: Seq<Seq<u8>>,
    lo: Option<Seq<u8>>,
    lb: Option<Seq<u8>>,
    lt: Option<Seq<u8>>,
    opts: Options,
)
    requires
        0 <= k < rs.len(),
        rs[k].class is BothChangedConflicting,
        opts.on_conflict is None,
    ensures
        spec_render(rs, bv, ov, tv, lo, lb, lt, opts) == spec_render(
            rs.subrange(0, k),
            bv,
            ov,
            tv,
            lo,
            lb,
            lt,
            opts,
        ) + spec_render_conflict(
            ov.subrange(rs[k].ours_start as int, rs[k].ours_end as int),
            bv.subrange(rs[k].base_start as int, rs[k].base_end as int),
            tv.subrange(rs[k].theirs_start as int, rs[k].theirs_end as int),
            lo,
            lb,
            lt,
            opts.style,
        ) + spec_render(rs.subrange(k + 1, rs.len() as int), bv, ov, tv, lo, lb, lt, opts),
{
    let front = rs.subrange(0, k);
    let mid = rs.subrange(k, k + 1);
    let back = rs.subrange(k + 1, rs.len() as int);
    assert(rs =~= front + (mid + back));
    lemma_render_concat(front, mid + back, bv, ov, tv, lo, lb, lt, opts);
    lemma_render_concat(mid, back, bv, ov, tv, lo, lb, lt, opts);
    assert(mid[0] == rs[k]);
    assert(mid.skip(1) =~= Seq::<MergeRegion>::empty());
    assert(spec_render(mid.skip(1), bv, ov, tv, lo, lb, lt, opts) == Seq::<u8>::empty());
    assert(spec_render_region(rs[k], bv, ov, tv, lo, lb, lt, opts) + Seq::<u8>::empty()
        =~= spec_render_region(rs[k], bv, ov, tv, lo, lb, lt, opts));
    assert(spec_render(mid, bv, ov, tv, lo, lb, lt, opts) == spec_render_region(rs[k], bv, ov, tv,
        lo, lb, lt, opts));
    assert((spec_render(front, bv, ov, tv, lo, lb, lt, opts) + (spec_render_region(rs[k], bv, ov,
        tv, lo, lb, lt, opts) + spec_render(back, bv, ov, tv, lo, lb, lt, opts)))
        =~= spec_render(front, bv, ov, tv, lo, lb, lt, opts) + spec_render_region(rs[k], bv, ov,
        tv, lo, lb, lt, opts) + spec_render(back, bv, ov, tv, lo, lb, lt, opts));
}

/// A merge whose regions each carry changes from at most one side — as
/// when the two sides edited non-overlapping base ranges — leaves nothing
/// unresolved: no region is rendered with markers and the resolution is
/// complete.
pub proof fn lemma_single_sided_no_conflict(rs: Seq<MergeRegion>)
    requires
        all_single_sided(rs),
    ensures
        !has_conflict(rs),
{
    if has_conflict(rs) {
        let k = choose|k: int|
            0 <= k < rs.len() && (#[trigger] rs[k]).class is BothChangedConflicting;
        assert(rs[k].class is Stable || rs[k].class is OursChanged || rs[k].class
            is TheirsChanged);
    }
}

} // verus!
