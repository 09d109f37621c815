//! The text merge entry point: three byte buffers in, merged bytes and a
//! resolution out.
//!
//! Data flow: the three buffers are split into lines, the base is diffed
//! against each side, the two edit scripts are merged into classified
//! regions, and the regions are rendered into the caller-owned output
//! buffer, which the call only appends to.

use vstd::prelude::*;
use crate::lines::{view_lines, line_seq, split_lines, lemma_line_seq_flatten, lemma_subrange_split};
use vstd::seq_lib::lemma_flatten_concat;
use crate::diff::{diff, changes_of};
use crate::merge::{
    MergeRegion, merge_regions, regions_chain, all_ours_base, all_theirs_base,
};
use crate::render::{
    Labels, Options, Resolution, render_regions, spec_render, spec_render_region, has_conflict,
    lab,
};

verus! {

/// When every region renders to exactly its theirs-side bytes, the whole
/// output is the theirs buffer.
#[verifier::rlimit(100)]
#[verifier::spinoff_prover]
proof fn lemma_render_covers_theirs(
    rs: Seq<MergeRegion>,
    bv: Seq<Seq<u8>>,
    ov: Seq<Seq<u8>>,
    tv: Seq<Seq<u8>>,
    lo: Option<Seq<u8>>,
    lb: Option<Seq<u8>>,
    lt: Option<Seq<u8>>,
    opts: Options,
    pe: int,
    oe: int,
    te: int,
)
    requires
        regions_chain(rs, bv, ov, tv, pe, oe, te),
        0 <= te <= tv.len(),
        forall|k: int|
            0 <= k < rs.len() ==> spec_render_region(#[trigger] rs[k], bv, ov, tv, lo, lb, lt,
                opts) == tv.subrange(rs[k].theirs_start as int, rs[k].theirs_end as int).flatten(),
    ensures
        spec_render(rs, bv, ov, tv, lo, lb, lt, opts) == tv.subrange(0, te).flatten(),
    decreases rs.len(),
{
    reveal(crate::merge::regions_chain);
    if rs.len() == 0 {
        assert(tv.subrange(0, 0) =~= Seq::<Seq<u8>>::empty());
        assert(spec_render(rs, bv, ov, tv, lo, lb, lt, opts) =~= tv.subrange(0, 0).flatten());
    } else {
        let rr = rs.drop_last();
        let last = rs[rs.len() - 1];
        assert(rs =~= rr.push(last));
        assert(regions_chain(rr, bv, ov, tv, last.base_start as int, last.ours_start as int,
            last.theirs_start as int)) by {
            if rr.len() > 0 {
                assert(rs[rs.len() - 1].base_start == rs[rs.len() - 2].base_end);
            }
        }
        lemma_render_covers_theirs(rr, bv, ov, tv, lo, lb, lt, opts, last.base_start as int,
            last.ours_start as int, last.theirs_start as int);
        crate::render::lemma_render_push(rr, last, bv, ov, tv, lo, lb, lt, opts);
        let ts = last.theirs_start as int;
        lemma_subrange_split(tv, 0, ts, te);
        lemma_flatten_concat(tv.subrange(0, ts), tv.subrange(ts, te));
        assert(spec_render(rs, bv, ov, tv, lo, lb, lt, opts) == tv.subrange(0, ts).flatten()
            + tv.subrange(ts, te).flatten());
    }
}

/// When every region renders to exactly its ours-side bytes, the whole
/// output is the ours buffer.
#[verifier::rlimit(100)]
#[verifier::spinoff_prover]
proof fn lemma_render_covers_ours(
    rs: Seq<MergeRegion>,
    bv: Seq<Seq<u8>>,
    ov: Seq<Seq<u8>>,
    tv: Seq<Seq<u8>>,
    lo: Option<Seq<u8>>,
    lb: Option<Seq<u8>>,
    lt: Option<Seq<u8>>,
    opts: Options,
    pe: int,
    oe: int,
    te: int,
)
    requires
        regions_chain(rs, bv, ov, tv, pe, oe, te),
        0 <= oe <= ov.len(),
        forall|k: int|
            0 <= k < rs.len() ==> spec_render_region(#[trigger] rs[k], bv, ov, tv, lo, lb, lt,
                opts) == ov.subrange(rs[k].ours_start as int, rs[k].ours_end as int).flatten(),
    ensures
        spec_render(rs, bv, ov, tv, lo, lb, lt, opts) == ov.subrange(0, oe).flatten(),
    decreases rs.len(),
{
    reveal(crate::merge::regions_chain);
    if rs.len() == 0 {
        assert(ov.subrange(0, 0) =~= Seq::<Seq<u8>>::empty());
        assert(spec_render(rs, bv, ov, tv, lo, lb, lt, opts) =~= ov.subrange(0, 0).flatten());
    } else {
        let rr = rs.drop_last();
        let last = rs[rs.len() - 1];
        assert(rs =~= rr.push(last));
        assert(regions_chain(rr, bv, ov, tv, last.base_start as int, last.ours_start as int,
            last.theirs_start as int)) by {
            if rr.len() > 0 {
                assert(rs[rs.len() - 1].base_start == rs[rs.len() - 2].base_end);
            }
        }
        lemma_render_covers_ours(rr, bv, ov, tv, lo, lb, lt, opts, last.base_start as int,
            last.ours_start as int, last.theirs_start as int);
        crate::render::lemma_render_push(rr, last, bv, ov, tv, lo, lb, lt, opts);
        let osr = last.ours_start as int;
        lemma_subrange_split(ov, 0, osr, oe);
        lemma_flatten_concat(ov.subrange(0, osr), ov.subrange(osr, oe));
        assert(spec_render(rs, bv, ov, tv, lo, lb, lt, opts) == ov.subrange(0, osr).flatten()
            + ov.subrange(osr, oe).flatten());
    }
}

/// A side whose edits are empty leaves every region following the other
/// side: the render is the whole theirs buffer and nothing conflicts.
#[verifier::rlimit(100)]
#[verifier::spinoff_prover]
proof fn lemma_ours_unchanged(
    rs: Seq<MergeRegion>,
    bv: Seq<Seq<u8>>,
    ov: Seq<Seq<u8>>,
    tv: Seq<Seq<u8>>,
    lo: Option<Seq<u8>>,
    lb: Option<Seq<u8>>,
    lt: Option<Seq<u8>>,
    opts: Options,
)
    requires
        regions_chain(rs, bv, ov, tv, bv.len() as int, ov.len() as int, tv.len() as int),
        all_ours_base(rs),
        ov == bv,
    ensures
        spec_render(rs, bv, ov, tv, lo, lb, lt, opts) == tv.subrange(0, tv.len() as int).flatten(),
        !has_conflict(rs),
{
    reveal(crate::merge::regions_chain);
    reveal(crate::merge::region_class_ok);
    assert forall|k: int| 0 <= k < rs.len() implies spec_render_region(#[trigger] rs[k], bv, ov,
        tv, lo, lb, lt, opts) == tv.subrange(rs[k].theirs_start as int,
        rs[k].theirs_end as int).flatten() && !(rs[k].class is BothChangedConflicting) by {
        let r = rs[k];
        assert(ov.subrange(r.ours_start as int, r.ours_end as int) == bv.subrange(
            r.base_start as int,
            r.base_end as int,
        ));
        assert(r.class is Stable || r.class is TheirsChanged);
    }
    lemma_render_covers_theirs(rs, bv, ov, tv, lo, lb, lt, opts, bv.len() as int, ov.len() as int,
        tv.len() as int);
}

/// Symmetrically, when theirs made no edits the render is the whole ours
/// buffer and nothing conflicts.
#[verifier::rlimit(100)]
#[verifier::spinoff_prover]
proof fn lemma_theirs_unchanged(
    rs: Seq<MergeRegion>,
    bv: Seq<Seq<u8>>,
    ov: Seq<Seq<u8>>,
    tv: Seq<Seq<u8>>,
    lo: Option<Seq<u8>>,
    lb: Option<Seq<u8>>,
    lt: Option<Seq<u8>>,
    opts: Options,
)
    requires
        regions_chain(rs, bv, ov, tv, bv.len() as int, ov.len() as int, tv.len() as int),
        all_theirs_base(rs),
        tv == bv,
    ensures
        spec_render(rs, bv, ov, tv, lo, lb, lt, opts) == ov.subrange(0, ov.len() as int).flatten(),
        !has_conflict(rs),
{
    reveal(crate::merge::regions_chain);
    reveal(crate::merge::region_class_ok);
    assert forall|k: int| 0 <= k < rs.len() implies spec_render_region(#[trigger] rs[k], bv, ov,
        tv, lo, lb, lt, opts) == ov.subrange(rs[k].ours_start as int,
        rs[k].ours_end as int).flatten() && !(rs[k].class is BothChangedConflicting) by {
        let r = rs[k];
        assert(tv.subrange(r.theirs_start as int, r.theirs_end as int) == bv.subrange(
            r.base_start as int,
            r.base_end as int,
        ));
        assert(r.class is Stable || r.class is OursChanged);
    }
    lemma_render_covers_ours(rs, bv, ov, tv, lo, lb, lt, opts, bv.len() as int, ov.len() as int,
        tv.len() as int);
}

/// Merges two divergent edits of one file relative to their common
/// ancestor, appending the merged bytes to `out`.
///
/// An input equal to the ancestor contributes nothing of its own: the
/// output is then exactly the other side, and the merge is complete.  In
/// particular, three identical inputs reproduce the ancestor, for every
/// conflict style.  An automatic-resolution override leaves no region
/// unresolved, so the merge is complete whenever one is set.
#[verifier::rlimit(100)]
#[verifier::spinoff_prover]
pub fn merge_text(
    ours: &Vec<u8>,
    base: &Vec<u8>,
    theirs: &Vec<u8>,
    labels: &Labels,
    opts: &Options,
    out: &mut Vec<u8>,
) -> (res: Resolution)
    ensures
        exists|rs: Seq<MergeRegion>|
            {
                &&& crate::merge::regions_wf(
                    rs,
                    line_seq(base@),
                    line_seq(ours@),
                    line_seq(theirs@),
                )
                &&& final(out)@ == old(out)@ + #[trigger] spec_render(
                    rs,
                    line_seq(base@),
                    line_seq(ours@),
                    line_seq(theirs@),
                    lab(labels.ours),
                    lab(labels.base),
                    lab(labels.theirs),
                    *opts,
                )
                &&& (res is Conflict <==> opts.on_conflict is None && has_conflict(rs))
            },
        ours@ == base@ ==> res is Complete && final(out)@ == old(out)@ + theirs@,
        theirs@ == base@ ==> res is Complete && final(out)@ == old(out)@ + ours@,
        ours@ == base@ && theirs@ == base@ ==> res is Complete && final(out)@ == old(out)@
            + base@,
        opts.on_conflict is Some ==> res is Complete,
        res is Complete || res is Conflict,
{
    let bl = split_lines(base);
    let ol = split_lines(ours);
    let tl = split_lines(theirs);
    let ghost bv = view_lines(bl@);
    let ghost ov = view_lines(ol@);
    let ghost tv = view_lines(tl@);
    let so = diff(&bl, &ol);
    let st = diff(&bl, &tl);
    let co = changes_of(&so, Ghost(bv), Ghost(ov));
    let ct = changes_of(&st, Ghost(bv), Ghost(tv));
    let rs = merge_regions(&bl, &ol, &tl, &co, &ct);
    let ghost lo = lab(labels.ours);
    let ghost lb = lab(labels.base);
    let ghost lt = lab(labels.theirs);
    let res = render_regions(&bl, &ol, &tl, &rs, labels, opts, out);
    proof {
        if ours@ == base@ {
            assert(ov == bv);
            assert(co@.len() == 0);
            assert(all_ours_base(rs@));
            lemma_ours_unchanged(rs@, bv, ov, tv, lo, lb, lt, *opts);
            assert(tv.subrange(0, tv.len() as int) =~= tv);
            lemma_line_seq_flatten(theirs@);
        }
        if theirs@ == base@ {
            assert(tv == bv);
            assert(ct@.len() == 0);
            assert(all_theirs_base(rs@));
            lemma_theirs_unchanged(rs@, bv, ov, tv, lo, lb, lt, *opts);
            assert(ov.subrange(0, ov.len() as int) =~= ov);
            lemma_line_seq_flatten(ours@);
        }
        assert(bv == line_seq(base@) && ov == line_seq(ours@) && tv == line_seq(theirs@));
        assert(crate::merge::regions_wf(rs@, line_seq(base@), line_seq(ours@), line_seq(
            theirs@,
        )) && out@ == old(out)@ + spec_render(rs@, line_seq(base@), line_seq(ours@), line_seq(
            theirs@,
        ), lab(labels.ours), lab(labels.base), lab(labels.theirs), *opts) && (res is Conflict <==> opts.on_conflict is None
            && has_conflict(rs@)));
    }
    res
}

} // verus!
