//! The conflict renderer: serializing classified regions into output
//! bytes, in the selected marker style, honouring an automatic-resolution
//! override.
//!
//! Resolved regions are emitted verbatim, byte-exact including
//! terminators.  A conflicting region without an override is wrapped in
//! marker lines; with an override the chosen side's bytes are emitted and
//! the call still counts as complete.

use vstd::prelude::*;
use crate::lines::{view_lines, append_lines, line_eq_at};
use crate::merge::{MergeRegion, Classification, regions_wf};

verus! {

#[derive(Clone, Copy, PartialEq, Eq, Structural, Debug)]
pub enum ConflictStyle {
    Merge,
    Diff3,
    ZealousDiff3,
}

#[derive(Clone, Copy, PartialEq, Eq, Structural, Debug)]
pub enum ResolveWith {
    Ours,
    Theirs,
    Union,
    Ancestor,
}

/// Per-call rendering options.
#[derive(Clone, Copy, Debug)]
pub struct Options {
    pub style: ConflictStyle,
    pub on_conflict: Option<ResolveWith>,
}

/// Optional marker labels for the three sides.
#[derive(Debug)]
pub struct Labels {
    pub ours: Option<Vec<u8>>,
    pub base: Option<Vec<u8>>,
    pub theirs: Option<Vec<u8>>,
}

/// The byte view of an optional label.
pub open spec fn lab(l: Option<Vec<u8>>) -> Option<Seq<u8>> {
    match l {
        Option::Some(v) => Option::Some(v@),
        Option::None => Option::None,
    }
}

/// One marker line: seven copies of the marker byte, a space and the
/// label when one is given, and the line terminator.
pub open spec fn marker_line(c: u8, label: Option<Seq<u8>>) -> Seq<u8> {
    let seven = seq![c, c, c, c, c, c, c];
    match label {
        Option::Some(l) => seven + seq![32u8] + l + seq![10u8],
        Option::None => seven + seq![10u8],
    }
}

/// Longest common prefix, in lines.
pub open spec fn lcp_ls(a: Seq<Seq<u8>>, b: Seq<Seq<u8>>) -> int
    decreases a.len(),
{
    if a.len() == 0 || b.len() == 0 || a[0] != b[0] {
        0
    } else {
        1 + lcp_ls(a.skip(1), b.skip(1))
    }
}

/// Longest common suffix, in lines.
pub open spec fn lcs_ls(a: Seq<Seq<u8>>, b: Seq<Seq<u8>>) -> int
    decreases a.len(),
{
    if a.len() == 0 || b.len() == 0 || a.last() != b.last() {
        0
    } else {
        1 + lcs_ls(a.drop_last(), b.drop_last())
    }
}

/// A forward scan that stops at the first mismatch or at the end of
/// either list has found the longest common prefix.
pub proof fn lemma_lcp_scan(a: Seq<Seq<u8>>, b: Seq<Seq<u8>>, p: int)
    requires
        0 <= p <= a.len(),
        p <= b.len(),
        forall|i: int| 0 <= i < p ==> a[i] == b[i],
        p < a.len() && p < b.len() ==> a[p] != b[p],
    ensures
        lcp_ls(a, b) == p,
    decreases p,
{
    if p == 0 {
    } else {
        assert(a[0] == b[0]);
        lemma_lcp_scan(a.skip(1), b.skip(1), p - 1);
    }
}

/// A backward scan that stops at the first mismatch or at the start of
/// either list has found the longest common suffix.
pub proof fn lemma_lcs_scan(a: Seq<Seq<u8>>, b: Seq<Seq<u8>>, s: int)
    requires
        0 <= s <= a.len(),
        s <= b.len(),
        forall|i: int| a.len() - s <= i < a.len() ==> #[trigger] a[i] == b[i + b.len() - a.len()],
        s < a.len() && s < b.len() ==> a[a.len() - 1 - s] != b[b.len() - 1 - s],
    ensures
        lcs_ls(a, b) == s,
    decreases s,
{
    if s == 0 {
    } else {
        assert(a[a.len() - 1] == b[b.len() - 1]);
        assert(a.last() == b.last());
        let a1 = a.drop_last();
        let b1 = b.drop_last();
        assert forall|i: int| a1.len() - (s - 1) <= i < a1.len() implies #[trigger] a1[i] == b1[i
            + b1.len() - a1.len()] by {
            assert(a[i] == b[i + b.len() - a.len()]);
        }
        lemma_lcs_scan(a1, b1, s - 1);
    }
}

/// The bytes of one rendered conflict, in the given style, between the
/// ours lines `o`, base lines `b` and theirs lines `t` of the region.
pub open spec fn spec_render_conflict(
    o: Seq<Seq<u8>>,
    b: Seq<Seq<u8>>,
    t: Seq<Seq<u8>>,
    lo: Option<Seq<u8>>,
    lb: Option<Seq<u8>>,
    lt: Option<Seq<u8>>,
    style: ConflictStyle,
) -> Seq<u8> {
    match style {
        ConflictStyle::Merge => marker_line(60u8, lo) + o.flatten() + marker_line(61u8,
            Option::None) + t.flatten() + marker_line(62u8, lt),
        ConflictStyle::Diff3 => marker_line(60u8, lo) + o.flatten() + marker_line(124u8, lb)
            + b.flatten() + marker_line(61u8, Option::None) + t.flatten() + marker_line(62u8, lt),
        ConflictStyle::ZealousDiff3 => {
            let p = lcp_ls(o, t);
            let s = lcs_ls(o.skip(p), t.skip(p));
            o.subrange(0, p).flatten() + marker_line(60u8, lo) + o.subrange(
                p,
                o.len() - s,
            ).flatten() + marker_line(124u8, lb) + b.flatten() + marker_line(61u8, Option::None)
                + t.subrange(p, t.len() - s).flatten() + marker_line(62u8, lt) + o.subrange(
                o.len() - s,
                o.len() as int,
            ).flatten()
        },
    }
}

/// The bytes one region contributes to the output.
pub open spec fn spec_render_region(
    r: MergeRegion,
    bv: Seq<Seq<u8>>,
    ov: Seq<Seq<u8>>,
    tv: Seq<Seq<u8>>,
    lo: Option<Seq<u8>>,
    lb: Option<Seq<u8>>,
    lt: Option<Seq<u8>>,
    opts: Options,
) -> Seq<u8> {
    let b = bv.subrange(r.base_start as int, r.base_end as int);
    let o = ov.subrange(r.ours_start as int, r.ours_end as int);
    let t = tv.subrange(r.theirs_start as int, r.theirs_end as int);
    match r.class {
        Classification::Stable => b.flatten(),
        Classification::OursChanged => o.flatten(),
        Classification::TheirsChanged => t.flatten(),
        Classification::BothChangedIdentical => o.flatten(),
        Classification::BothChangedConflicting => match opts.on_conflict {
            Option::Some(ResolveWith::Ours) => o.flatten(),
            Option::Some(ResolveWith::Theirs) => t.flatten(),
            Option::Some(ResolveWith::Union) => o.flatten() + t.flatten(),
            Option::Some(ResolveWith::Ancestor) => b.flatten(),
            Option::None => spec_render_conflict(o, b, t, lo, lb, lt, opts.style),
        },
    }
}

/// The bytes the whole region list renders to, in order.
pub open spec fn spec_render(
    rs: Seq<MergeRegion>,
    bv: Seq<Seq<u8>>,
    ov: Seq<Seq<u8>>,
    tv: Seq<Seq<u8>>,
    lo: Option<Seq<u8>>,
    lb: Option<Seq<u8>>,
    lt: Option<Seq<u8>>,
    opts: Options,
) -> Seq<u8>
    decreases rs.len(),
{
    if rs.len() == 0 {
        Seq::empty()
    } else {
        spec_render_region(rs[0], bv, ov, tv, lo, lb, lt, opts) + spec_render(
            rs.skip(1),
            bv,
            ov,
            tv,
            lo,
            lb,
            lt,
            opts,
        )
    }
}

/// Whether any region is an unresolved conflict.
pub open spec fn has_conflict(rs: Seq<MergeRegion>) -> bool {
    exists|k: int| 0 <= k < rs.len() && (#[trigger] rs[k]).class is BothChangedConflicting
}

/// Rendering distributes over appending one region.
pub proof fn lemma_render_push(
    rs: Seq<MergeRegion>,
    r: MergeRegion,
    bv: Seq<Seq<u8>>,
    ov: Seq<Seq<u8>>,
    tv: Seq<Seq<u8>>,
    lo: Option<Seq<u8>>,
    lb: Option<Seq<u8>>,
    lt: Option<Seq<u8>>,
    opts: Options,
)
    ensures
        spec_render(rs.push(r), bv, ov, tv, lo, lb, lt, opts) == spec_render(
            rs,
            bv,
            ov,
            tv,
            lo,
            lb,
            lt,
            opts,
        ) + spec_render_region(r, bv, ov, tv, lo, lb, lt, opts),
    decreases rs.len(),
{
    if rs.len() == 0 {
        assert(rs.push(r)[0] == r);
        assert(rs.push(r).skip(1) =~= rs);
        assert(spec_render(rs, bv, ov, tv, lo, lb, lt, opts) == Seq::<u8>::empty());
        assert(Seq::<u8>::empty() + spec_render_region(r, bv, ov, tv, lo, lb, lt, opts)
            =~= spec_render_region(r, bv, ov, tv, lo, lb, lt, opts));
    } else {
        assert(rs.push(r).skip(1) =~= rs.skip(1).push(r));
        lemma_render_push(rs.skip(1), r, bv, ov, tv, lo, lb, lt, opts);
        assert(rs.push(r)[0] == rs[0]);
        assert((spec_render_region(rs[0], bv, ov, tv, lo, lb, lt, opts) + spec_render(
            rs.skip(1),
            bv,
            ov,
            tv,
            lo,
            lb,
            lt,
            opts,
        )) + spec_render_region(r, bv, ov, tv, lo, lb, lt, opts) =~= spec_render_region(
            rs[0],
            bv,
            ov,
            tv,
            lo,
            lb,
            lt,
            opts,
        ) + (spec_render(rs.skip(1), bv, ov, tv, lo, lb, lt, opts) + spec_render_region(
            r,
            bv,
            ov,
            tv,
            lo,
            lb,
            lt,
            opts,
        )));
    }
}

/// Appends one marker line to the output.
fn emit_marker(out: &mut Vec<u8>, c: u8, label: &Option<Vec<u8>>)
    ensures
        final(out)@ == old(out)@ + marker_line(c, lab(*label)),
{
    let ghost start = out@;
    let mut k: usize = 0;
    while k < 7
        invariant
            k <= 7,
            out@ == start + Seq::new(k as nat, |q: int| c),
        decreases 7 - k,
    {
        out.push(c);
        proof {
            assert(out@ =~= start + Seq::new((k + 1) as nat, |q: int| c));
        }
        k = k + 1;
    }
    match label {
        Option::Some(l) => {
            out.push(32u8);
            let ghost mid = out@;
            let mut q: usize = 0;
            while q < l.len()
                invariant
                    q <= l@.len(),
                    out@ == mid + l@.subrange(0, q as int),
                decreases l@.len() - q,
            {
                out.push(l[q]);
                proof {
                    assert(out@ =~= mid + l@.subrange(0, q + 1));
                }
                q = q + 1;
            }
            out.push(10u8);
            proof {
                assert(l@.subrange(0, l@.len() as int) =~= l@);
                assert(out@ =~= start + marker_line(c, lab(Option::Some(*l))));
            }
        },
        Option::None => {
            out.push(10u8);
            proof {
                assert(out@ =~= start + marker_line(c, lab(Option::<Vec<u8>>::None)));
            }
        },
    }
}

#[derive(Clone, Copy, PartialEq, Eq, Structural, Debug)]
pub enum Resolution {
    Complete,
    Conflict,
}

/// Appends one rendered conflict to the output, in the given style.
/// Zealous rendering first splits off the lines the two sides agree on at
/// either end of the region, emits them once, unmarked, and wraps only
/// the genuinely divergent middle in markers.
#[verifier::rlimit(100)]
#[verifier::spinoff_prover]
fn render_conflict(
    out: &mut Vec<u8>,
    base: &Vec<Vec<u8>>,
    ours: &Vec<Vec<u8>>,
    theirs: &Vec<Vec<u8>>,
    bs: usize,
    be: usize,
    os: usize,
    oe: usize,
    ts: usize,
    te: usize,
    labels: &Labels,
    style: ConflictStyle,
)
    requires
        bs <= be <= base@.len(),
        os <= oe <= ours@.len(),
        ts <= te <= theirs@.len(),
    ensures
        final(out)@ == old(out)@ + spec_render_conflict(
            view_lines(ours@).subrange(os as int, oe as int),
            view_lines(base@).subrange(bs as int, be as int),
            view_lines(theirs@).subrange(ts as int, te as int),
            lab(labels.ours),
            lab(labels.base),
            lab(labels.theirs),
            style,
        ),
{
    let ghost bv = view_lines(base@);
    let ghost ov = view_lines(ours@);
    let ghost tv = view_lines(theirs@);
    let ghost bb = bv.subrange(bs as int, be as int);
    let ghost oo = ov.subrange(os as int, oe as int);
    let ghost tt = tv.subrange(ts as int, te as int);
    let ghost start = out@;
    match style {
        ConflictStyle::Merge => {
            emit_marker(out, 60u8, &labels.ours);
            append_lines(out, ours, os, oe);
            emit_marker(out, 61u8, &Option::None);
            append_lines(out, theirs, ts, te);
            emit_marker(out, 62u8, &labels.theirs);
            proof {
                assert(out@ =~= start + (marker_line(60u8, lab(labels.ours)) + oo.flatten()
                    + marker_line(61u8, Option::None) + tt.flatten() + marker_line(62u8,
                    lab(labels.theirs))));
            }
        },
        ConflictStyle::Diff3 => {
            emit_marker(out, 60u8, &labels.ours);
            append_lines(out, ours, os, oe);
            emit_marker(out, 124u8, &labels.base);
            append_lines(out, base, bs, be);
            emit_marker(out, 61u8, &Option::None);
            append_lines(out, theirs, ts, te);
            emit_marker(out, 62u8, &labels.theirs);
            proof {
                assert(out@ =~= start + (marker_line(60u8, lab(labels.ours)) + oo.flatten()
                    + marker_line(124u8, lab(labels.base)) + bb.flatten() + marker_line(61u8,
                    Option::None) + tt.flatten() + marker_line(62u8, lab(labels.theirs))));
            }
        },
        ConflictStyle::ZealousDiff3 => {
            render_conflict_zealous(out, base, ours, theirs, bs, be, os, oe, ts, te, labels);
        },
    }
}

/// Appends one zealously rendered conflict: the lines both sides agree on
/// at either end are emitted once, unmarked, and only the divergent
/// middle is wrapped in markers, with the full ancestor content shown.
#[verifier::rlimit(100)]
#[verifier::spinoff_prover]
fn render_conflict_zealous(
    out: &mut Vec<u8>,
    base: &Vec<Vec<u8>>,
    ours: &Vec<Vec<u8>>,
    theirs: &Vec<Vec<u8>>,
    bs: usize,
    be: usize,
    os: usize,
    oe: usize,
    ts: usize,
    te: usize,
    labels: &Labels,
)
    requires
        bs <= be <= base@.len(),
        os <= oe <= ours@.len(),
        ts <= te <= theirs@.len(),
    ensures
        final(out)@ == old(out)@ + spec_render_conflict(
            view_lines(ours@).subrange(os as int, oe as int),
            view_lines(base@).subrange(bs as int, be as int),
            view_lines(theirs@).subrange(ts as int, te as int),
            lab(labels.ours),
            lab(labels.base),
            lab(labels.theirs),
            ConflictStyle::ZealousDiff3,
        ),
{
    let ghost bv = view_lines(base@);
    let ghost ov = view_lines(ours@);
    let ghost tv = view_lines(theirs@);
    let ghost bb = bv.subrange(bs as int, be as int);
    let ghost oo = ov.subrange(os as int, oe as int);
    let ghost tt = tv.subrange(ts as int, te as int);
    let ghost start = out@;
    {
        {
            let olen = oe - os;
            let tlen = te - ts;
            let mut p: usize = 0;
            while p < olen && p < tlen && line_eq_at(ours, os + p, theirs, ts + p)
                invariant
                    0 <= p <= olen,
                    p <= tlen,
                    os + olen == oe <= ours@.len(),
                    ts + tlen == te <= theirs@.len(),
                    ov == view_lines(ours@),
                    tv == view_lines(theirs@),
                    forall|i: int| 0 <= i < p ==> #[trigger] ov[os + i] == tv[ts + i],
                decreases olen - p,
            {
                p = p + 1;
            }
            let mut suf: usize = 0;
            while suf < olen - p && suf < tlen - p && line_eq_at(
                ours,
                oe - 1 - suf,
                theirs,
                te - 1 - suf,
            )
                invariant
                    0 <= p <= olen,
                    p <= tlen,
                    suf <= olen - p,
                    suf <= tlen - p,
                    os + olen == oe <= ours@.len(),
                    ts + tlen == te <= theirs@.len(),
                    ov == view_lines(ours@),
                    tv == view_lines(theirs@),
                    forall|i: int| oe - suf <= i < oe ==> #[trigger] ov[i] == tv[i + te - oe],
                decreases olen - p - suf,
            {
                proof {
                    assert forall|i: int| oe - (suf + 1) <= i < oe implies #[trigger] ov[i] == tv[i
                        + te - oe] by {
                        if i == oe - 1 - suf {
                            assert(ov[oe - 1 - suf as int] == tv[te - 1 - suf as int]);
                        }
                    }
                }
                suf = suf + 1;
            }
            proof {
                assert forall|i: int| 0 <= i < p implies oo[i] == tt[i] by {
                    assert(ov[os + i] == tv[ts + i]);
                }
                if p < oo.len() && p < tt.len() {
                    assert(ov[os + p] != tv[ts + p]);
                }
                lemma_lcp_scan(oo, tt, p as int);
                let a = oo.skip(p as int);
                let b = tt.skip(p as int);
                assert forall|i: int| a.len() - suf <= i < a.len() implies #[trigger] a[i] == b[i
                    + b.len() - a.len()] by {
                    assert(ov[os + p + i] == tv[os + p + i + te - oe]);
                }
                if suf < a.len() && suf < b.len() {
                    assert(a[a.len() - 1 - suf as int] == ov[oe - 1 - suf as int]);
                    assert(b[b.len() - 1 - suf as int] == tv[te - 1 - suf as int]);
                }
                lemma_lcs_scan(a, b, suf as int);
                assert(lcp_ls(oo, tt) == p as int);
                assert(lcs_ls(oo.skip(p as int), tt.skip(p as int)) == suf as int);
            }
            append_lines(out, ours, os, os + p);
            emit_marker(out, 60u8, &labels.ours);
            append_lines(out, ours, os + p, oe - suf);
            emit_marker(out, 124u8, &labels.base);
            append_lines(out, base, bs, be);
            emit_marker(out, 61u8, &Option::None);
            append_lines(out, theirs, ts + p, te - suf);
            emit_marker(out, 62u8, &labels.theirs);
            append_lines(out, ours, oe - suf, oe);
            proof {
                assert(oo.subrange(0, p as int) =~= ov.subrange(os as int, os + p));
                assert(oo.subrange(p as int, oo.len() - suf) =~= ov.subrange(os + p,
                    oe - suf as int));
                assert(tt.subrange(p as int, tt.len() - suf) =~= tv.subrange(ts + p,
                    te - suf as int));
                assert(oo.subrange(oo.len() - suf, oo.len() as int) =~= ov.subrange(
                    oe - suf as int, oe as int));
                assert(out@ =~= start + (oo.subrange(0, p as int).flatten() + marker_line(60u8,
                    lab(labels.ours)) + oo.subrange(p as int, oo.len() - suf).flatten()
                    + marker_line(124u8, lab(labels.base)) + bb.flatten() + marker_line(61u8,
                    Option::None) + tt.subrange(p as int, tt.len() - suf).flatten()
                    + marker_line(62u8, lab(labels.theirs)) + oo.subrange(oo.len() - suf,
                    oo.len() as int).flatten()));
            }
        }
    }
}

/// Renders every region in order, appending to the caller-owned output
/// buffer, and reports whether any region was rendered with conflict
/// markers.  Rendering never stops early: the full merged output is
/// always produced.
#[verifier::rlimit(100)]
#[verifier::spinoff_prover]
pub fn render_regions(
    base: &Vec<Vec<u8>>,
    ours: &Vec<Vec<u8>>,
    theirs: &Vec<Vec<u8>>,
    rs: &Vec<MergeRegion>,
    labels: &Labels,
    opts: &Options,
    out: &mut Vec<u8>,
) -> (res: Resolution)
    requires
        regions_wf(rs@, view_lines(base@), view_lines(ours@), view_lines(theirs@)),
    ensures
        final(out)@ == old(out)@ + spec_render(
            rs@,
            view_lines(base@),
            view_lines(ours@),
            view_lines(theirs@),
            lab(labels.ours),
            lab(labels.base),
            lab(labels.theirs),
            *opts,
        ),
        res is Conflict <==> (opts.on_conflict is None && has_conflict(rs@)),
{
    let ghost bv = view_lines(base@);
    let ghost ov = view_lines(ours@);
    let ghost tv = view_lines(theirs@);
    let ghost lo = lab(labels.ours);
    let ghost lb = lab(labels.base);
    let ghost lt = lab(labels.theirs);
    let mut conflict: bool = false;
    let mut k: usize = 0;
    let ghost start = out@;
    proof {
        assert(spec_render(rs@.subrange(0, 0), bv, ov, tv, lo, lb, lt, *opts)
            =~= Seq::<u8>::empty());
        assert(start + spec_render(rs@.subrange(0, 0), bv, ov, tv, lo, lb, lt, *opts) =~= start);
    }
    while k < rs.len()
        invariant
            k <= rs@.len(),
            bv == view_lines(base@),
            ov == view_lines(ours@),
            tv == view_lines(theirs@),
            lo == lab(labels.ours),
            lb == lab(labels.base),
            lt == lab(labels.theirs),
            regions_wf(rs@, bv, ov, tv),
            out@ == start + spec_render(rs@.subrange(0, k as int), bv, ov, tv, lo, lb, lt, *opts),
            conflict <==> (opts.on_conflict is None && exists|q: int|
                0 <= q < k && (#[trigger] rs@[q]).class is BothChangedConflicting),
        decreases rs@.len() - k,
    {
        let r = rs[k];
        proof {
            reveal(crate::merge::regions_chain);
            assert(r.base_start <= r.base_end <= base@.len());
            assert(r.ours_start <= r.ours_end <= ours@.len());
            assert(r.theirs_start <= r.theirs_end <= theirs@.len());
        }
        let ghost before = out@;
        match r.class {
            Classification::Stable => {
                append_lines(out, base, r.base_start, r.base_end);
            },
            Classification::OursChanged => {
                append_lines(out, ours, r.ours_start, r.ours_end);
            },
            Classification::TheirsChanged => {
                append_lines(out, theirs, r.theirs_start, r.theirs_end);
            },
            Classification::BothChangedIdentical => {
                append_lines(out, ours, r.ours_start, r.ours_end);
            },
            Classification::BothChangedConflicting => {
                match opts.on_conflict {
                    Option::Some(ResolveWith::Ours) => {
                        append_lines(out, ours, r.ours_start, r.ours_end);
                    },
                    Option::Some(ResolveWith::Theirs) => {
                        append_lines(out, theirs, r.theirs_start, r.theirs_end);
                    },
                    Option::Some(ResolveWith::Union) => {
                        append_lines(out, ours, r.ours_start, r.ours_end);
                        append_lines(out, theirs, r.theirs_start, r.theirs_end);
                    },
                    Option::Some(ResolveWith::Ancestor) => {
                        append_lines(out, base, r.base_start, r.base_end);
                    },
                    Option::None => {
                        render_conflict(
                            out,
                            base,
                            ours,
                            theirs,
                            r.base_start,
                            r.base_end,
                            r.ours_start,
                            r.ours_end,
                            r.theirs_start,
                            r.theirs_end,
                            labels,
                            opts.style,
                        );
                        conflict = true;
                    },
                }
            },
        }
        proof {
            assert(out@ == before + spec_render_region(r, bv, ov, tv, lo, lb, lt, *opts));
            assert(rs@.subrange(0, k + 1) =~= rs@.subrange(0, k as int).push(r));
            lemma_render_push(rs@.subrange(0, k as int), r, bv, ov, tv, lo, lb, lt, *opts);
            assert(out@ =~= start + spec_render(rs@.subrange(0, k + 1), bv, ov, tv, lo, lb, lt,
                *opts));
        }
        k = k + 1;
    }
    proof {
        assert(rs@.subrange(0, rs@.len() as int) =~= rs@);
    }
    if conflict {
        Resolution::Conflict
    } else {
        Resolution::Complete
    }
}

} // verus!
