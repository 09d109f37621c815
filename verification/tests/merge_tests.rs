use gix_core::driver::{binary_merge, Pick};
use gix_core::render::{ConflictStyle, Labels, Options, Resolution, ResolveWith};
use gix_core::text::merge_text;

fn labels() -> Labels {
    Labels {
        ours: Some(b"ours".to_vec()),
        base: Some(b"base".to_vec()),
        theirs: Some(b"theirs".to_vec()),
    }
}

fn run(
    ours: &[u8],
    base: &[u8],
    theirs: &[u8],
    style: ConflictStyle,
    on_conflict: Option<ResolveWith>,
) -> (Vec<u8>, Resolution) {
    let mut out = Vec::new();
    let res = merge_text(
        &ours.to_vec(),
        &base.to_vec(),
        &theirs.to_vec(),
        &labels(),
        &Options { style, on_conflict },
        &mut out,
    );
    (out, res)
}

#[test]
fn identity_all_styles() {
    for style in [ConflictStyle::Merge, ConflictStyle::Diff3, ConflictStyle::ZealousDiff3] {
        let (out, res) = run(b"a\nb\nc\n", b"a\nb\nc\n", b"a\nb\nc\n", style, None);
        assert_eq!(out, b"a\nb\nc\n".to_vec());
        assert_eq!(res, Resolution::Complete);
    }
}

#[test]
fn noop_ours_takes_theirs() {
    let (out, res) = run(b"a\nb\nc\n", b"a\nb\nc\n", b"a\nX\nc\n", ConflictStyle::Merge, None);
    assert_eq!(out, b"a\nX\nc\n".to_vec());
    assert_eq!(res, Resolution::Complete);
}

#[test]
fn noop_theirs_takes_ours() {
    let (out, res) = run(b"a\nY\nc\n", b"a\nb\nc\n", b"a\nb\nc\n", ConflictStyle::Merge, None);
    assert_eq!(out, b"a\nY\nc\n".to_vec());
    assert_eq!(res, Resolution::Complete);
}

#[test]
fn scenario_theirs_edit() {
    // Scenario A: only theirs edits the middle line.
    let (out, res) = run(b"a\nb\nc\n", b"a\nb\nc\n", b"a\nX\nc\n", ConflictStyle::Merge, None);
    assert_eq!(out, b"a\nX\nc\n".to_vec());
    assert_eq!(res, Resolution::Complete);
}

#[test]
fn scenario_true_conflict_merge_style() {
    // Scenario B: both sides replace the middle line differently.
    let (out, res) = run(b"a\nY\nc\n", b"a\nb\nc\n", b"a\nZ\nc\n", ConflictStyle::Merge, None);
    assert_eq!(
        out,
        b"a\n<<<<<<< ours\nY\n=======\nZ\n>>>>>>> theirs\nc\n".to_vec()
    );
    assert_eq!(res, Resolution::Conflict);
}

#[test]
fn true_conflict_diff3_style() {
    let (out, res) = run(b"a\nY\nc\n", b"a\nb\nc\n", b"a\nZ\nc\n", ConflictStyle::Diff3, None);
    assert_eq!(
        out,
        b"a\n<<<<<<< ours\nY\n||||||| base\nb\n=======\nZ\n>>>>>>> theirs\nc\n".to_vec()
    );
    assert_eq!(res, Resolution::Conflict);
}

#[test]
fn diff3_is_merge_with_base_block_inserted() {
    let (merge_out, r1) = run(b"a\nY\nc\n", b"a\nb\nc\n", b"a\nZ\nc\n", ConflictStyle::Merge, None);
    let (diff3_out, r2) = run(b"a\nY\nc\n", b"a\nb\nc\n", b"a\nZ\nc\n", ConflictStyle::Diff3, None);
    assert_eq!(r1, Resolution::Conflict);
    assert_eq!(r2, Resolution::Conflict);
    // The diff3 output is the merge output with exactly the base marker
    // line and the base content inserted before the separator.
    let sep = b"=======\n";
    let pos_m = merge_out.windows(sep.len()).position(|w| w == sep).unwrap();
    let pos_d = diff3_out.windows(sep.len()).position(|w| w == sep).unwrap();
    let inserted = b"||||||| base\nb\n";
    assert_eq!(&diff3_out[..pos_d], &[&merge_out[..pos_m], &inserted[..]].concat()[..]);
    assert_eq!(&diff3_out[pos_d..], &merge_out[pos_m..]);
    // And it has exactly one additional marker line.
    let count_lines = |v: &[u8]| v.split(|b| *b == b'\n').filter(|l| l.len() >= 7).count();
    let _ = count_lines;
    assert_eq!(diff3_out.len(), merge_out.len() + inserted.len());
}

#[test]
fn disjoint_edits_both_applied() {
    let (out, res) = run(
        b"a\nX\nc\nd\ne\n",
        b"a\nb\nc\nd\ne\n",
        b"a\nb\nc\nD\ne\n",
        ConflictStyle::Merge,
        None,
    );
    assert_eq!(out, b"a\nX\nc\nD\ne\n".to_vec());
    assert_eq!(res, Resolution::Complete);
}

#[test]
fn convergent_edits_do_not_conflict() {
    let (out, res) = run(b"a\nW\nc\n", b"a\nb\nc\n", b"a\nW\nc\n", ConflictStyle::Merge, None);
    assert_eq!(out, b"a\nW\nc\n".to_vec());
    assert_eq!(res, Resolution::Complete);
}

#[test]
fn union_override_keeps_both_sides() {
    let (out, res) = run(
        b"a\nY\nc\n",
        b"a\nb\nc\n",
        b"a\nZ\nc\n",
        ConflictStyle::Merge,
        Some(ResolveWith::Union),
    );
    assert_eq!(out, b"a\nY\nZ\nc\n".to_vec());
    assert_eq!(res, Resolution::Complete);
}

#[test]
fn ours_theirs_ancestor_overrides() {
    let (out, res) = run(
        b"a\nY\nc\n",
        b"a\nb\nc\n",
        b"a\nZ\nc\n",
        ConflictStyle::Merge,
        Some(ResolveWith::Ours),
    );
    assert_eq!(out, b"a\nY\nc\n".to_vec());
    assert_eq!(res, Resolution::Complete);
    let (out, res) = run(
        b"a\nY\nc\n",
        b"a\nb\nc\n",
        b"a\nZ\nc\n",
        ConflictStyle::Merge,
        Some(ResolveWith::Theirs),
    );
    assert_eq!(out, b"a\nZ\nc\n".to_vec());
    assert_eq!(res, Resolution::Complete);
    let (out, res) = run(
        b"a\nY\nc\n",
        b"a\nb\nc\n",
        b"a\nZ\nc\n",
        ConflictStyle::Merge,
        Some(ResolveWith::Ancestor),
    );
    assert_eq!(out, b"a\nb\nc\n".to_vec());
    assert_eq!(res, Resolution::Complete);
}

#[test]
fn zealous_diff3_shrinks_conflict() {
    // Both sides replace "b" with two lines sharing the first one: the
    // shared line is emitted unmarked, only the divergent tail conflicts.
    let (out, res) = run(
        b"a\nX\nY\nc\n",
        b"a\nb\nc\n",
        b"a\nX\nZ\nc\n",
        ConflictStyle::ZealousDiff3,
        None,
    );
    assert_eq!(res, Resolution::Conflict);
    assert_eq!(
        out,
        b"a\nX\n<<<<<<< ours\nY\n||||||| base\nb\n=======\nZ\n>>>>>>> theirs\nc\n".to_vec()
    );
}

#[test]
fn missing_trailing_newline_is_kept() {
    let (out, res) = run(b"a\nb", b"a\nb", b"a\nc", ConflictStyle::Merge, None);
    assert_eq!(out, b"a\nc".to_vec());
    assert_eq!(res, Resolution::Complete);
}

#[test]
fn pure_insertions_from_both_sides_conflict() {
    let (out, res) = run(b"a\nP\nb\n", b"a\nb\n", b"a\nQ\nb\n", ConflictStyle::Merge, None);
    assert_eq!(res, Resolution::Conflict);
    assert_eq!(
        out,
        b"a\n<<<<<<< ours\nP\n=======\nQ\n>>>>>>> theirs\nb\n".to_vec()
    );
}

#[test]
fn empty_labels_render_bare_markers() {
    let mut out = Vec::new();
    let res = merge_text(
        &b"Y\n".to_vec(),
        &b"b\n".to_vec(),
        &b"Z\n".to_vec(),
        &Labels { ours: None, base: None, theirs: None },
        &Options { style: ConflictStyle::Merge, on_conflict: None },
        &mut out,
    );
    assert_eq!(out, b"<<<<<<<\nY\n=======\nZ\n>>>>>>>\n".to_vec());
    assert_eq!(res, Resolution::Conflict);
}

#[test]
fn binary() {
    // By default it picks ours and marks it as a conflict.
    assert_eq!(binary_merge(None), (Pick::Ours, Resolution::Conflict));
    // Otherwise any pick is honoured and the merge is complete.
    assert_eq!(
        binary_merge(Some(Pick::Ancestor)),
        (Pick::Ancestor, Resolution::Complete)
    );
    assert_eq!(binary_merge(Some(Pick::Ours)), (Pick::Ours, Resolution::Complete));
    assert_eq!(
        binary_merge(Some(Pick::Theirs)),
        (Pick::Theirs, Resolution::Complete)
    );
}

#[test]
fn separated_edits_on_one_side_stay_separate() {
    // Ours edits two separated lines, theirs edits one in between: all
    // three edits apply cleanly.
    let (out, res) = run(
        b"a\nX\nc\nd\ne\nf\ng\nY\ni\n",
        b"a\nb\nc\nd\ne\nf\ng\nh\ni\n",
        b"a\nb\nc\nd\nZ\nf\ng\nh\ni\n",
        ConflictStyle::Merge,
        None,
    );
    assert_eq!(out, b"a\nX\nc\nd\nZ\nf\ng\nY\ni\n".to_vec());
    assert_eq!(res, Resolution::Complete);
}
