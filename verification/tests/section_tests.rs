use gix_core::section::{normalize, Event, Key, MutableSection, SectionBody};
use gix_core::status::{FastEq, HashEq};
use gix_core::worktree::{plan_checkout, stat_seconds, CheckoutAction, EntryMode};

fn key(name: &[u8]) -> Key {
    Key { name: name.to_vec() }
}

#[test]
fn push_appends_whitespace_key_separator_value_newline() {
    let mut s = MutableSection::new(SectionBody::new_body());
    s.push(key(b"core"), b"true".to_vec());
    let body = s.into_body();
    assert_eq!(body.num_values(), 1);
    assert!(!body.is_empty());
    assert!(body.contains_key(&key(b"core")));
    assert!(!body.contains_key(&key(b"other")));
    let keys = body.keys();
    assert_eq!(keys.len(), 1);
    assert_eq!(keys[0].name, b"core".to_vec());
}

#[test]
fn leading_space_and_implicit_newline_flags() {
    let mut s = MutableSection::new(SectionBody::new_body());
    assert_eq!(s.leading_space(), 2);
    s.set_leading_space(0);
    assert_eq!(s.leading_space(), 0);
    s.set_implicit_newline(false);
    s.push(key(b"a"), b"1".to_vec());
    // Without whitespace and without an implicit newline, exactly three
    // events are appended: key, separator, value.
    let body = s.into_body();
    assert_eq!(body.len(), 3);
}

#[test]
fn push_newline_appends_newline_event() {
    let mut s = MutableSection::new(SectionBody::new_body());
    s.push_newline();
    let body = s.into_body();
    assert_eq!(body.len(), 1);
    assert_eq!(body.num_values(), 0);
}

#[test]
fn delete_removes_inclusive_range() {
    let mut s = MutableSection::new(SectionBody::new_body());
    s.set_leading_space(0);
    s.set_implicit_newline(false);
    s.push(key(b"a"), b"1".to_vec());
    s.push(key(b"b"), b"2".to_vec());
    // Remove the first pair: events 0..=2 of six.
    s.delete(0, 2);
    let body = s.into_body();
    assert_eq!(body.len(), 3);
    assert!(body.contains_key(&key(b"b")));
    assert!(!body.contains_key(&key(b"a")));
}

#[test]
fn normalize_strips_one_quote_pair() {
    assert_eq!(normalize(b"\"hello\"".to_vec()), b"hello".to_vec());
    assert_eq!(normalize(b"hello".to_vec()), b"hello".to_vec());
    assert_eq!(normalize(b"\"".to_vec()), b"\"".to_vec());
    assert_eq!(normalize(b"".to_vec()), b"".to_vec());
}

#[test]
fn iterator_yields_key_value_pairs() {
    let mut s = MutableSection::new(SectionBody::new_body());
    s.push(key(b"a"), b"\"quoted\"".to_vec());
    s.push(key(b"b"), b"plain".to_vec());
    let mut it = s.into_body().into_iter_pairs();
    let (k, v) = it.next().unwrap();
    assert_eq!(k.name, b"a".to_vec());
    assert_eq!(v, b"quoted".to_vec());
    let (k, v) = it.next().unwrap();
    assert_eq!(k.name, b"b".to_vec());
    assert_eq!(v, b"plain".to_vec());
    assert!(it.next().is_none());
}

#[test]
fn iterator_joins_fragmented_values() {
    let mut body = SectionBody::new_body();
    body.push_event(Event::SectionKey(key(b"k")));
    body.push_event(Event::KeyValueSeparator);
    body.push_event(Event::ValueNotDone(b"one".to_vec()));
    body.push_event(Event::ValueDone(b"two".to_vec()));
    let mut it = body.into_iter_pairs();
    let (k, v) = it.next().unwrap();
    assert_eq!(k.name, b"k".to_vec());
    assert_eq!(v, b"onetwo".to_vec());
}

#[test]
fn fast_eq_size_check_and_hash_check() {
    // A size mismatch alone decides, except for a racily smudged entry.
    assert!(FastEq::size_differs(10, false, 20));
    assert!(!FastEq::size_differs(0, false, 20));
    assert!(FastEq::size_differs(0, true, 20));
    assert!(!FastEq::size_differs(20, false, 20));
    // Equal ids mean unchanged; different ids mean changed.
    assert!(FastEq::compare_blob(&b"abc".to_vec(), &b"abc".to_vec()).is_none());
    assert!(FastEq::compare_blob(&b"abc".to_vec(), &b"abd".to_vec()).is_some());
}

#[test]
fn hash_eq_returns_new_id_on_change() {
    assert!(HashEq::compare_blob(&b"abc".to_vec(), &b"abc".to_vec()).is_none());
    let h = HashEq::compare_blob(&b"abc".to_vec(), &b"abd".to_vec()).unwrap();
    assert_eq!(h, b"abd".to_vec());
}

#[test]
fn checkout_plan_decision_table() {
    assert_eq!(
        plan_checkout(EntryMode::File, true, true, true),
        CheckoutAction::WriteFile { executable: false, create_new: true }
    );
    assert_eq!(
        plan_checkout(EntryMode::FileExecutable, true, true, false),
        CheckoutAction::WriteFile { executable: true, create_new: false }
    );
    assert_eq!(
        plan_checkout(EntryMode::FileExecutable, true, false, false),
        CheckoutAction::WriteFile { executable: false, create_new: false }
    );
    assert_eq!(plan_checkout(EntryMode::Symlink, true, false, true), CheckoutAction::CreateSymlink);
    assert_eq!(
        plan_checkout(EntryMode::Symlink, false, false, true),
        CheckoutAction::WriteSymlinkAsFile
    );
}

#[test]
fn stat_seconds_narrows_or_reports() {
    assert_eq!(stat_seconds(0), Some(0));
    assert_eq!(stat_seconds(4294967295), Some(4294967295u32));
    assert_eq!(stat_seconds(4294967296), None);
}

#[test]
fn value_returns_last_normalized_value() {
    let mut s = MutableSection::new(SectionBody::new_body());
    s.push(key(b"a"), b"first".to_vec());
    s.push(key(b"a"), b"\"second\"".to_vec());
    let body = s.into_body();
    assert_eq!(body.value(&key(b"a")).unwrap(), b"second".to_vec());
    assert!(body.value(&key(b"missing")).is_none());
}

#[test]
fn remove_takes_out_latest_value() {
    let mut s = MutableSection::new(SectionBody::new_body());
    s.push(key(b"a"), b"one".to_vec());
    s.push(key(b"b"), b"two".to_vec());
    assert_eq!(s.remove(&key(b"b")).unwrap(), b"two".to_vec());
    assert!(s.remove(&key(b"missing")).is_none());
    let body = s.into_body();
    assert!(body.value(&key(b"b")).is_none());
    assert_eq!(body.value(&key(b"a")).unwrap(), b"one".to_vec());
}

#[test]
fn set_replaces_or_adds() {
    let mut s = MutableSection::new(SectionBody::new_body());
    s.push(key(b"a"), b"old".to_vec());
    assert_eq!(s.set(key(b"a"), b"new".to_vec()).unwrap(), b"old".to_vec());
    assert!(s.set(key(b"fresh"), b"v".to_vec()).is_none());
    let body = s.into_body();
    assert_eq!(body.value(&key(b"a")).unwrap(), b"new".to_vec());
    assert_eq!(body.value(&key(b"fresh")).unwrap(), b"v".to_vec());
}

#[test]
fn pop_removes_last_pair_with_leading_whitespace() {
    let mut s = MutableSection::new(SectionBody::new_body());
    s.push(key(b"a"), b"one".to_vec());
    s.push(key(b"b"), b"\"two\"".to_vec());
    let before = {
        let mut t = MutableSection::new(SectionBody::new_body());
        t.push(key(b"a"), b"one".to_vec());
        t.into_body().len()
    };
    let (k, v) = s.pop().unwrap();
    assert_eq!(k.name, b"b".to_vec());
    assert_eq!(v, b"two".to_vec());
    // The pair's whitespace, key, separator, value and newline are gone,
    // except the trailing newline of the popped pair which sat after it.
    let body = s.into_body();
    assert!(body.len() <= before + 2);
    assert!(!body.contains_key(&key(b"b")));
    assert!(body.contains_key(&key(b"a")));
}

#[test]
fn pop_on_section_without_keys_clears_it() {
    let mut s = MutableSection::new(SectionBody::new_body());
    s.push_newline();
    assert!(s.pop().is_none());
    assert!(s.into_body().is_empty());
}

#[test]
fn values_returns_every_run_in_order() {
    let mut s = MutableSection::new(SectionBody::new_body());
    s.push(key(b"a"), b"one".to_vec());
    s.push(key(b"other"), b"x".to_vec());
    s.push(key(b"a"), b"\"two\"".to_vec());
    let body = s.into_body();
    let vs = body.values(&key(b"a"));
    assert_eq!(vs.len(), 2);
    assert_eq!(vs[0], b"one".to_vec());
    assert_eq!(vs[1], b"two".to_vec());
    assert!(body.values(&key(b"missing")).is_empty());
}

#[test]
fn values_joins_fragments_with_last_fragment_winning_partial() {
    let mut body = SectionBody::new_body();
    body.push_event(Event::SectionKey(key(b"k")));
    body.push_event(Event::ValueNotDone(b"head".to_vec()));
    body.push_event(Event::ValueDone(b"tail".to_vec()));
    let vs = body.values(&key(b"k"));
    assert_eq!(vs.len(), 1);
    assert_eq!(vs[0], b"headtail".to_vec());
}

#[test]
fn get_finds_first_value_in_range() {
    let mut s = MutableSection::new(SectionBody::new_body());
    s.push(key(b"a"), b"first".to_vec());
    s.push(key(b"a"), b"second".to_vec());
    let last = {
        let mut t = MutableSection::new(SectionBody::new_body());
        t.push(key(b"a"), b"first".to_vec());
        t.push(key(b"a"), b"second".to_vec());
        t.into_body().len() - 1
    };
    // Over the whole range, the first occurrence wins.
    assert_eq!(s.get(&key(b"a"), 0, last).unwrap(), b"first".to_vec());
    assert!(s.get(&key(b"missing"), 0, last).is_err());
}
