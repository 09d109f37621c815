//! Mutable editing of one configuration-file section, modelled as a list
//! of parse events.
//!
//! A section body is the ordered list of events between a section header
//! and the next one: keys, value fragments, separators, whitespace and
//! newlines.  Values are byte strings; a value surrounded by one pair of
//! double quotes is normalized by stripping them.

use vstd::prelude::*;

verus! {

/// A key of a key-value pair; equality of keys is byte equality of their
/// names.
#[derive(Clone, Debug)]
pub struct Key {
    pub name: Vec<u8>,
}

/// One parse event of a section body.
#[derive(Clone, Debug)]
pub enum Event {
    SectionKey(Key),
    Value(Vec<u8>),
    ValueNotDone(Vec<u8>),
    ValueDone(Vec<u8>),
    Newline(Vec<u8>),
    Whitespace(Vec<u8>),
    KeyValueSeparator,
}

/// The number of keys among the events.
pub open spec fn count_keys(es: Seq<Event>) -> int
    decreases es.len(),
{
    if es.len() == 0 {
        0
    } else {
        (if es[0] is SectionKey {
            1int
        } else {
            0int
        }) + count_keys(es.skip(1))
    }
}

/// The name a key event carries; other events carry none.
pub open spec fn key_name_of(e: Event) -> Seq<u8> {
    match e {
        Event::SectionKey(k) => k.name@,
        _ => Seq::empty(),
    }
}

/// Whether the event is the key named `name`.
pub open spec fn is_key_named(e: Event, name: Seq<u8>) -> bool {
    match e {
        Event::SectionKey(k) => k.name@ == name,
        _ => false,
    }
}

/// Stripping one pair of surrounding double quotes, when both are there.
pub open spec fn spec_normalize(v: Seq<u8>) -> Seq<u8> {
    if v.len() >= 2 && v[0] == 34u8 && v[v.len() - 1] == 34u8 {
        v.subrange(1, v.len() - 1)
    } else {
        v
    }
}


/// The payload of a value event; other events carry no value bytes.
pub open spec fn payload_of(e: Event) -> Seq<u8> {
    match e {
        Event::Value(v) => v@,
        Event::ValueNotDone(v) => v@,
        Event::ValueDone(v) => v@,
        _ => Seq::empty(),
    }
}

/// The value bytes of the events `lo..hi`, concatenated in order.
pub open spec fn payload_concat(es: Seq<Event>, lo: int, hi: int) -> Seq<u8>
    decreases hi - lo,
{
    if lo >= hi {
        Seq::empty()
    } else {
        payload_of(es[lo]) + payload_concat(es, lo + 1, hi)
    }
}

/// The reverse walk that finds the value-event range belonging to the
/// last occurrence of the key named `name`: value events are recorded
/// walking backwards, a key of another name resets the record, and the
/// matching key returns it.
pub open spec fn vr_walk(es: Seq<Event>, name: Seq<u8>, vs: int, ve: int) -> (int, int)
    decreases es.len(),
{
    if es.len() == 0 {
        (vs, ve)
    } else {
        match es[es.len() - 1] {
            Event::SectionKey(k) => if k.name@ == name {
                (vs, ve)
            } else {
                vr_walk(es.drop_last(), name, 0, 0)
            },
            Event::Value(v) => vr_walk(es.drop_last(), name, es.len() - 1, es.len() as int),
            Event::ValueNotDone(v) => if ve == 0 {
                vr_walk(es.drop_last(), name, vs, es.len() as int)
            } else {
                vr_walk(es.drop_last(), name, es.len() - 1, ve)
            },
            Event::ValueDone(v) => if ve == 0 {
                vr_walk(es.drop_last(), name, vs, es.len() as int)
            } else {
                vr_walk(es.drop_last(), name, es.len() - 1, ve)
            },
            _ => vr_walk(es.drop_last(), name, vs, ve),
        }
    }
}

/// The range of the value events for the last occurrence of the key; an
/// empty range when the key has no value.
pub open spec fn spec_value_range(es: Seq<Event>, name: Seq<u8>) -> (int, int) {
    vr_walk(es, name, 0, 0)
}

/// The shape of one appended entry: optional leading whitespace, the
/// key, the separator, the value, and an implicit newline unless
/// disabled; everything before it untouched.
pub open spec fn pushed_entry(
    es0: Seq<Event>,
    es: Seq<Event>,
    name: Seq<u8>,
    value: Seq<u8>,
    ws: int,
    nl: bool,
) -> bool {
    let pre: int = if ws > 0 {
        1int
    } else {
        0int
    };
    let post: int = if nl {
        1int
    } else {
        0int
    };
    &&& es.len() == es0.len() + pre + 3 + post
    &&& es.subrange(0, es0.len() as int) == es0
    &&& (ws > 0 ==> (es[es0.len() as int] matches Event::Whitespace(w) && w@ == Seq::new(
        ws as nat,
        |q: int| 32u8,
    )))
    &&& (es[es0.len() + pre] matches Event::SectionKey(k) && k.name@ == name)
    &&& es[es0.len() + pre + 1] is KeyValueSeparator
    &&& (es[es0.len() + pre + 2] matches Event::Value(v) && v@ == value)
    &&& (nl ==> (es[es0.len() + pre + 3] matches Event::Newline(nlv) && nlv@ == seq![10u8]))
}

/// The names of the key events, in section order.
pub open spec fn key_names(es: Seq<Event>) -> Seq<Seq<u8>>
    decreases es.len(),
{
    if es.len() == 0 {
        Seq::empty()
    } else {
        (match es[0] {
            Event::SectionKey(k) => seq![k.name@],
            _ => Seq::empty(),
        }) + key_names(es.skip(1))
    }
}

/// The byte names of a list of keys.
pub open spec fn names_of(ks: Seq<Key>) -> Seq<Seq<u8>> {
    Seq::new(ks.len(), |i: int| ks[i].name@)
}

/// Name collection peels one event off the back.
proof fn lemma_key_names_snoc(es: Seq<Event>)
    requires
        es.len() > 0,
    ensures
        key_names(es) == key_names(es.drop_last()) + (match es.last() {
            Event::SectionKey(k) => seq![k.name@],
            _ => Seq::<Seq<u8>>::empty(),
        }),
    decreases es.len(),
{
    if es.len() == 1 {
        assert(es.drop_last() =~= Seq::<Event>::empty());
        assert(es.skip(1) =~= Seq::<Event>::empty());
        assert(key_names(es) =~= key_names(es.drop_last()) + (match es.last() {
            Event::SectionKey(k) => seq![k.name@],
            _ => Seq::<Seq<u8>>::empty(),
        }));
    } else {
        lemma_key_names_snoc(es.skip(1));
        assert(es.skip(1).drop_last() =~= es.drop_last().skip(1));
        assert(es.drop_last()[0] == es[0]);
        assert(key_names(es) =~= key_names(es.drop_last()) + (match es.last() {
            Event::SectionKey(k) => seq![k.name@],
            _ => Seq::<Seq<u8>>::empty(),
        }));
    }
}

/// The first completed key-value pair of the events, walking from the
/// front: a key event selects the key, value fragments accumulate, and a
/// completed value returns the pair — or nothing when a value completes
/// without a key or the events run out.
pub open spec fn spec_next_pair(es: Seq<Event>, key: Option<Seq<u8>>, acc: Seq<u8>) -> Option<
    (Seq<u8>, Seq<u8>),
>
    decreases es.len(),
{
    if es.len() == 0 {
        Option::None
    } else {
        match es[0] {
            Event::SectionKey(k) => spec_next_pair(es.skip(1), Option::Some(k.name@), acc),
            Event::Value(v) => match key {
                Option::Some(n) => Option::Some((n, spec_normalize(v@))),
                Option::None => Option::None,
            },
            Event::ValueNotDone(v) => spec_next_pair(es.skip(1), key, acc + v@),
            Event::ValueDone(v) => match key {
                Option::Some(n) => Option::Some((n, spec_normalize(acc + v@))),
                Option::None => Option::None,
            },
            _ => spec_next_pair(es.skip(1), key, acc),
        }
    }
}

/// The index of the last key event, or a negative position when there is
/// none.
pub open spec fn last_key_at(es: Seq<Event>) -> int
    decreases es.len(),
{
    if es.len() == 0 {
        -1
    } else if es[es.len() - 1] is SectionKey {
        es.len() - 1
    } else {
        last_key_at(es.drop_last())
    }
}

/// The forward scan that collects every completed value run of the key
/// named `name`, in order: a matching key arms the scan, any key event of
/// another name leaves the armed state untouched, a complete value or a
/// closing fragment emits one normalized run and disarms.  A pending
/// fragment is replaced, not extended, by the next opening fragment.
pub open spec fn spec_runs(es: Seq<Event>, name: Seq<u8>, armed: bool, pending: Seq<u8>) -> Seq<
    Seq<u8>,
>
    decreases es.len(),
{
    if es.len() == 0 {
        Seq::empty()
    } else {
        match es[0] {
            Event::SectionKey(k) => spec_runs(
                es.skip(1),
                name,
                if k.name@ == name {
                    true
                } else {
                    armed
                },
                pending,
            ),
            Event::Value(v) => if armed {
                seq![spec_normalize(v@)] + spec_runs(es.skip(1), name, false, Seq::empty())
            } else {
                spec_runs(es.skip(1), name, armed, pending)
            },
            Event::ValueNotDone(v) => if armed {
                spec_runs(es.skip(1), name, armed, v@)
            } else {
                spec_runs(es.skip(1), name, armed, pending)
            },
            Event::ValueDone(v) => if armed {
                seq![spec_normalize(pending + v@)] + spec_runs(es.skip(1), name, false,
                    Seq::empty())
            } else {
                spec_runs(es.skip(1), name, armed, pending)
            },
            _ => spec_runs(es.skip(1), name, armed, pending),
        }
    }
}

/// A closing fragment only ever arrives with an opening fragment pending,
/// while the scan for `name` is armed.
pub open spec fn runs_ok(es: Seq<Event>, name: Seq<u8>, armed: bool, has_pending: bool) -> bool
    decreases es.len(),
{
    if es.len() == 0 {
        true
    } else {
        match es[0] {
            Event::SectionKey(k) => runs_ok(
                es.skip(1),
                name,
                if k.name@ == name {
                    true
                } else {
                    armed
                },
                has_pending,
            ),
            Event::Value(v) => if armed {
                runs_ok(es.skip(1), name, false, false)
            } else {
                runs_ok(es.skip(1), name, armed, has_pending)
            },
            Event::ValueNotDone(v) => if armed {
                runs_ok(es.skip(1), name, armed, true)
            } else {
                runs_ok(es.skip(1), name, armed, has_pending)
            },
            Event::ValueDone(v) => if armed {
                has_pending && runs_ok(es.skip(1), name, false, false)
            } else {
                runs_ok(es.skip(1), name, armed, has_pending)
            },
            _ => runs_ok(es.skip(1), name, armed, has_pending),
        }
    }
}

/// Why a lookup returned nothing.
#[derive(Clone, Copy, PartialEq, Eq, Structural, Debug)]
pub enum LookupError {
    KeyMissing,
}

/// The forward scan of events `i..end` for the first value belonging to
/// the key named `name`: a matching key arms the scan, a complete value
/// returns at once, fragments accumulate until a closing fragment
/// returns the whole; the raw bytes are returned, or nothing when no
/// value completes and no fragments remain.
pub open spec fn spec_get_scan(
    es: Seq<Event>,
    name: Seq<u8>,
    i: int,
    end: int,
    armed: bool,
    acc: Option<Seq<u8>>,
) -> Option<Seq<u8>>
    decreases end - i,
{
    if i >= end {
        acc
    } else {
        match es[i] {
            Event::SectionKey(k) => spec_get_scan(
                es,
                name,
                i + 1,
                end,
                if k.name@ == name {
                    true
                } else {
                    armed
                },
                acc,
            ),
            Event::Value(v) => if armed {
                Option::Some(v@)
            } else {
                spec_get_scan(es, name, i + 1, end, armed, acc)
            },
            Event::ValueNotDone(v) => if armed {
                spec_get_scan(
                    es,
                    name,
                    i + 1,
                    end,
                    armed,
                    Option::Some(
                        (match acc {
                            Option::Some(a) => a,
                            Option::None => Seq::empty(),
                        }) + v@,
                    ),
                )
            } else {
                spec_get_scan(es, name, i + 1, end, armed, acc)
            },
            Event::ValueDone(v) => if armed {
                Option::Some(
                    (match acc {
                        Option::Some(a) => a,
                        Option::None => Seq::empty(),
                    }) + v@,
                )
            } else {
                spec_get_scan(es, name, i + 1, end, armed, acc)
            },
            _ => spec_get_scan(es, name, i + 1, end, armed, acc),
        }
    }
}

/// An opaque type that represents a section body.
#[derive(Debug)]
pub struct SectionBody {
    events: Vec<Event>,
}

/// An opaque type that represents a mutable section; it owns the body it
/// edits and hands it back when editing is done.
#[derive(Debug)]
pub struct MutableSection {
    section: SectionBody,
    implicit_newline: bool,
    whitespace: usize,
}

impl SectionBody {
    /// The events of this body, in order.
    pub closed spec fn view(&self) -> Seq<Event> {
        self.events@
    }

    /// An empty section body.
    pub fn new_body() -> (r: SectionBody)
        ensures
            r@ == Seq::<Event>::empty(),
    {
        let events: Vec<Event> = Vec::new();
        proof {
            assert(events@ =~= Seq::<Event>::empty());
        }
        SectionBody { events }
    }

    /// Appends one event.
    pub fn push_event(&mut self, e: Event)
        ensures
            final(self)@ == old(self)@.push(e),
    {
        self.events.push(e);
    }

    /// The number of events.
    pub fn len(&self) -> (r: usize)
        ensures
            r == self@.len(),
    {
        self.events.len()
    }

    /// Checks if the section contains the provided key.
    pub fn contains_key(&self, key: &Key) -> (r: bool)
        ensures
            r <==> exists|i: int| 0 <= i < self@.len() && is_key_named(#[trigger] self@[i], key.name@),
    {
        let mut i: usize = 0;
        while i < self.events.len()
            invariant
                i <= self@.len(),
                forall|q: int| 0 <= q < i ==> !is_key_named(#[trigger] self@[q], key.name@),
            decreases self@.len() - i,
        {
            match &self.events[i] {
                Event::SectionKey(k) => {
                    if crate::lines::bytes_eq(&k.name, &key.name) {
                        proof {
                            assert(is_key_named(self@[i as int], key.name@));
                        }
                        return true;
                    }
                },
                _ => {},
            }
            i = i + 1;
        }
        false
    }


    /// Returns the range containing the value events for the key: the
    /// events of the last matching occurrence, or an empty range when
    /// the key is not found.
    pub fn value_range_by_key(&self, key: &Key) -> (r: (usize, usize))
        ensures
            (r.0 as int, r.1 as int) == spec_value_range(self@, key.name@),
            r.0 <= r.1 <= self@.len(),
    {
        let mut vs: usize = 0;
        let mut ve: usize = 0;
        let mut i: usize = self.events.len();
        proof {
            assert(self@.subrange(0, i as int) =~= self@);
        }
        while i > 0
            invariant
                i <= self@.len(),
                vs <= ve <= self@.len(),
                ve > 0 ==> i <= ve,
                spec_value_range(self@, key.name@) == vr_walk(
                    self@.subrange(0, i as int),
                    key.name@,
                    vs as int,
                    ve as int,
                ),
            decreases i,
        {
            i = i - 1;
            proof {
                assert(self@.subrange(0, i + 1).drop_last() =~= self@.subrange(0, i as int));
                assert(self@.subrange(0, i + 1).last() == self@[i as int]);
                assert(self@.subrange(0, self@.len() as int) =~= self@);
            }
            match &self.events[i] {
                Event::SectionKey(k) => {
                    if crate::lines::bytes_eq(&k.name, &key.name) {
                        return (vs, ve);
                    }
                    vs = 0;
                    ve = 0;
                },
                Event::Value(_) => {
                    ve = i + 1;
                    vs = i;
                },
                Event::ValueNotDone(_) => {
                    if ve == 0 {
                        ve = i + 1;
                    } else {
                        vs = i;
                    }
                },
                Event::ValueDone(_) => {
                    if ve == 0 {
                        ve = i + 1;
                    } else {
                        vs = i;
                    }
                },
                _ => {},
            }
        }
        proof {
            assert(self@.subrange(0, 0) =~= Seq::<Event>::empty());
        }
        (vs, ve)
    }

    /// The concatenated value bytes of the events `lo..hi`.
    fn payloads(&self, lo: usize, hi: usize) -> (r: Vec<u8>)
        requires
            lo <= hi <= self@.len(),
        ensures
            r@ == payload_concat(self@, lo as int, hi as int),
    {
        let mut r: Vec<u8> = Vec::new();
        let mut k: usize = lo;
        proof {
            assert(r@ + payload_concat(self@, lo as int, hi as int) =~= payload_concat(
                self@,
                lo as int,
                hi as int,
            ));
        }
        while k < hi
            invariant
                lo <= k <= hi <= self@.len(),
                payload_concat(self@, lo as int, hi as int) == r@ + payload_concat(
                    self@,
                    k as int,
                    hi as int,
                ),
            decreases hi - k,
        {
            let ghost before = r@;
            match &self.events[k] {
                Event::Value(v) => {
                    let mut q: usize = 0;
                    while q < v.len()
                        invariant
                            q <= v@.len(),
                            r@ == before + v@.subrange(0, q as int),
                        decreases v@.len() - q,
                    {
                        r.push(v[q]);
                        proof {
                            assert(r@ =~= before + v@.subrange(0, q + 1));
                        }
                        q = q + 1;
                    }
                    proof {
                        assert(v@.subrange(0, v@.len() as int) =~= v@);
                    }
                },
                Event::ValueNotDone(v) => {
                    let mut q: usize = 0;
                    while q < v.len()
                        invariant
                            q <= v@.len(),
                            r@ == before + v@.subrange(0, q as int),
                        decreases v@.len() - q,
                    {
                        r.push(v[q]);
                        proof {
                            assert(r@ =~= before + v@.subrange(0, q + 1));
                        }
                        q = q + 1;
                    }
                    proof {
                        assert(v@.subrange(0, v@.len() as int) =~= v@);
                    }
                },
                Event::ValueDone(v) => {
                    let mut q: usize = 0;
                    while q < v.len()
                        invariant
                            q <= v@.len(),
                            r@ == before + v@.subrange(0, q as int),
                        decreases v@.len() - q,
                    {
                        r.push(v[q]);
                        proof {
                            assert(r@ =~= before + v@.subrange(0, q + 1));
                        }
                        q = q + 1;
                    }
                    proof {
                        assert(v@.subrange(0, v@.len() as int) =~= v@);
                    }
                },
                _ => {},
            }
            proof {
                assert(r@ =~= before + payload_of(self@[k as int]));
                assert(payload_concat(self@, lo as int, hi as int) =~= r@ + payload_concat(
                    self@,
                    k + 1,
                    hi as int,
                ));
            }
            k = k + 1;
        }
        proof {
            assert(payload_concat(self@, hi as int, hi as int) =~= Seq::<u8>::empty());
            assert(payload_concat(self@, lo as int, hi as int) =~= r@);
        }
        r
    }

    /// Retrieves the last matching value in the section for the given
    /// key, if present: the value events' bytes joined and normalized.
    pub fn value(&self, key: &Key) -> (r: Option<Vec<u8>>)
        ensures
            ({
                let (vs, ve) = spec_value_range(self@, key.name@);
                if vs >= ve {
                    r is None
                } else {
                    r matches Some(v) && v@ == spec_normalize(payload_concat(self@, vs, ve))
                }
            }),
    {
        let (vs, ve) = self.value_range_by_key(key);
        if vs >= ve {
            return Option::None;
        }
        Option::Some(normalize(self.payloads(vs, ve)))
    }


    /// Retrieves all values that have the provided key name, in order and
    /// normalized; an empty list means the key has no values.
    #[verifier::rlimit(100)]
    pub fn values(&self, key: &Key) -> (r: Vec<Vec<u8>>)
        requires
            runs_ok(self@, key.name@, false, false),
        ensures
            crate::lines::view_lines(r@) == spec_runs(self@, key.name@, false, Seq::empty()),
    {
        let mut r: Vec<Vec<u8>> = Vec::new();
        let mut armed: bool = false;
        let mut pending: Vec<u8> = Vec::new();
        let mut has_pending: bool = false;
        let mut i: usize = 0;
        proof {
            assert(self@.skip(0) =~= self@);
            assert(crate::lines::view_lines(r@) + spec_runs(self@, key.name@, false, Seq::empty())
                =~= spec_runs(self@, key.name@, false, Seq::empty()));
        }
        while i < self.events.len()
            invariant
                i <= self@.len(),
                has_pending ==> armed,
                spec_runs(self@, key.name@, false, Seq::empty()) == crate::lines::view_lines(r@)
                    + spec_runs(self@.skip(i as int), key.name@, armed, (if has_pending {
                    pending@
                } else {
                    Seq::empty()
                })),
                runs_ok(self@.skip(i as int), key.name@, armed, has_pending),
            decreases self@.len() - i,
        {
            let ghost rem = self@.skip(i as int);
            proof {
                assert(rem[0] == self@[i as int]);
                assert(rem.skip(1) =~= self@.skip(i + 1));
            }
            match &self.events[i] {
                Event::SectionKey(k) => {
                    if crate::lines::bytes_eq(&k.name, &key.name) {
                        armed = true;
                    }
                },
                Event::Value(v) => {
                    if armed {
                        let run = normalize(crate::lines::clone_bytes(v));
                        proof {
                            crate::lines::lemma_view_lines_push(r@, run);
                            assert(crate::lines::view_lines(r@).push(run@) + spec_runs(
                                self@.skip(i + 1),
                                key.name@,
                                false,
                                Seq::empty(),
                            ) =~= crate::lines::view_lines(r@) + (seq![run@] + spec_runs(
                                self@.skip(i + 1),
                                key.name@,
                                false,
                                Seq::empty(),
                            )));
                        }
                        r.push(run);
                        armed = false;
                        has_pending = false;
                    }
                },
                Event::ValueNotDone(v) => {
                    if armed {
                        pending = crate::lines::clone_bytes(v);
                        has_pending = true;
                    }
                },
                Event::ValueDone(v) => {
                    if armed {
                        let mut joined = crate::lines::clone_bytes(&pending);
                        let mut q: usize = 0;
                        let ghost before = joined@;
                        while q < v.len()
                            invariant
                                q <= v@.len(),
                                joined@ == before + v@.subrange(0, q as int),
                            decreases v@.len() - q,
                        {
                            joined.push(v[q]);
                            proof {
                                assert(joined@ =~= before + v@.subrange(0, q + 1));
                            }
                            q = q + 1;
                        }
                        proof {
                            assert(v@.subrange(0, v@.len() as int) =~= v@);
                        }
                        let run = normalize(joined);
                        proof {
                            crate::lines::lemma_view_lines_push(r@, run);
                            assert(crate::lines::view_lines(r@).push(run@) + spec_runs(
                                self@.skip(i + 1),
                                key.name@,
                                false,
                                Seq::empty(),
                            ) =~= crate::lines::view_lines(r@) + (seq![run@] + spec_runs(
                                self@.skip(i + 1),
                                key.name@,
                                false,
                                Seq::empty(),
                            )));
                        }
                        r.push(run);
                        armed = false;
                        has_pending = false;
                    }
                },
                _ => {},
            }
            i = i + 1;
        }
        proof {
            assert(self@.skip(self@.len() as int).len() == 0);
            assert(crate::lines::view_lines(r@) + Seq::<Seq<u8>>::empty() =~= crate::lines::view_lines(r@));
        }
        r
    }

    /// Returns the number of values in the section, one per key event.
    pub fn num_values(&self) -> (r: usize)
        ensures
            r == count_keys(self@),
    {
        let mut i: usize = 0;
        let mut n: usize = 0;
        proof {
            lemma_count_keys_bounds(self@);
        }
        while i < self.events.len()
            invariant
                i <= self@.len(),
                n == count_keys(self@.subrange(0, i as int)),
                n <= i,
            decreases self@.len() - i,
        {
            let is_k = match &self.events[i] {
                Event::SectionKey(_) => true,
                _ => false,
            };
            proof {
                lemma_count_keys_snoc(self@.subrange(0, i + 1));
                assert(self@.subrange(0, i + 1).drop_last() =~= self@.subrange(0, i as int));
            }
            if is_k {
                n = n + 1;
            }
            i = i + 1;
        }
        proof {
            assert(self@.subrange(0, self@.len() as int) =~= self@);
        }
        n
    }

    /// Returns if the section is empty.
    pub fn is_empty(&self) -> (r: bool)
        ensures
            r <==> self@.len() == 0,
    {
        self.events.len() == 0
    }

    /// Returns all keys, one per key event and in section order: the
    /// element at each position carries the name of the key event it
    /// came from, duplicates yielded once per occurrence.
    pub fn keys(&self) -> (r: Vec<Key>)
        ensures
            names_of(r@) == key_names(self@),
            r@.len() == count_keys(self@),
    {
        let mut r: Vec<Key> = Vec::new();
        let mut i: usize = 0;
        proof {
            lemma_count_keys_bounds(self@);
        }
        while i < self.events.len()
            invariant
                i <= self@.len(),
                r@.len() == count_keys(self@.subrange(0, i as int)),
                names_of(r@) == key_names(self@.subrange(0, i as int)),
            decreases self@.len() - i,
        {
            proof {
                lemma_count_keys_snoc(self@.subrange(0, i + 1));
                lemma_key_names_snoc(self@.subrange(0, i + 1));
                assert(self@.subrange(0, i + 1).drop_last() =~= self@.subrange(0, i as int));
                assert(self@.subrange(0, i + 1).last() == self@[i as int]);
            }
            match &self.events[i] {
                Event::SectionKey(k) => {
                    let name = crate::lines::clone_bytes(&k.name);
                    let kk = Key { name };
                    proof {
                        assert(names_of(r@.push(kk)) =~= names_of(r@).push(kk.name@));
                        assert(names_of(r@).push(kk.name@) =~= key_names(self@.subrange(
                            0,
                            i + 1,
                        )));
                    }
                    r.push(kk);
                },
                _ => {
                    proof {
                        assert(key_names(self@.subrange(0, i + 1)) =~= key_names(self@.subrange(
                            0,
                            i as int,
                        )));
                    }
                },
            }
            i = i + 1;
        }
        proof {
            assert(self@.subrange(0, self@.len() as int) =~= self@);
        }
        r
    }
}

/// Key counting peels one event off the back.
proof fn lemma_count_keys_snoc(es: Seq<Event>)
    requires
        es.len() > 0,
    ensures
        count_keys(es) == count_keys(es.drop_last()) + (if es.last() is SectionKey {
            1int
        } else {
            0int
        }),
    decreases es.len(),
{
    if es.len() == 1 {
        assert(es.drop_last() =~= Seq::<Event>::empty());
        assert(es.skip(1) =~= Seq::<Event>::empty());
    } else {
        lemma_count_keys_snoc(es.skip(1));
        assert(es.skip(1).drop_last() =~= es.drop_last().skip(1));
        assert(es.drop_last()[0] == es[0]);
    }
}

/// Key counting never exceeds the number of events.
proof fn lemma_count_keys_bounds(es: Seq<Event>)
    ensures
        0 <= count_keys(es) <= es.len(),
    decreases es.len(),
{
    if es.len() > 0 {
        lemma_count_keys_bounds(es.skip(1));
    }
}

impl MutableSection {
    /// Opens a section body for editing, with implicit newlines on and
    /// two spaces of leading whitespace, the defaults.
    pub fn new(section: SectionBody) -> (r: MutableSection)
        ensures
            r.events() == section@,
            r.implicit() == true,
            r.spaces() == 2,
    {
        MutableSection { section, implicit_newline: true, whitespace: 2 }
    }

    /// The events of the section being edited.
    pub closed spec fn events(&self) -> Seq<Event> {
        self.section@
    }

    /// Whether a newline event follows each added value.
    pub closed spec fn implicit(&self) -> bool {
        self.implicit_newline
    }

    /// The number of leading spaces inserted before a key.
    pub closed spec fn spaces(&self) -> int {
        self.whitespace as int
    }

    /// Hands the edited body back.
    pub fn into_body(self) -> (r: SectionBody)
        ensures
            r@ == self.events(),
    {
        self.section
    }

    /// Adds a new line event.  Note that this is only needed when
    /// implicit newlines are disabled.
    pub fn push_newline(&mut self)
        ensures
            final(self).events().len() == old(self).events().len() + 1,
            final(self).events().subrange(0, old(self).events().len() as int) == old(
                self,
            ).events(),
            final(self).events().last() matches Event::Newline(v) && v@ == seq![10u8],
            final(self).implicit() == old(self).implicit(),
            final(self).spaces() == old(self).spaces(),
    {
        let mut nl: Vec<u8> = Vec::new();
        nl.push(10u8);
        proof {
            assert(nl@ =~= seq![10u8]);
        }
        self.section.push_event(Event::Newline(nl));
        proof {
            assert(self.section@.subrange(0, old(self).events().len() as int) =~= old(
                self,
            ).events());
        }
    }

    /// Enables or disables automatically adding newline events after
    /// adding a value.  This is enabled by default.
    pub fn set_implicit_newline(&mut self, on: bool)
        ensures
            final(self).implicit() == on,
            final(self).events() == old(self).events(),
            final(self).spaces() == old(self).spaces(),
    {
        self.implicit_newline = on;
    }

    /// Sets the number of spaces before the start of a key value.  The
    /// default is two; zero disables leading whitespace.
    pub fn set_leading_space(&mut self, num: usize)
        ensures
            final(self).spaces() == num,
            final(self).events() == old(self).events(),
            final(self).implicit() == old(self).implicit(),
    {
        self.whitespace = num;
    }

    /// Returns the number of space characters inserted before the
    /// beginning of a key.
    pub fn leading_space(&self) -> (r: usize)
        ensures
            r == self.spaces(),
    {
        self.whitespace
    }

    /// Adds an entry to the end of this section: optional leading
    /// whitespace, the key, the separator, the value, and an implicit
    /// newline unless disabled.
    pub fn push(&mut self, key: Key, value: Vec<u8>)
        ensures
            pushed_entry(
                old(self).events(),
                final(self).events(),
                key.name@,
                value@,
                old(self).spaces(),
                old(self).implicit(),
            ),
            final(self).implicit() == old(self).implicit(),
            final(self).spaces() == old(self).spaces(),
    {
        let ghost es0 = self.section@;
        if self.whitespace > 0 {
            let mut w: Vec<u8> = Vec::new();
            let mut q: usize = 0;
            while q < self.whitespace
                invariant
                    q <= self.whitespace,
                    w@ == Seq::new(q as nat, |z: int| 32u8),
                decreases self.whitespace - q,
            {
                w.push(32u8);
                proof {
                    assert(w@ =~= Seq::new((q + 1) as nat, |z: int| 32u8));
                }
                q = q + 1;
            }
            self.section.push_event(Event::Whitespace(w));
        }
        self.section.push_event(Event::SectionKey(key));
        self.section.push_event(Event::KeyValueSeparator);
        self.section.push_event(Event::Value(value));
        if self.implicit_newline {
            let mut nl: Vec<u8> = Vec::new();
            nl.push(10u8);
            proof {
                assert(nl@ =~= seq![10u8]);
            }
            self.section.push_event(Event::Newline(nl));
        }
        proof {
            assert(self.section@.subrange(0, es0.len() as int) =~= es0);
        }
    }




    /// Looks up the first value of the key within the events
    /// `start..=end`: a simple value is taken whole, fragmented values
    /// are joined; the result is normalized.  The key missing from the
    /// range is the one error.
    #[verifier::rlimit(100)]
    pub fn get(&self, key: &Key, start: usize, end: usize) -> (r: Result<Vec<u8>, LookupError>)
        requires
            start <= end < self.events().len(),
        ensures
            ({
                let sp = spec_get_scan(self.events(), key.name@, start as int, end + 1, false,
                    Option::None);
                match r {
                    Result::Ok(v) => sp matches Some(raw) && v@ == spec_normalize(raw),
                    Result::Err(e) => sp is None && e == LookupError::KeyMissing,
                }
            }),
    {
        let ghost es = self.events();
        let ghost name = key.name@;
        let n = self.section.len();
        let mut armed: bool = false;
        let mut acc: Vec<u8> = Vec::new();
        let mut has_acc: bool = false;
        let mut i: usize = start;
        while i <= end
            invariant
                start <= i <= end + 1,
                end < n,
                n == es.len(),
                es == self.events(),
                name == key.name@,
                has_acc ==> armed,
                !has_acc ==> acc@ == Seq::<u8>::empty(),
                spec_get_scan(es, name, start as int, end + 1, false, Option::None)
                    == spec_get_scan(es, name, i as int, end + 1, armed, (if has_acc {
                    Option::Some(acc@)
                } else {
                    Option::<Seq<u8>>::None
                })),
            decreases end + 1 - i,
        {
            match &self.section.events[i] {
                Event::SectionKey(k) => {
                    if crate::lines::bytes_eq(&k.name, &key.name) {
                        armed = true;
                    }
                },
                Event::Value(v) => {
                    if armed {
                        return Result::Ok(normalize(crate::lines::clone_bytes(v)));
                    }
                },
                Event::ValueNotDone(v) => {
                    if armed {
                        let ghost before = acc@;
                        let mut q: usize = 0;
                        while q < v.len()
                            invariant
                                q <= v@.len(),
                                acc@ == before + v@.subrange(0, q as int),
                            decreases v@.len() - q,
                        {
                            acc.push(v[q]);
                            proof {
                                assert(acc@ =~= before + v@.subrange(0, q + 1));
                            }
                            q = q + 1;
                        }
                        proof {
                            assert(v@.subrange(0, v@.len() as int) =~= v@);
                            if !has_acc {
                                assert(acc@ =~= Seq::<u8>::empty() + v@);
                            }
                        }
                        has_acc = true;
                    }
                },
                Event::ValueDone(v) => {
                    if armed {
                        let ghost before = acc@;
                        let mut q: usize = 0;
                        while q < v.len()
                            invariant
                                q <= v@.len(),
                                acc@ == before + v@.subrange(0, q as int),
                            decreases v@.len() - q,
                        {
                            acc.push(v[q]);
                            proof {
                                assert(acc@ =~= before + v@.subrange(0, q + 1));
                            }
                            q = q + 1;
                        }
                        proof {
                            assert(v@.subrange(0, v@.len() as int) =~= v@);
                            if !has_acc {
                                assert(acc@ =~= Seq::<u8>::empty() + v@);
                            }
                        }
                        return Result::Ok(normalize(acc));
                    }
                },
                _ => {},
            }
            i = i + 1;
        }
        if has_acc {
            return Result::Ok(normalize(acc));
        }
        Result::Err(LookupError::KeyMissing)
    }

    /// Removes events from the end until a key-value pair has been
    /// removed, together with the whitespace preceding it, and returns
    /// the key with the normalized concatenation of its value payloads.
    /// When no key event exists, every event is removed and nothing is
    /// returned.
    #[verifier::rlimit(100)]
    pub fn pop(&mut self) -> (r: Option<(Key, Vec<u8>)>)
        ensures
            ({
                let es0 = old(self).events();
                let es = final(self).events();
                let ki = last_key_at(es0);
                if ki < 0 {
                    r is None && es.len() == 0
                } else {
                    (r matches Some(p) && p.0.name@ == key_name_of(es0[ki]) && p.1@
                        == spec_normalize(payload_concat(es0, ki + 1, es0.len() as int)))
                        && es0[ki] is SectionKey && es == es0.subrange(
                        0,
                        if ki > 0 && es0[ki - 1] is Whitespace {
                            ki - 1
                        } else {
                            ki
                        },
                    )
                }
            }),
            final(self).implicit() == old(self).implicit(),
            final(self).spaces() == old(self).spaces(),
    {
        let ghost es0 = self.section.events@;
        let n = self.section.len();
        let mut i: usize = n;
        proof {
            assert(es0.subrange(0, i as int) =~= es0);
        }
        while i > 0
            invariant
                i <= n,
                n == es0.len(),
                es0 == self.section.events@,
                es0 == old(self).events(),
                last_key_at(es0) == last_key_at(es0.subrange(0, i as int)),
                self.implicit_newline == old(self).implicit_newline,
                self.whitespace == old(self).whitespace,
            decreases i,
        {
            i = i - 1;
            proof {
                assert(es0.subrange(0, i + 1).drop_last() =~= es0.subrange(0, i as int));
                assert(es0.subrange(0, i + 1).last() == es0[i as int]);
            }
            let is_k = match &self.section.events[i] {
                Event::SectionKey(_) => true,
                _ => false,
            };
            if is_k {
                proof {
                    assert(last_key_at(es0) == i);
                }
                let payload = self.section.payloads(i + 1, n);
                let name = match &self.section.events[i] {
                    Event::SectionKey(k) => {
                        let nm = crate::lines::clone_bytes(&k.name);
                        proof {
                            assert(es0[i as int] matches Event::SectionKey(k0) && nm@
                                == k0.name@);
                        }
                        nm
                    },
                    _ => {
                        proof {
                            assert(false);
                        }
                        Vec::new()
                    },
                };
                let ghost nm0 = name@;
                let cut = if i > 0 && (match &self.section.events[i - 1] {
                    Event::Whitespace(_) => true,
                    _ => false,
                }) {
                    i - 1
                } else {
                    i
                };
                proof {
                    assert(cut as int == (if i > 0 && es0[i - 1] is Whitespace {
                        i - 1
                    } else {
                        i as int
                    }));
                }
                self.section.events.truncate(cut);
                proof {
                    assert(last_key_at(es0) == i);
                    assert(nm0 == key_name_of(es0[i as int]));
                }
                return Option::Some((Key { name }, normalize(payload)));
            }
        }
        proof {
            assert(es0.subrange(0, 0) =~= Seq::<Event>::empty());
            assert(last_key_at(es0) == -1);
        }
        self.section.events.truncate(0);
        proof {
            assert(self.section.events@ =~= es0.subrange(0, 0));
        }
        Option::None
    }

    /// Removes the latest value by key and returns its raw bytes, if it
    /// exists.
    pub fn remove(&mut self, key: &Key) -> (r: Option<Vec<u8>>)
        ensures
            ({
                let (vs, ve) = spec_value_range(old(self).events(), key.name@);
                if vs >= ve {
                    r is None && final(self).events() == old(self).events()
                } else {
                    (r matches Some(v) && v@ == payload_concat(old(self).events(), vs, ve))
                        && final(self).events() == old(self).events().subrange(0, vs) + old(
                        self,
                    ).events().subrange(ve, old(self).events().len() as int)
                }
            }),
            final(self).implicit() == old(self).implicit(),
            final(self).spaces() == old(self).spaces(),
    {
        let (vs, ve) = self.section.value_range_by_key(key);
        if vs >= ve {
            return Option::None;
        }
        let payload = self.section.payloads(vs, ve);
        self.delete(vs, ve - 1);
        Option::Some(payload)
    }

    /// Sets the last value for the key if one exists, returning the raw
    /// bytes it replaced; otherwise adds the pair to the end of the
    /// section and returns nothing.
    pub fn set(&mut self, key: Key, value: Vec<u8>) -> (r: Option<Vec<u8>>)
        ensures
            ({
                let (vs, ve) = spec_value_range(old(self).events(), key.name@);
                let es0 = old(self).events();
                let es = final(self).events();
                if vs >= ve {
                    r is None && pushed_entry(es0, es, key.name@, value@, old(self).spaces(),
                        old(self).implicit())
                } else {
                    (r matches Some(v) && v@ == payload_concat(es0, vs, ve)) && es.len() == vs + 1
                        + (es0.len() - ve) && es.subrange(0, vs) == es0.subrange(0, vs) && (es[vs]
                        matches Event::Value(v2) && v2@ == value@) && es.subrange(
                        vs + 1,
                        es.len() as int,
                    ) == es0.subrange(ve, es0.len() as int)
                }
            }),
            final(self).implicit() == old(self).implicit(),
            final(self).spaces() == old(self).spaces(),
    {
        let (vs, ve) = self.section.value_range_by_key(&key);
        if vs >= ve {
            self.push(key, value);
            return Option::None;
        }
        let payload = self.section.payloads(vs, ve);
        self.delete(vs, ve - 1);
        self.section.events.insert(vs, Event::Value(value));
        proof {
            let es0 = old(self).events();
            assert(self.section.events@.subrange(0, vs as int) =~= es0.subrange(0, vs as int));
            assert(self.section.events@.subrange(vs + 1, self.section.events@.len() as int)
                =~= es0.subrange(ve as int, es0.len() as int));
        }
        Option::Some(payload)
    }

    /// Removes the events `start..=end`, assuming the range is valid.
    pub fn delete(&mut self, start: usize, end: usize)
        requires
            start <= end < old(self).events().len(),
        ensures
            final(self).events() == old(self).events().subrange(0, start as int) + old(
                self,
            ).events().subrange(end + 1, old(self).events().len() as int),
            final(self).implicit() == old(self).implicit(),
            final(self).spaces() == old(self).spaces(),
    {
        let ghost es0 = self.section.events@;
        let ghost n = es0.len() as int;
        let total = self.section.len();
        let mut k: usize = 0;
        let count = end - start + 1;
        proof {
            assert(self.section.events@ =~= es0.subrange(0, start as int) + es0.subrange(
                start as int,
                n,
            ));
        }
        while k < count
            invariant
                k <= count,
                count == end - start + 1,
                start <= end < n,
                n == es0.len(),
                self.section.events@ == es0.subrange(0, start as int) + es0.subrange(
                    start + k,
                    n,
                ),
                self.implicit_newline == old(self).implicit_newline,
                self.whitespace == old(self).whitespace,
            decreases count - k,
        {
            proof {
                assert(self.section.events@.len() == start + (n - (start + k)));
            }
            let removed = self.section.events.remove(start);
            proof {
                assert(self.section.events@ =~= es0.subrange(0, start as int) + es0.subrange(
                    start + (k + 1),
                    n,
                ));
            }
            k = k + 1;
        }
    }
}

impl SectionBody {
    /// A copy of the event at `i`.
    pub fn get_event(&self, i: usize) -> (r: Event)
        requires
            i < self@.len(),
        ensures
            ({
                let e = self@[i as int];
                match e {
                    Event::SectionKey(k) => r matches Event::SectionKey(k2) && k2.name@ == k.name@,
                    Event::Value(v) => r matches Event::Value(v2) && v2@ == v@,
                    Event::ValueNotDone(v) => r matches Event::ValueNotDone(v2) && v2@ == v@,
                    Event::ValueDone(v) => r matches Event::ValueDone(v2) && v2@ == v@,
                    Event::Newline(v) => r matches Event::Newline(v2) && v2@ == v@,
                    Event::Whitespace(v) => r matches Event::Whitespace(v2) && v2@ == v@,
                    Event::KeyValueSeparator => r is KeyValueSeparator,
                }
            }),
    {
        match &self.events[i] {
            Event::SectionKey(k) => Event::SectionKey(
                Key { name: crate::lines::clone_bytes(&k.name) },
            ),
            Event::Value(v) => Event::Value(crate::lines::clone_bytes(v)),
            Event::ValueNotDone(v) => Event::ValueNotDone(crate::lines::clone_bytes(v)),
            Event::ValueDone(v) => Event::ValueDone(crate::lines::clone_bytes(v)),
            Event::Newline(v) => Event::Newline(crate::lines::clone_bytes(v)),
            Event::Whitespace(v) => Event::Whitespace(crate::lines::clone_bytes(v)),
            Event::KeyValueSeparator => Event::KeyValueSeparator,
        }
    }
}

/// An owning iterator over the key-value pairs of a section body; created
/// by `SectionBody::into_iter_pairs`.
#[derive(Debug)]
pub struct SectionBodyIter {
    events: Vec<Event>,
    at: usize,
}

impl SectionBody {
    /// Starts an owning walk over the key-value pairs of this body.
    pub fn into_iter_pairs(self) -> (r: SectionBodyIter)
        ensures
            r.events_all() == self@,
            r.at_pos() == 0,
    {
        SectionBodyIter { events: self.events, at: 0 }
    }
}

impl SectionBodyIter {
    /// The events being walked.
    pub closed spec fn events_all(&self) -> Seq<Event> {
        self.events@
    }

    /// The cursor: how many events have been consumed.
    pub closed spec fn at_pos(&self) -> int {
        self.at as int
    }

    /// The next key paired with its value, with fragmented values joined
    /// and the result normalized; or nothing when no complete pair is
    /// left, or when a value completes without a key.  Consumes events
    /// until a value completes.
    pub fn next(&mut self) -> (r: Option<(Key, Vec<u8>)>)
        ensures
            final(self).events_all() == old(self).events_all(),
            final(self).at_pos() >= old(self).at_pos(),
            old(self).at_pos() <= old(self).events_all().len() ==> ({
                let sp = spec_next_pair(
                    old(self).events_all().skip(old(self).at_pos()),
                    Option::None,
                    Seq::empty(),
                );
                match r {
                    Option::Some(p) => sp == Option::Some((p.0.name@, p.1@)),
                    Option::None => sp is None,
                }
            }),
    {
        if self.at >= self.events.len() {
            proof {
                if self.at as int <= self.events@.len() {
                    assert(self.events@.skip(self.at as int).len() == 0);
                }
            }
            return Option::None;
        }
        let mut key: Option<Key> = Option::None;
        let mut partial: Vec<u8> = Vec::new();
        let ghost orig = self.events@.skip(old(self).at_pos());
        proof {
            assert(spec_next_pair(orig, Option::None, Seq::empty()) == spec_next_pair(
                self.events@.skip(self.at as int),
                Option::None,
                partial@,
            ));
        }
        while self.at < self.events.len()
            invariant
                self.at <= self.events@.len(),
                self.events@ == old(self).events_all(),
                self.at >= old(self).at_pos(),
                spec_next_pair(orig, Option::None, Seq::empty()) == spec_next_pair(
                    self.events@.skip(self.at as int),
                    match key {
                        Option::Some(k) => Option::Some(k.name@),
                        Option::None => Option::<Seq<u8>>::None,
                    },
                    partial@,
                ),
                orig == old(self).events_all().skip(old(self).at_pos()),
            decreases self.events@.len() - self.at,
        {
            let ghost rem = self.events@.skip(self.at as int);
            proof {
                assert(rem[0] == self.events@[self.at as int]);
                assert(rem.skip(1) =~= self.events@.skip(self.at + 1));
            }
            let e = self.get_here();
            self.at = self.at + 1;
            match e {
                Event::SectionKey(k) => {
                    key = Option::Some(k);
                },
                Event::Value(v) => {
                    match key {
                        Option::Some(k) => {
                            return Option::Some((k, normalize(v)));
                        },
                        Option::None => {
                            return Option::None;
                        },
                    }
                },
                Event::ValueNotDone(v) => {
                    let ghost before = partial@;
                    let mut q: usize = 0;
                    while q < v.len()
                        invariant
                            q <= v@.len(),
                            partial@ == before + v@.subrange(0, q as int),
                        decreases v@.len() - q,
                    {
                        partial.push(v[q]);
                        proof {
                            assert(partial@ =~= before + v@.subrange(0, q + 1));
                        }
                        q = q + 1;
                    }
                    proof {
                        assert(v@.subrange(0, v@.len() as int) =~= v@);
                    }
                },
                Event::ValueDone(v) => {
                    let ghost before = partial@;
                    let mut q: usize = 0;
                    while q < v.len()
                        invariant
                            q <= v@.len(),
                            partial@ == before + v@.subrange(0, q as int),
                        decreases v@.len() - q,
                    {
                        partial.push(v[q]);
                        proof {
                            assert(partial@ =~= before + v@.subrange(0, q + 1));
                        }
                        q = q + 1;
                    }
                    proof {
                        assert(v@.subrange(0, v@.len() as int) =~= v@);
                    }
                    match key {
                        Option::Some(k) => {
                            return Option::Some((k, normalize(partial)));
                        },
                        Option::None => {
                            return Option::None;
                        },
                    }
                },
                _ => {},
            }
        }
        proof {
            assert(self.events@.skip(self.at as int).len() == 0);
        }
        Option::None
    }

    /// A copy of the event at the cursor.
    fn get_here(&self) -> (r: Event)
        requires
            self.at_pos() < self.events_all().len(),
        ensures
            ({
                let e = self.events_all()[self.at_pos()];
                match e {
                    Event::SectionKey(k) => r matches Event::SectionKey(k2) && k2.name@ == k.name@,
                    Event::Value(v) => r matches Event::Value(v2) && v2@ == v@,
                    Event::ValueNotDone(v) => r matches Event::ValueNotDone(v2) && v2@ == v@,
                    Event::ValueDone(v) => r matches Event::ValueDone(v2) && v2@ == v@,
                    Event::Newline(v) => r matches Event::Newline(v2) && v2@ == v@,
                    Event::Whitespace(v) => r matches Event::Whitespace(v2) && v2@ == v@,
                    Event::KeyValueSeparator => r is KeyValueSeparator,
                }
            }),
    {
        match &self.events[self.at] {
            Event::SectionKey(k) => Event::SectionKey(
                Key { name: crate::lines::clone_bytes(&k.name) },
            ),
            Event::Value(v) => Event::Value(crate::lines::clone_bytes(v)),
            Event::ValueNotDone(v) => Event::ValueNotDone(crate::lines::clone_bytes(v)),
            Event::ValueDone(v) => Event::ValueDone(crate::lines::clone_bytes(v)),
            Event::Newline(v) => Event::Newline(crate::lines::clone_bytes(v)),
            Event::Whitespace(v) => Event::Whitespace(crate::lines::clone_bytes(v)),
            Event::KeyValueSeparator => Event::KeyValueSeparator,
        }
    }
}

/// Strips one pair of surrounding double quotes, when both are present.
pub fn normalize(v: Vec<u8>) -> (r: Vec<u8>)
    ensures
        r@ == spec_normalize(v@),
{
    if v.len() >= 2 && v[0] == 34u8 && v[v.len() - 1] == 34u8 {
        let mut r: Vec<u8> = Vec::new();
        let mut i: usize = 1;
        while i < v.len() - 1
            invariant
                1 <= i <= v@.len() - 1,
                v@.len() >= 2,
                r@ == v@.subrange(1, i as int),
            decreases v@.len() - i,
        {
            r.push(v[i]);
            proof {
                assert(r@ =~= v@.subrange(1, i + 1));
            }
            i = i + 1;
        }
        r
    } else {
        crate::lines::clone_bytes(&v)
    }
}

} // verus!
