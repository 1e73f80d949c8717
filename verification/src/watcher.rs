//! The watch engine: a mirror of an appid's raw child names is diffed against
//! each children snapshot, newly appeared children become `Create` events and
//! vanished ones `Delete` events, each decoded at emission time; a child that
//! does not decode is dropped and stays tracked. A second, consumer-side
//! mirror keyed on instance identity suppresses duplicate transitions.
use crate::codec::Decoder;
use crate::escape::str_eq;
use crate::insts_model;
use crate::same_identity;
use crate::strs_model;
use crate::Instance;
use crate::InstanceModel;
use vstd::prelude::*;
use vstd::utf8::encode_utf8;

verus! {

/// A membership change under a watched appid.
#[derive(Debug, PartialEq, Eq)]
pub enum Event {
    Create(Instance),
    Delete(Instance),
}

/// The std clock type that stamps emitted events.
#[verifier::external_type_specification]
#[verifier::external_body]
pub struct ExSystemTime(std::time::SystemTime);

/// Relies on std's SystemTime::now for the wall-clock stamp of an event;
/// nothing is assumed of the value.
#[verifier::external_body]
fn now() -> std::time::SystemTime {
    std::time::SystemTime::now()
}

/// An [`Event`] stamped with the wall clock at emission.
#[derive(Debug)]
pub struct WatchEvent {
    pub event: Event,
    pub timestamp: std::time::SystemTime,
}

impl WatchEvent {
    pub fn new(event: Event) -> (r: WatchEvent)
        ensures
            r.event == event,
    {
        WatchEvent { event, timestamp: now() }
    }
}

/// A source of watch events.
pub trait Watcher {

}

/// What a membership event means to a service set: a service inserted under
/// the instance's appid, or that key removed.
pub enum ChangeKind {
    Insert(String),
    Remove(String),
}

/// The service-set change an event calls for: a creation inserts under the
/// instance's appid, a deletion removes that key.
pub fn discover_change(ev: &Event) -> (r: ChangeKind)
    ensures
        (ev matches Event::Create(i) ==> (r matches ChangeKind::Insert(k) && k@ == i@.appid)),
        (ev matches Event::Delete(i) ==> (r matches ChangeKind::Remove(k) && k@ == i@.appid)),
{
    match ev {
        Event::Create(i) => ChangeKind::Insert(i.appid.clone()),
        Event::Delete(i) => ChangeKind::Remove(i.appid.clone()),
    }
}

/// The names of `s` that are not members of `excl`, in the order of `s`.
pub open spec fn filter_not_in(s: Seq<Seq<char>>, excl: Seq<Seq<char>>) -> Seq<Seq<char>>
    decreases s.len(),
{
    if s.len() == 0 {
        Seq::<Seq<char>>::empty()
    } else {
        (if excl.contains(s[0]) {
            Seq::<Seq<char>>::empty()
        } else {
            seq![s[0]]
        }) + filter_not_in(s.drop_first(), excl)
    }
}

/// Membership in the filtered list is exactly membership in the source
/// without membership in the excluded set.
pub proof fn lemma_filter_not_in_membership(s: Seq<Seq<char>>, excl: Seq<Seq<char>>, x: Seq<char>)
    ensures
        filter_not_in(s, excl).contains(x) <==> s.contains(x) && !excl.contains(x),
    decreases s.len(),
{
    if s.len() == 0 {
    } else {
        lemma_filter_not_in_membership(s.drop_first(), excl, x);
        let rest = filter_not_in(s.drop_first(), excl);
        let whole = filter_not_in(s, excl);
        if excl.contains(s[0]) {
            assert(whole =~= rest);
        }
        if whole.contains(x) {
            let j = choose|j: int| 0 <= j < whole.len() && whole[j] == x;
            if !excl.contains(s[0]) && j == 0 {
                assert(s[0] == x);
            } else {
                let off: int = if excl.contains(s[0]) {
                    0
                } else {
                    1
                };
                assert(rest[j - off] == x);
            }
            if s.drop_first().contains(x) {
                let j2 = choose|j2: int| 0 <= j2 < s.drop_first().len() && s.drop_first()[j2] == x;
                assert(s[j2 + 1] == x);
            }
        }
        if s.contains(x) && !excl.contains(x) {
            let j = choose|j: int| 0 <= j < s.len() && s[j] == x;
            if j == 0 {
                assert(whole[0] == x);
            } else {
                assert(s.drop_first()[j - 1] == x);
                assert(rest.contains(x));
                let j3 = choose|j3: int| 0 <= j3 < rest.len() && rest[j3] == x;
                let off: int = if excl.contains(s[0]) {
                    0
                } else {
                    1
                };
                assert(whole[j3 + off] == x);
            }
        }
    }
}

proof fn lemma_filter_not_in_concat(u: Seq<Seq<char>>, w: Seq<Seq<char>>, excl: Seq<Seq<char>>)
    ensures
        filter_not_in(u + w, excl) == filter_not_in(u, excl) + filter_not_in(w, excl),
    decreases u.len(),
{
    if u.len() == 0 {
        assert(u + w =~= w);
        assert(filter_not_in(u, excl) + filter_not_in(w, excl) =~= filter_not_in(w, excl));
    } else {
        lemma_filter_not_in_concat(u.drop_first(), w, excl);
        assert((u + w).drop_first() =~= u.drop_first() + w);
        assert(filter_not_in(u + w, excl) =~= filter_not_in(u, excl) + filter_not_in(w, excl));
    }
}

/// One more name extends the filtered list by it when it is not excluded.
pub proof fn lemma_filter_not_in_step(s: Seq<Seq<char>>, excl: Seq<Seq<char>>, i: int)
    requires
        0 <= i < s.len(),
    ensures
        filter_not_in(s.take(i + 1), excl) == filter_not_in(s.take(i), excl) + (if excl.contains(
            s[i],
        ) {
            Seq::<Seq<char>>::empty()
        } else {
            seq![s[i]]
        }),
{
    assert(s.take(i + 1) =~= s.take(i) + seq![s[i]]);
    lemma_filter_not_in_concat(s.take(i), seq![s[i]], excl);
    let single = seq![s[i]];
    assert(single.drop_first() =~= Seq::<Seq<char>>::empty());
    assert(filter_not_in(Seq::<Seq<char>>::empty(), excl) =~= Seq::<Seq<char>>::empty());
    assert(filter_not_in(single, excl) =~= (if excl.contains(s[i]) {
        Seq::<Seq<char>>::empty()
    } else {
        seq![s[i]]
    }));
}

/// Whether a name is in the list.
fn names_contain(names: &Vec<String>, x: &str) -> (r: bool)
    ensures
        r == strs_model(names@).contains(x@),
{
    let n = names.len();
    let mut i: usize = 0;
    while i < n
        invariant
            i <= n,
            n == names@.len(),
            forall|j: int| 0 <= j < i ==> #[trigger] names@[j]@ != x@,
        decreases n - i,
    {
        if str_eq(names[i].as_str(), x) {
            assert(strs_model(names@)[i as int] == x@);
            return true;
        }
        i = i + 1;
    }
    proof {
        if strs_model(names@).contains(x@) {
            let j = choose|j: int|
                0 <= j < strs_model(names@).len() && strs_model(names@)[j] == x@;
            assert(names@[j]@ == x@);
        }
    }
    false
}

/// The raw mirror of one watched appid: the child names of the last snapshot.
pub struct WatcherCore {
    mirror: Vec<String>,
}

/// What one children snapshot produces: the events to emit, in creates-first
/// order, and the raw names first observed now, each needing a per-child
/// existence watch.
pub struct WatchStep {
    pub events: Vec<WatchEvent>,
    pub added: Vec<String>,
}

impl View for WatcherCore {
    type V = Seq<Seq<char>>;

    closed spec fn view(&self) -> Seq<Seq<char>> {
        strs_model(self.mirror@)
    }
}

/// One decode outcome per name: `Some` carries an instance the decoder can
/// return for the name, `None` stands for a name the decoder rejected.
pub open spec fn decode_results<D: Decoder>(
    names: Seq<Seq<char>>,
    rs: Seq<Option<Instance>>,
    decoder: D,
) -> bool {
    &&& rs.len() == names.len()
    &&& forall|j: int|
        0 <= j < rs.len() ==> match #[trigger] rs[j] {
            Some(i) => decoder.post(encode_utf8(names[j]), Ok(i)),
            None => exists|e: <D as Decoder>::Error| decoder.post(encode_utf8(names[j]), Err(e)),
        }
}

/// The events a row of decode outcomes emits: one per decoded name, in
/// order; rejected names emit nothing.
pub open spec fn emitted(rs: Seq<Option<Instance>>, del: bool) -> Seq<Event>
    decreases rs.len(),
{
    if rs.len() == 0 {
        Seq::<Event>::empty()
    } else {
        (match rs[0] {
            Some(i) => seq![
                if del {
                    Event::Delete(i)
                } else {
                    Event::Create(i)
                },
            ],
            None => Seq::<Event>::empty(),
        }) + emitted(rs.drop_first(), del)
    }
}

proof fn lemma_emitted_concat(u: Seq<Option<Instance>>, w: Seq<Option<Instance>>, del: bool)
    ensures
        emitted(u + w, del) == emitted(u, del) + emitted(w, del),
    decreases u.len(),
{
    if u.len() == 0 {
        assert(u + w =~= w);
        assert(emitted(u, del) + emitted(w, del) =~= emitted(w, del));
    } else {
        lemma_emitted_concat(u.drop_first(), w, del);
        assert((u + w).drop_first() =~= u.drop_first() + w);
        assert(emitted(u + w, del) =~= emitted(u, del) + emitted(w, del));
    }
}

/// One more decode outcome appends its event, or nothing.
proof fn lemma_emitted_snoc(u: Seq<Option<Instance>>, x: Option<Instance>, del: bool)
    ensures
        emitted(u.push(x), del) == emitted(u, del) + (match x {
            Some(i) => seq![
                if del {
                    Event::Delete(i)
                } else {
                    Event::Create(i)
                },
            ],
            None => Seq::<Event>::empty(),
        }),
{
    assert(u.push(x) =~= u + seq![x]);
    lemma_emitted_concat(u, seq![x], del);
    let single = seq![x];
    assert(single.drop_first() =~= Seq::<Option<Instance>>::empty());
    assert(emitted(Seq::<Option<Instance>>::empty(), del) =~= Seq::<Event>::empty());
    assert(emitted(single, del) =~= (match x {
        Some(i) => seq![
            if del {
                Event::Delete(i)
            } else {
                Event::Create(i)
            },
        ],
        None => Seq::<Event>::empty(),
    }));
}

/// The event payloads of a list of stamped events.
pub open spec fn events_model(evs: Seq<WatchEvent>) -> Seq<Event> {
    evs.map_values(|we: WatchEvent| we.event)
}

impl Watcher for WatcherCore {

}

impl WatcherCore {
    /// A fresh mirror: the first snapshot will report every child as created.
    pub fn new() -> (r: Self)
        ensures
            r@ == Seq::<Seq<char>>::empty(),
    {
        let r = WatcherCore { mirror: Vec::new() };
        proof {
            assert(r@ =~= Seq::<Seq<char>>::empty());
        }
        r
    }

    /// One children snapshot: the appeared names (not in the mirror) and the
    /// vanished ones (no longer among the children), in encounter order; the
    /// snapshot replaces the mirror. Decoding happens at emission: each
    /// appeared name emits one `Create` and each vanished name one `Delete`
    /// carrying its decoded instance, names the decoder rejects emit nothing,
    /// and every `Create` comes before any `Delete`.
    #[verifier::rlimit(60)]
    pub fn on_children<D: Decoder>(&mut self, children: Vec<String>, decoder: &D) -> (r: WatchStep)
        ensures
            final(self)@ == strs_model(children@),
            strs_model(r.added@) == filter_not_in(strs_model(children@), old(self)@),
            ({
                let created = filter_not_in(strs_model(children@), old(self)@);
                let deleted = filter_not_in(old(self)@, strs_model(children@));
                exists|rs_c: Seq<Option<Instance>>, rs_d: Seq<Option<Instance>>|
                    {
                        &&& #[trigger] decode_results(created, rs_c, *decoder)
                        &&& #[trigger] decode_results(deleted, rs_d, *decoder)
                        &&& events_model(r.events@) == emitted(rs_c, false) + emitted(rs_d, true)
                    }
            }),
    {
        let ghost old_m = self@;
        let ghost new_m = strs_model(children@);
        let ghost created = filter_not_in(new_m, old_m);
        let ghost deleted = filter_not_in(old_m, new_m);
        let mut added: Vec<String> = Vec::new();
        let mut events: Vec<WatchEvent> = Vec::new();
        let ghost mut rs_c: Seq<Option<Instance>> = Seq::empty();
        let n = children.len();
        let mut i: usize = 0;
        proof {
            assert(strs_model(added@) =~= filter_not_in(new_m.take(0), old_m));
            assert(events_model(events@) =~= emitted(rs_c, false));
        }
        while i < n
            invariant
                i <= n,
                n == children@.len(),
                new_m == strs_model(children@),
                old_m == self@,
                created == filter_not_in(new_m, old_m),
                deleted == filter_not_in(old_m, new_m),
                strs_model(added@) == filter_not_in(new_m.take(i as int), old_m),
                decode_results(filter_not_in(new_m.take(i as int), old_m), rs_c, *decoder),
                events_model(events@) == emitted(rs_c, false),
            decreases n - i,
        {
            proof {
                lemma_filter_not_in_step(new_m, old_m, i as int);
                assert(new_m[i as int] == children@[i as int]@);
            }
            if !names_contain(&self.mirror, children[i].as_str()) {
                added.push(children[i].clone());
                proof {
                    assert(strs_model(added@) =~= filter_not_in(new_m.take(i + 1), old_m));
                }
                let ghost pre = filter_not_in(new_m.take(i as int), old_m);
                let ghost x = new_m[i as int];
                let ghost rs0 = rs_c;
                let ghost evs0 = events@;
                assert(filter_not_in(new_m.take(i + 1), old_m) =~= pre.push(x));
                match decoder.decode(children[i].as_str().as_bytes()) {
                    Ok(ins) => {
                        let we = WatchEvent::new(Event::Create(ins));
                        events.push(we);
                        proof {
                            lemma_emitted_snoc(rs0, Some(ins), false);
                            rs_c = rs0.push(Some(ins));
                            assert(decode_results(pre.push(x), rs_c, *decoder)) by {
                                assert(forall|j: int|
                                    0 <= j < pre.len() ==> #[trigger] rs_c[j] == rs0[j]
                                        && pre.push(x)[j] == pre[j]);
                                assert(rs_c[pre.len() as int] == Some(ins));
                                assert(pre.push(x)[pre.len() as int] == x);
                            }
                            assert(events_model(events@) =~= events_model(evs0).push(we.event));
                            assert(events_model(events@) =~= emitted(rs_c, false));
                        }
                    },
                    Err(e) => {
                        proof {
                            lemma_emitted_snoc(rs0, None, false);
                            rs_c = rs0.push(None);
                            assert(decode_results(pre.push(x), rs_c, *decoder)) by {
                                assert(forall|j: int|
                                    0 <= j < pre.len() ==> #[trigger] rs_c[j] == rs0[j]
                                        && pre.push(x)[j] == pre[j]);
                                assert(rs_c[pre.len() as int] is None);
                                assert(pre.push(x)[pre.len() as int] == x);
                                assert(exists|e2: <D as Decoder>::Error|
                                    decoder.post(encode_utf8(x), Err(e2))) by {
                                    assert(decoder.post(encode_utf8(x), Err(e)));
                                }
                            }
                            assert(events_model(events@) =~= emitted(rs_c, false));
                        }
                    },
                }
            } else {
                proof {
                    assert(strs_model(added@) =~= filter_not_in(new_m.take(i + 1), old_m));
                    assert(filter_not_in(new_m.take(i + 1), old_m) =~= filter_not_in(
                        new_m.take(i as int),
                        old_m,
                    ));
                }
            }
            i = i + 1;
        }
        proof {
            assert(new_m.take(n as int) =~= new_m);
        }
        let ghost mut rs_d: Seq<Option<Instance>> = Seq::empty();
        let dn = self.mirror.len();
        let mut d: usize = 0;
        proof {
            assert(emitted(rs_d, true) =~= Seq::<Event>::empty());
            assert(events_model(events@) =~= emitted(rs_c, false) + emitted(rs_d, true));
        }
        while d < dn
            invariant
                d <= dn,
                dn == self.mirror@.len(),
                old_m == self@,
                new_m == strs_model(children@),
                n == children@.len(),
                created == filter_not_in(new_m, old_m),
                deleted == filter_not_in(old_m, new_m),
                strs_model(added@) == created,
                decode_results(created, rs_c, *decoder),
                decode_results(filter_not_in(old_m.take(d as int), new_m), rs_d, *decoder),
                events_model(events@) == emitted(rs_c, false) + emitted(rs_d, true),
            decreases dn - d,
        {
            proof {
                lemma_filter_not_in_step(old_m, new_m, d as int);
                assert(old_m[d as int] == self.mirror@[d as int]@);
            }
            if !names_contain(&children, self.mirror[d].as_str()) {
                let ghost pre = filter_not_in(old_m.take(d as int), new_m);
                let ghost x = old_m[d as int];
                let ghost rs0 = rs_d;
                let ghost evs0 = events@;
                assert(filter_not_in(old_m.take(d + 1), new_m) =~= pre.push(x));
                match decoder.decode(self.mirror[d].as_str().as_bytes()) {
                    Ok(ins) => {
                        let we = WatchEvent::new(Event::Delete(ins));
                        events.push(we);
                        proof {
                            lemma_emitted_snoc(rs0, Some(ins), true);
                            rs_d = rs0.push(Some(ins));
                            assert(decode_results(pre.push(x), rs_d, *decoder)) by {
                                assert(forall|j: int|
                                    0 <= j < pre.len() ==> #[trigger] rs_d[j] == rs0[j]
                                        && pre.push(x)[j] == pre[j]);
                                assert(rs_d[pre.len() as int] == Some(ins));
                                assert(pre.push(x)[pre.len() as int] == x);
                            }
                            assert(events_model(events@) =~= events_model(evs0).push(we.event));
                            assert(events_model(events@) =~= emitted(rs_c, false) + emitted(
                                rs_d,
                                true,
                            ));
                        }
                    },
                    Err(e) => {
                        proof {
                            lemma_emitted_snoc(rs0, None, true);
                            rs_d = rs0.push(None);
                            assert(decode_results(pre.push(x), rs_d, *decoder)) by {
                                assert(forall|j: int|
                                    0 <= j < pre.len() ==> #[trigger] rs_d[j] == rs0[j]
                                        && pre.push(x)[j] == pre[j]);
                                assert(rs_d[pre.len() as int] is None);
                                assert(pre.push(x)[pre.len() as int] == x);
                                assert(exists|e2: <D as Decoder>::Error|
                                    decoder.post(encode_utf8(x), Err(e2))) by {
                                    assert(decoder.post(encode_utf8(x), Err(e)));
                                }
                            }
                            assert(events_model(events@) =~= emitted(rs_c, false) + emitted(
                                rs_d,
                                true,
                            ));
                        }
                    },
                }
            } else {
                proof {
                    assert(filter_not_in(old_m.take(d + 1), new_m) =~= filter_not_in(
                        old_m.take(d as int),
                        new_m,
                    ));
                }
            }
            d = d + 1;
        }
        proof {
            assert(old_m.take(dn as int) =~= old_m);
        }
        self.mirror = children;
        WatchStep { events, added }
    }

    /// A per-child existence watch reported the child absent: it leaves the
    /// mirror, and when it was tracked and decodes, one `Delete` is emitted.
    pub fn on_child_absent<D: Decoder>(&mut self, name: &str, decoder: &D) -> (r: Option<
        WatchEvent,
    >)
        ensures
            final(self)@ == filter_not_in(old(self)@, seq![name@]),
            (r matches Some(ev) ==> old(self)@.contains(name@) && (ev.event matches Event::Delete(
                i,
            ) && decoder.post(encode_utf8(name@), Ok(i)))),
            !old(self)@.contains(name@) ==> r is None,
            (old(self)@.contains(name@) && r is None ==> exists|e: <D as Decoder>::Error|
                decoder.post(encode_utf8(name@), Err(e))),
    {
        let ghost old_m = self@;
        let mut kept: Vec<String> = Vec::new();
        let mut was_tracked = false;
        let n = self.mirror.len();
        let mut i: usize = 0;
        proof {
            assert(strs_model(kept@) =~= filter_not_in(old_m.take(0), seq![name@]));
        }
        while i < n
            invariant
                i <= n,
                n == self.mirror@.len(),
                old_m == self@,
                strs_model(kept@) == filter_not_in(old_m.take(i as int), seq![name@]),
                was_tracked <==> exists|j: int| 0 <= j < i && old_m[j] == name@,
            decreases n - i,
        {
            proof {
                lemma_filter_not_in_step(old_m, seq![name@], i as int);
                assert(old_m[i as int] == self.mirror@[i as int]@);
            }
            if str_eq(self.mirror[i].as_str(), name) {
                was_tracked = true;
                proof {
                    assert(seq![name@].contains(old_m[i as int])) by {
                        assert(seq![name@][0] == old_m[i as int]);
                    }
                    assert(strs_model(kept@) =~= filter_not_in(old_m.take(i + 1), seq![name@]));
                }
            } else {
                kept.push(self.mirror[i].clone());
                proof {
                    assert(!seq![name@].contains(old_m[i as int])) by {
                        assert(forall|j: int|
                            0 <= j < seq![name@].len() ==> #[trigger] seq![name@][j] == name@);
                    }
                    assert(strs_model(kept@) =~= filter_not_in(old_m.take(i + 1), seq![name@]));
                }
            }
            i = i + 1;
        }
        proof {
            assert(old_m.take(n as int) =~= old_m);
        }
        self.mirror = kept;
        if !was_tracked {
            proof {
                if old_m.contains(name@) {
                    let j = choose|j: int| 0 <= j < old_m.len() && old_m[j] == name@;
                    assert(false);
                }
            }
            return None;
        }
        match decoder.decode(name.as_bytes()) {
            Ok(ins) => Some(WatchEvent::new(Event::Delete(ins))),
            Err(e) => {
                proof {
                    assert(exists|e2: <D as Decoder>::Error|
                        decoder.post(encode_utf8(name@), Err(e2))) by {
                        assert(decoder.post(encode_utf8(name@), Err(e)));
                    }
                }
                None
            },
        }
    }
}


/// Whether some member of the list has this identity.
pub open spec fn has_ident(s: Seq<InstanceModel>, x: InstanceModel) -> bool {
    exists|j: int| 0 <= j < s.len() && same_identity(s[j], x)
}

/// The list without its first member of this identity.
pub open spec fn remove_first_ident(s: Seq<InstanceModel>, x: InstanceModel) -> Seq<InstanceModel>
    decreases s.len(),
{
    if s.len() == 0 {
        s
    } else if same_identity(s[0], x) {
        s.drop_first()
    } else {
        seq![s[0]] + remove_first_ident(s.drop_first(), x)
    }
}

/// No two members share an identity.
pub open spec fn distinct_idents(s: Seq<InstanceModel>) -> bool {
    forall|i: int, j: int|
        #![trigger s[i], s[j]]
        0 <= i < j < s.len() ==> !same_identity(s[i], s[j])
}

/// One event against the consumer mirror: a creation is forwarded exactly
/// when its identity is new, and then joins the mirror; a deletion is
/// forwarded exactly when its identity is present, and then leaves it.
pub open spec fn consume(s: Seq<InstanceModel>, create: bool, x: InstanceModel) -> (
    Seq<InstanceModel>,
    bool,
) {
    if create {
        if has_ident(s, x) {
            (s, false)
        } else {
            (s.push(x), true)
        }
    } else {
        if has_ident(s, x) {
            (remove_first_ident(s, x), true)
        } else {
            (s, false)
        }
    }
}

/// The instance an event carries, and whether it is a creation.
pub open spec fn event_ident(ev: Event) -> InstanceModel {
    match ev {
        Event::Create(i) => i@,
        Event::Delete(i) => i@,
    }
}

pub open spec fn event_is_create(ev: Event) -> bool {
    ev is Create
}

/// Removing the first member of an identity from a duplicate-free list
/// removes that identity altogether, and nothing else.
pub proof fn lemma_remove_first_ident(s: Seq<InstanceModel>, x: InstanceModel)
    requires
        distinct_idents(s),
        has_ident(s, x),
    ensures
        !has_ident(remove_first_ident(s, x), x),
        distinct_idents(remove_first_ident(s, x)),
        remove_first_ident(s, x).len() == s.len() - 1,
        forall|y: InstanceModel|
            #[trigger] has_ident(remove_first_ident(s, x), y) ==> has_ident(s, y),
    decreases s.len(),
{
    let t = s.drop_first();
    assert(forall|j: int| 0 <= j < t.len() ==> #[trigger] t[j] == s[j + 1]);
    if same_identity(s[0], x) {
        assert(remove_first_ident(s, x) == t);
        assert forall|j: int| 0 <= j < t.len() implies !same_identity(#[trigger] t[j], x) by {
            assert(!same_identity(s[0], s[j + 1]));
        }
        if has_ident(t, x) {
            let j = choose|j: int| 0 <= j < t.len() && same_identity(t[j], x);
            assert(false);
        }
    } else {
        assert(has_ident(t, x)) by {
            let j = choose|j: int| 0 <= j < s.len() && same_identity(s[j], x);
            assert(t[j - 1] == s[j]);
        }
        lemma_remove_first_ident(t, x);
        let rt = remove_first_ident(t, x);
        let whole = remove_first_ident(s, x);
        assert(whole == seq![s[0]] + rt);
        assert(whole.len() == s.len() - 1);
        assert forall|i: int, j: int|
            #![trigger whole[i], whole[j]]
            0 <= i < j < whole.len() implies !same_identity(whole[i], whole[j]) by {
            if i == 0 {
                assert(has_ident(rt, whole[j])) by {
                    assert(same_identity(rt[j - 1], whole[j]));
                }
                let k = choose|k: int| 0 <= k < t.len() && same_identity(t[k], whole[j]);
                assert(!same_identity(s[0], t[k]));
            }
        }
        if has_ident(whole, x) {
            let j = choose|j: int| 0 <= j < whole.len() && same_identity(whole[j], x);
            if j == 0 {
                assert(false);
            } else {
                assert(same_identity(rt[j - 1], x));
                assert(false);
            }
        }
        assert forall|y: InstanceModel| #[trigger] has_ident(whole, y) implies has_ident(
            s,
            y,
        ) by {
            let j = choose|j: int| 0 <= j < whole.len() && same_identity(whole[j], y);
            if j == 0 {
            } else {
                assert(has_ident(rt, y)) by {
                    assert(same_identity(rt[j - 1], y));
                }
                assert(has_ident(t, y));
                let k = choose|k: int| 0 <= k < t.len() && same_identity(t[k], y);
                assert(same_identity(s[k + 1], y));
            }
        }
    }
}

/// Consuming one event keeps the mirror free of duplicate identities, and
/// membership of any identity moves as the forwarded event says: a forwarded
/// creation of the identity adds it, a forwarded deletion removes it, and
/// anything else leaves it.
pub proof fn lemma_consume_membership(
    s: Seq<InstanceModel>,
    create: bool,
    y: InstanceModel,
    x: InstanceModel,
)
    requires
        distinct_idents(s),
    ensures
        ({
            let (s1, f) = consume(s, create, y);
            &&& distinct_idents(s1)
            &&& (same_identity(y, x) ==> has_ident(s1, x) == if create {
                true
            } else {
                false
            })
            &&& (!same_identity(y, x) ==> has_ident(s1, x) == has_ident(s, x))
            &&& f == (create != has_ident(s, y))
        }),
{
    let (s1, f) = consume(s, create, y);
    if create {
        if has_ident(s, y) {
            if same_identity(y, x) {
                let j = choose|j: int| 0 <= j < s.len() && same_identity(s[j], y);
                assert(same_identity(s[j], x));
            }
        } else {
            assert(s1 == s.push(y));
            assert(distinct_idents(s1)) by {
                assert forall|i: int, j: int|
                    #![trigger s1[i], s1[j]]
                    0 <= i < j < s1.len() implies !same_identity(s1[i], s1[j]) by {
                    if j == s.len() {
                        assert(s1[i] == s[i]);
                        if same_identity(s[i], y) {
                            assert(has_ident(s, y));
                        }
                    }
                }
            }
            if same_identity(y, x) {
                assert(has_ident(s1, x)) by {
                    assert(same_identity(s1[s.len() as int], x));
                }
            } else {
                assert(has_ident(s1, x) == has_ident(s, x)) by {
                    if has_ident(s1, x) {
                        let j = choose|j: int| 0 <= j < s1.len() && same_identity(s1[j], x);
                        if j < s.len() {
                            assert(same_identity(s[j], x));
                        } else {
                            assert(same_identity(y, x));
                        }
                    }
                    if has_ident(s, x) {
                        let j = choose|j: int| 0 <= j < s.len() && same_identity(s[j], x);
                        assert(same_identity(s1[j], x));
                    }
                }
            }
        }
    } else {
        if has_ident(s, y) {
            lemma_remove_first_ident_frame(s, y);
            lemma_remove_first_ident(s, y);
            if same_identity(y, x) {
                assert(!has_ident(s1, x)) by {
                    if has_ident(s1, x) {
                        let j = choose|j: int| 0 <= j < s1.len() && same_identity(s1[j], x);
                        assert(same_identity(s1[j], y));
                        assert(has_ident(s1, y));
                    }
                }
            }
        } else {
            if same_identity(y, x) && has_ident(s, x) {
                let j = choose|j: int| 0 <= j < s.len() && same_identity(s[j], x);
                assert(same_identity(s[j], y));
            }
        }
    }
}

/// Removing one identity's member leaves every other identity's membership
/// alone.
proof fn lemma_remove_first_ident_frame(s: Seq<InstanceModel>, x: InstanceModel)
    ensures
        forall|y: InstanceModel|
            !same_identity(y, x) ==> (#[trigger] has_ident(remove_first_ident(s, x), y)
                == has_ident(s, y)),
    decreases s.len(),
{
    if s.len() == 0 {
    } else {
        let t = s.drop_first();
        assert(forall|j: int| 0 <= j < t.len() ==> #[trigger] t[j] == s[j + 1]);
        if same_identity(s[0], x) {
            assert forall|y: InstanceModel| !same_identity(y, x) implies (#[trigger] has_ident(
                remove_first_ident(s, x),
                y,
            ) == has_ident(s, y)) by {
                if has_ident(s, y) {
                    let j = choose|j: int| 0 <= j < s.len() && same_identity(s[j], y);
                    if j == 0 {
                        assert(same_identity(y, x)) by {
                            assert(same_identity(s[0], y) && same_identity(s[0], x));
                        }
                    } else {
                        assert(same_identity(t[j - 1], y));
                    }
                }
                if has_ident(t, y) {
                    let j = choose|j: int| 0 <= j < t.len() && same_identity(t[j], y);
                    assert(same_identity(s[j + 1], y));
                }
            }
        } else {
            lemma_remove_first_ident_frame(t, x);
            let rt = remove_first_ident(t, x);
            let whole = remove_first_ident(s, x);
            assert(whole == seq![s[0]] + rt);
            assert forall|y: InstanceModel| !same_identity(y, x) implies (#[trigger] has_ident(
                whole,
                y,
            ) == has_ident(s, y)) by {
                if has_ident(whole, y) {
                    let j = choose|j: int| 0 <= j < whole.len() && same_identity(whole[j], y);
                    if j == 0 {
                        assert(same_identity(s[0], y));
                    } else {
                        assert(has_ident(rt, y)) by {
                            assert(same_identity(rt[j - 1], y));
                        }
                        assert(has_ident(t, y));
                        let k = choose|k: int| 0 <= k < t.len() && same_identity(t[k], y);
                        assert(same_identity(s[k + 1], y));
                    }
                }
                if has_ident(s, y) {
                    let j = choose|j: int| 0 <= j < s.len() && same_identity(s[j], y);
                    if j == 0 {
                        assert(same_identity(whole[0], y));
                    } else {
                        assert(has_ident(t, y)) by {
                            assert(same_identity(t[j - 1], y));
                        }
                        assert(has_ident(rt, y));
                        let k = choose|k: int| 0 <= k < rt.len() && same_identity(rt[k], y);
                        assert(same_identity(whole[k + 1], y));
                    }
                }
            }
        }
    }
}

/// The mirror after a run of events, oldest first.
pub open spec fn consume_all(
    s: Seq<InstanceModel>,
    evs: Seq<(bool, InstanceModel)>,
) -> Seq<InstanceModel>
    decreases evs.len(),
{
    if evs.len() == 0 {
        s
    } else {
        consume_all(consume(s, evs[0].0, evs[0].1).0, evs.drop_first())
    }
}

/// How many creations of this identity the run forwards.
pub open spec fn forwarded_creates(
    s: Seq<InstanceModel>,
    evs: Seq<(bool, InstanceModel)>,
    x: InstanceModel,
) -> nat
    decreases evs.len(),
{
    if evs.len() == 0 {
        0
    } else {
        (if evs[0].0 && consume(s, evs[0].0, evs[0].1).1 && same_identity(evs[0].1, x) {
            1nat
        } else {
            0nat
        }) + forwarded_creates(consume(s, evs[0].0, evs[0].1).0, evs.drop_first(), x)
    }
}

/// How many deletions of this identity the run forwards.
pub open spec fn forwarded_deletes(
    s: Seq<InstanceModel>,
    evs: Seq<(bool, InstanceModel)>,
    x: InstanceModel,
) -> nat
    decreases evs.len(),
{
    if evs.len() == 0 {
        0
    } else {
        (if !evs[0].0 && consume(s, evs[0].0, evs[0].1).1 && same_identity(evs[0].1, x) {
            1nat
        } else {
            0nat
        }) + forwarded_deletes(consume(s, evs[0].0, evs[0].1).0, evs.drop_first(), x)
    }
}

/// What the consumer observes balances: over any run of events, for each
/// identity, the forwarded creations and deletions pair up, with exactly one
/// unmatched creation for an identity that is a member at the end.
pub proof fn lemma_consumer_balance(
    s: Seq<InstanceModel>,
    evs: Seq<(bool, InstanceModel)>,
    x: InstanceModel,
)
    requires
        distinct_idents(s),
    ensures
        forwarded_creates(s, evs, x) + (if has_ident(s, x) {
            1nat
        } else {
            0nat
        }) == forwarded_deletes(s, evs, x) + (if has_ident(consume_all(s, evs), x) {
            1nat
        } else {
            0nat
        }),
    decreases evs.len(),
{
    if evs.len() == 0 {
    } else {
        lemma_consume_membership(s, evs[0].0, evs[0].1, x);
        lemma_consumer_balance(consume(s, evs[0].0, evs[0].1).0, evs.drop_first(), x);
    }
}

/// Duplicates are suppressed, so the consumer observes each transition
/// exactly once: once an event has been consumed, consuming the same event
/// again forwards nothing and changes nothing.
pub proof fn lemma_duplicate_suppressed(s: Seq<InstanceModel>, x: InstanceModel, create: bool)
    requires
        distinct_idents(s),
    ensures
        ({
            let (s1, f1) = consume(s, create, x);
            let (s2, f2) = consume(s1, create, x);
            &&& distinct_idents(s1)
            &&& s2 == s1
            &&& !f2
        }),
{
    if create {
        if !has_ident(s, x) {
            let s1 = s.push(x);
            assert(has_ident(s1, x)) by {
                assert(same_identity(s1[s.len() as int], x));
            }
            assert(distinct_idents(s1)) by {
                assert forall|i: int, j: int|
                    #![trigger s1[i], s1[j]]
                    0 <= i < j < s1.len() implies !same_identity(s1[i], s1[j]) by {
                    if j == s.len() {
                        assert(s1[i] == s[i]);
                        if same_identity(s[i], x) {
                            assert(has_ident(s, x));
                        }
                    }
                }
            }
        }
    } else {
        if has_ident(s, x) {
            lemma_remove_first_ident(s, x);
        }
    }
}

fn vec_strs_eq(a: &Vec<String>, b: &Vec<String>) -> (r: bool)
    ensures
        r == (strs_model(a@) == strs_model(b@)),
{
    if a.len() != b.len() {
        proof {
            assert(strs_model(a@).len() != strs_model(b@).len());
        }
        return false;
    }
    let n = a.len();
    let mut i: usize = 0;
    while i < n
        invariant
            i <= n,
            n == a@.len() == b@.len(),
            forall|j: int| 0 <= j < i ==> #[trigger] a@[j]@ == b@[j]@,
        decreases n - i,
    {
        if !str_eq(a[i].as_str(), b[i].as_str()) {
            proof {
                assert(strs_model(a@)[i as int] != strs_model(b@)[i as int]);
            }
            return false;
        }
        i = i + 1;
    }
    proof {
        assert(strs_model(a@) =~= strs_model(b@));
    }
    true
}

/// Whether two instances are the same member (see [`same_identity`]).
pub fn identity_eq(a: &Instance, b: &Instance) -> (r: bool)
    ensures
        r == same_identity(a@, b@),
{
    str_eq(a.appid.as_str(), b.appid.as_str()) && str_eq(a.version.as_str(), b.version.as_str())
        && str_eq(a.env.as_str(), b.env.as_str()) && vec_strs_eq(&a.addrs, &b.addrs)
}

/// The consumer-side mirror: the members seen so far, by identity. Duplicate
/// creations and deletions coming from racing watches are dropped here.
pub struct ConsumerMirror {
    seen: Vec<Instance>,
}

impl View for ConsumerMirror {
    type V = Seq<InstanceModel>;

    closed spec fn view(&self) -> Seq<InstanceModel> {
        insts_model(self.seen@)
    }
}

impl ConsumerMirror {
    pub fn new() -> (r: Self)
        ensures
            r@ == Seq::<InstanceModel>::empty(),
    {
        let r = ConsumerMirror { seen: Vec::new() };
        proof {
            assert(r@ =~= Seq::<InstanceModel>::empty());
        }
        r
    }

    fn find_ident(&self, x: &Instance) -> (r: Option<usize>)
        ensures
            match r {
                Some(j) => 0 <= j < self@.len() && same_identity(self@[j as int], x@) && (forall|
                    k: int,
                |
                    0 <= k < j ==> !same_identity(#[trigger] self@[k], x@)),
                None => !has_ident(self@, x@),
            },
    {
        let n = self.seen.len();
        let mut i: usize = 0;
        while i < n
            invariant
                i <= n,
                n == self.seen@.len(),
                forall|k: int| 0 <= k < i ==> !same_identity(#[trigger] self@[k], x@),
            decreases n - i,
        {
            if identity_eq(&self.seen[i], x) {
                proof {
                    assert(self@[i as int] == self.seen@[i as int]@);
                }
                return Some(i);
            }
            i = i + 1;
        }
        proof {
            if has_ident(self@, x@) {
                let j = choose|j: int| 0 <= j < self@.len() && same_identity(self@[j], x@);
                assert(false);
            }
        }
        None
    }

    /// One event through the de-duplication gate: the result is the event to
    /// forward, or nothing when it would repeat a transition the consumer has
    /// already observed (see [`consume`]).
    pub fn filter(&mut self, ev: Event) -> (r: Option<Event>)
        ensures
            final(self)@ == consume(old(self)@, event_is_create(ev), event_ident(ev)).0,
            (r is Some) == consume(old(self)@, event_is_create(ev), event_ident(ev)).1,
            (r matches Some(e2) ==> e2 == ev),
    {
        match ev {
            Event::Create(i) => {
                match self.find_ident(&i) {
                    Some(_) => None,
                    None => {
                        self.seen.push(i.duplicate());
                        proof {
                            assert(final(self)@ =~= old(self)@.push(i@));
                        }
                        Some(Event::Create(i))
                    },
                }
            },
            Event::Delete(i) => {
                match self.find_ident(&i) {
                    Some(j) => {
                        self.seen.remove(j);
                        proof {
                            assert(has_ident(old(self)@, i@)) by {
                                assert(same_identity(old(self)@[j as int], i@));
                            }
                            lemma_remove_first_ident_at(old(self)@, i@, j as int);
                            assert(final(self)@ =~= old(self)@.remove(j as int)) by {
                                assert(insts_model(old(self).seen@.remove(j as int)) =~= insts_model(
                                    old(self).seen@,
                                ).remove(j as int));
                            }
                        }
                        Some(Event::Delete(i))
                    },
                    None => None,
                }
            },
        }
    }
}

/// Removing the first member with an identity is removal at the first
/// matching index.
proof fn lemma_remove_first_ident_at(s: Seq<InstanceModel>, x: InstanceModel, j: int)
    requires
        0 <= j < s.len(),
        same_identity(s[j], x),
        forall|k: int| 0 <= k < j ==> !same_identity(#[trigger] s[k], x),
    ensures
        remove_first_ident(s, x) == s.remove(j),
    decreases j,
{
    if j == 0 {
        assert(remove_first_ident(s, x) == s.drop_first());
        assert(s.remove(0) =~= s.drop_first());
    } else {
        let t = s.drop_first();
        assert(forall|k: int| 0 <= k < t.len() ==> #[trigger] t[k] == s[k + 1]);
        lemma_remove_first_ident_at(t, x, j - 1);
        assert(remove_first_ident(s, x) == seq![s[0]] + t.remove(j - 1));
        assert(seq![s[0]] + t.remove(j - 1) =~= s.remove(j));
    }
}

/// The membership a run of children snapshots leaves in the raw mirror.
pub open spec fn mirror_after(m: Set<Seq<char>>, snaps: Seq<Set<Seq<char>>>) -> Set<Seq<char>>
    decreases snaps.len(),
{
    if snaps.len() == 0 {
        m
    } else {
        mirror_after(snaps[0], snaps.drop_first())
    }
}

/// How many times a run of snapshots reports the name as appeared.
pub open spec fn creates_for(x: Seq<char>, m: Set<Seq<char>>, snaps: Seq<Set<Seq<char>>>) -> nat
    decreases snaps.len(),
{
    if snaps.len() == 0 {
        0
    } else {
        (if snaps[0].contains(x) && !m.contains(x) {
            1nat
        } else {
            0nat
        }) + creates_for(x, snaps[0], snaps.drop_first())
    }
}

/// How many times a run of snapshots reports the name as vanished.
pub open spec fn deletes_for(x: Seq<char>, m: Set<Seq<char>>, snaps: Seq<Set<Seq<char>>>) -> nat
    decreases snaps.len(),
{
    if snaps.len() == 0 {
        0
    } else {
        (if m.contains(x) && !snaps[0].contains(x) {
            1nat
        } else {
            0nat
        }) + deletes_for(x, snaps[0], snaps.drop_first())
    }
}

/// Over any run of children snapshots, each name's appearances and
/// disappearances balance: a member of the final snapshot has exactly one
/// unmatched appearance, any other name exactly as many disappearances as
/// appearances. A snapshot reports a name as appeared exactly when the diff
/// of [`WatcherCore::on_children`] lists it as created, and as vanished
/// exactly when it lists it as deleted (see
/// [`lemma_filter_not_in_membership`]).
pub proof fn lemma_watch_balance(x: Seq<char>, m: Set<Seq<char>>, snaps: Seq<Set<Seq<char>>>)
    requires
        !m.contains(x),
    ensures
        creates_for(x, m, snaps) == deletes_for(x, m, snaps) + (if mirror_after(
            m,
            snaps,
        ).contains(x) {
            1nat
        } else {
            0nat
        }),
    decreases snaps.len(),
{
    lemma_watch_balance_general(x, m, snaps);
}

proof fn lemma_watch_balance_general(x: Seq<char>, m: Set<Seq<char>>, snaps: Seq<Set<Seq<char>>>)
    ensures
        creates_for(x, m, snaps) + (if m.contains(x) {
            1nat
        } else {
            0nat
        }) == deletes_for(x, m, snaps) + (if mirror_after(m, snaps).contains(x) {
            1nat
        } else {
            0nat
        }),
    decreases snaps.len(),
{
    if snaps.len() == 0 {
    } else {
        lemma_watch_balance_general(x, snaps[0], snaps.drop_first());
    }
}

} // verus!
