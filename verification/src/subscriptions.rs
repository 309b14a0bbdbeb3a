//! Which web clients receive what: each connected client (a session) subscribes to keys
//! (a dataset, or a field of a dataset for errors), and each key has the set of sessions
//! that subscribed to it.
use std::collections::{HashMap, HashSet};
use vstd::prelude::*;
use crate::data_store::{DatasetId, FieldId};

verus! {

broadcast use vstd::std_specs::hash::group_hash_axioms;

pub type SessionId = u16;

/// A key of a subscription.
pub type SubKey = u32;

pub struct Subscriptions {
    /// Each connected session and the keys it subscribed to, in order.
    pub sessions: HashMap<SessionId, Vec<SubKey>>,
    /// Each key and the sessions subscribed to it.
    pub subs: HashMap<SubKey, HashSet<SessionId>>,
}

/// The sessions and their keys.
pub open spec fn sessions_view(s: Map<SessionId, Vec<SubKey>>) -> Map<SessionId, Seq<SubKey>> {
    Map::new(|id: SessionId| s.contains_key(id), |id: SessionId| s[id]@)
}

/// The keys and their subscribers.
pub open spec fn subs_view(s: Map<SubKey, HashSet<SessionId>>) -> Map<SubKey, Set<SessionId>> {
    Map::new(|k: SubKey| s.contains_key(k), |k: SubKey| s[k]@)
}

/// Whether session `id` is subscribed to `k`.
pub open spec fn subscribed(subs: Map<SubKey, Set<SessionId>>, k: SubKey, id: SessionId) -> bool {
    subs.contains_key(k) && subs[k].contains(id)
}

/// Every subscriber of a key is a connected session that subscribed to that key.
pub open spec fn consistent(sessions: Map<SessionId, Seq<SubKey>>, subs: Map<SubKey, Set<SessionId>>) -> bool {
    forall|k: SubKey, id: SessionId| #[trigger]
        subscribed(subs, k, id) ==> sessions.contains_key(id) && sessions[id].contains(k)
}

/// The subscribers after session `id` subscribed to `keys`.
pub open spec fn subs_after_subscribing(
    subs: Map<SubKey, Set<SessionId>>,
    id: SessionId,
    keys: Seq<SubKey>,
) -> Map<SubKey, Set<SessionId>> {
    Map::new(
        |k: SubKey| subs.contains_key(k) || keys.contains(k),
        |k: SubKey|
            if keys.contains(k) {
                (if subs.contains_key(k) {
                    subs[k]
                } else {
                    Set::empty()
                }).insert(id)
            } else {
                subs[k]
            },
    )
}

/// The subscribers after session `id` left, its keys being `keys`.
pub open spec fn subs_after_leaving(
    subs: Map<SubKey, Set<SessionId>>,
    id: SessionId,
    keys: Seq<SubKey>,
) -> Map<SubKey, Set<SessionId>> {
    Map::new(
        |k: SubKey| subs.contains_key(k),
        |k: SubKey|
            if keys.contains(k) {
                subs[k].remove(id)
            } else {
                subs[k]
            },
    )
}

proof fn lemma_push_contains(a: Seq<SubKey>, x: SubKey)
    ensures
        forall|k: SubKey| #[trigger] a.push(x).contains(k) <==> (a.contains(k) || k == x),
        seq![x].contains(x),
        forall|k: SubKey| k != x ==> !#[trigger] seq![x].contains(k),
{
    assert forall|k: SubKey| #[trigger] a.push(x).contains(k) <==> (a.contains(k) || k == x) by {
        if a.push(x).contains(k) {
            let j = choose|j: int| 0 <= j < a.push(x).len() && a.push(x)[j] == k;
            if j < a.len() {
                assert(a[j] == k);
            }
        }
        if a.contains(k) {
            let j = choose|j: int| 0 <= j < a.len() && a[j] == k;
            assert(a.push(x)[j] == k);
        }
        if k == x {
            assert(a.push(x)[a.len() as int] == k);
        }
    }
    assert(seq![x][0] == x);
    assert forall|k: SubKey| k != x implies !#[trigger] seq![x].contains(k) by {
        if seq![x].contains(k) {
            let j = choose|j: int| 0 <= j < 1 && seq![x][j] == k;
        }
    }
}

proof fn lemma_subscribe_more(subs: Map<SubKey, Set<SessionId>>, id: SessionId, a: Seq<SubKey>, x: SubKey)
    ensures
        subs_after_subscribing(subs_after_subscribing(subs, id, a), id, seq![x])
            == subs_after_subscribing(subs, id, a.push(x)),
{
    lemma_push_contains(a, x);
    let l = subs_after_subscribing(subs_after_subscribing(subs, id, a), id, seq![x]);
    let r = subs_after_subscribing(subs, id, a.push(x));
    assert(l.dom() =~= r.dom());
    assert forall|k: SubKey| l.contains_key(k) implies l[k] =~= r[k] by {}
    assert(l =~= r);
}

proof fn lemma_leave_more(subs: Map<SubKey, Set<SessionId>>, id: SessionId, a: Seq<SubKey>, x: SubKey)
    ensures
        subs_after_leaving(subs_after_leaving(subs, id, a), id, seq![x]) == subs_after_leaving(
            subs,
            id,
            a.push(x),
        ),
{
    lemma_push_contains(a, x);
    let l = subs_after_leaving(subs_after_leaving(subs, id, a), id, seq![x]);
    let r = subs_after_leaving(subs, id, a.push(x));
    assert(l.dom() =~= r.dom());
    assert forall|k: SubKey| l.contains_key(k) implies l[k] =~= r[k] by {}
    assert(l =~= r);
}

impl Subscriptions {
    pub open spec fn wf(&self) -> bool {
        consistent(sessions_view(self.sessions@), subs_view(self.subs@))
    }

    pub fn new() -> (s: Subscriptions)
        ensures
            s.wf(),
            sessions_view(s.sessions@) == Map::<SessionId, Seq<SubKey>>::empty(),
            subs_view(s.subs@) == Map::<SubKey, Set<SessionId>>::empty(),
    {
        let s = Subscriptions { sessions: HashMap::new(), subs: HashMap::new() };
        assert(sessions_view(s.sessions@) =~= Map::<SessionId, Seq<SubKey>>::empty());
        assert(subs_view(s.subs@) =~= Map::<SubKey, Set<SessionId>>::empty());
        s
    }

    /// The sessions that data sent for `key` is delivered to: each session subscribed to
    /// `key`, once, and no other. The order is that in which the set of subscribers is
    /// walked, which is not stated.
    pub fn recipients(&self, key: SubKey) -> (r: Vec<SessionId>)
        ensures
            r@.no_duplicates(),
            forall|id: SessionId| r@.contains(id) <==> subscribed(subs_view(self.subs@), key, id),
    {
        let mut out: Vec<SessionId> = Vec::new();
        match self.subs.get(&key) {
            None => {},
            Some(set) => {
                proof {
                    vstd::std_specs::hash::axiom_spec_hash_keys_iter(set);
                }
                let ghost keys = vstd::std_specs::iter::IteratorSpec::remaining(&vstd::std_specs::hash::spec_hash_keys_iter(set));
                for id in it: set.iter()
                    invariant
                        it.seq() == keys,
                        out@.len() == it.index(),
                        forall|i: int| 0 <= i < it.index() ==> out@[i] == *keys[i],
                {
                    out.push(*id);
                }
                assert(out@ =~= keys.unref());
            },
        }
        out
    }

    /// Adds session `id` to the subscribers of `key`.
    fn add_subscriber(&mut self, key: SubKey, id: SessionId)
        ensures
            final(self).sessions@ == old(self).sessions@,
            subs_view(final(self).subs@) == subs_after_subscribing(
                subs_view(old(self).subs@),
                id,
                seq![key],
            ),
    {
        let mut set = match self.subs.remove(&key) {
            Some(set) => set,
            None => HashSet::new(),
        };
        set.insert(id);
        self.subs.insert(key, set);
        assert(seq![key][0] == key);
        assert forall|k: SubKey| k != key implies !seq![key].contains(k) by {
            if seq![key].contains(k) {
                let j = choose|j: int| 0 <= j < 1 && seq![key][j] == k;
            }
        }
        assert(subs_view(self.subs@) =~~= subs_after_subscribing(
            subs_view(old(self).subs@),
            id,
            seq![key],
        ));
    }

    /// A session connects, subscribed to `keys` (its earlier subscriptions, if it was
    /// connected, are forgotten but it stays a subscriber of their keys).
    pub fn connect(&mut self, id: SessionId, keys: Vec<SubKey>)
        ensures
            sessions_view(final(self).sessions@) == sessions_view(old(self).sessions@).insert(
                id,
                keys@,
            ),
            subs_view(final(self).subs@) == subs_after_subscribing(
                subs_view(old(self).subs@),
                id,
                keys@,
            ),
            old(self).wf() && !old(self).sessions@.contains_key(id) ==> final(self).wf(),
    {
        let mut i: usize = 0;
        assert(subs_view(self.subs@) =~= subs_after_subscribing(
            subs_view(old(self).subs@),
            id,
            keys@.take(0),
        ));
        while i < keys.len()
            invariant
                i <= keys@.len(),
                self.sessions@ == old(self).sessions@,
                subs_view(self.subs@) == subs_after_subscribing(
                    subs_view(old(self).subs@),
                    id,
                    keys@.take(i as int),
                ),
            decreases keys@.len() - i,
        {
            let ghost before = subs_view(self.subs@);
            self.add_subscriber(keys[i], id);
            proof {
                let t = keys@.take(i + 1);
                lemma_subscribe_more(subs_view(old(self).subs@), id, keys@.take(i as int), keys@[i as int]);
                assert(t =~= keys@.take(i as int).push(keys@[i as int]));
                assert forall|k: SubKey| t.contains(k) <==> (keys@.take(i as int).contains(k) || k
                    == keys@[i as int]) by {
                    if t.contains(k) {
                        let j = choose|j: int| 0 <= j < t.len() && t[j] == k;
                        if j < i {
                            assert(keys@.take(i as int)[j] == k);
                        }
                    }
                    if keys@.take(i as int).contains(k) {
                        let j = choose|j: int|
                            0 <= j < keys@.take(i as int).len() && keys@.take(i as int)[j] == k;
                        assert(t[j] == k);
                    }
                    if k == keys@[i as int] {
                        assert(t[i as int] == k);
                    }
                }
                assert(subs_view(self.subs@) =~~= subs_after_subscribing(
                    subs_view(old(self).subs@),
                    id,
                    t,
                ));
            }
            i = i + 1;
        }
        assert(keys@.take(i as int) =~= keys@);
        let ghost keys_view = keys@;
        self.sessions.insert(id, keys);
        assert(sessions_view(self.sessions@) =~= sessions_view(old(self).sessions@).insert(
            id,
            keys_view,
        ));
        proof {
            if old(self).wf() && !old(self).sessions@.contains_key(id) {
                let sv = sessions_view(self.sessions@);
                let bv = subs_view(self.subs@);
                assert forall|k: SubKey, s: SessionId| #[trigger]
                    subscribed(bv, k, s) implies sv.contains_key(s) && sv[s].contains(k) by {
                    if s != id {
                        assert(subscribed(subs_view(old(self).subs@), k, s));
                    } else {
                        if !keys_view.contains(k) {
                            assert(subscribed(subs_view(old(self).subs@), k, s));
                        }
                    }
                }
            }
        }
    }

    /// Session `id` subscribes to `key` as well.
    pub fn subscribe(&mut self, id: SessionId, key: SubKey)
        requires
            old(self).sessions@.contains_key(id),
        ensures
            sessions_view(final(self).sessions@) == sessions_view(old(self).sessions@).insert(
                id,
                sessions_view(old(self).sessions@)[id].push(key),
            ),
            subs_view(final(self).subs@) == subs_after_subscribing(
                subs_view(old(self).subs@),
                id,
                seq![key],
            ),
            old(self).wf() ==> final(self).wf(),
    {
        let mut keys = self.sessions.remove(&id).unwrap();
        keys.push(key);
        let ghost keys_view = keys@;
        self.sessions.insert(id, keys);
        assert(sessions_view(self.sessions@) =~= sessions_view(old(self).sessions@).insert(
            id,
            sessions_view(old(self).sessions@)[id].push(key),
        ));
        self.add_subscriber(key, id);
        proof {
            if old(self).wf() {
                let sv = sessions_view(self.sessions@);
                let bv = subs_view(self.subs@);
                let ov = sessions_view(old(self).sessions@);
                assert forall|k: SubKey, s: SessionId| #[trigger]
                    subscribed(bv, k, s) implies sv.contains_key(s) && sv[s].contains(k) by {
                    if s != id || k != key {
                        assert(subscribed(subs_view(old(self).subs@), k, s));
                        if s == id {
                            let j = choose|j: int| 0 <= j < ov[id].len() && ov[id][j] == k;
                            assert(sv[s][j] == k);
                        }
                    } else {
                        assert(sv[s][sv[s].len() - 1] == k);
                    }
                }
            }
        }
    }

    /// Removes session `id` from the subscribers of `key`, where `key` has any.
    fn drop_subscriber(&mut self, key: SubKey, id: SessionId)
        ensures
            final(self).sessions@ == old(self).sessions@,
            subs_view(final(self).subs@) == subs_after_leaving(
                subs_view(old(self).subs@),
                id,
                seq![key],
            ),
    {
        match self.subs.remove(&key) {
            Some(mut set) => {
                set.remove(&id);
                self.subs.insert(key, set);
            },
            None => {},
        }
        assert(seq![key][0] == key);
        assert forall|k: SubKey| k != key implies !seq![key].contains(k) by {
            if seq![key].contains(k) {
                let j = choose|j: int| 0 <= j < 1 && seq![key][j] == k;
            }
        }
        assert(subs_view(self.subs@) =~~= subs_after_leaving(
            subs_view(old(self).subs@),
            id,
            seq![key],
        ));
    }

    /// Session `id` disconnects: it is forgotten, and removed from the subscribers of the
    /// keys it subscribed to.
    pub fn disconnect(&mut self, id: SessionId)
        ensures
            sessions_view(final(self).sessions@) == sessions_view(old(self).sessions@).remove(id),
            subs_view(final(self).subs@) == subs_after_disconnect(
                sessions_view(old(self).sessions@),
                subs_view(old(self).subs@),
                id,
            ),
            old(self).wf() ==> final(self).wf(),
    {
        match self.sessions.remove(&id) {
            None => {
                assert(sessions_view(self.sessions@) =~= sessions_view(old(self).sessions@).remove(
                    id,
                ));
            },
            Some(keys) => {
                assert(sessions_view(self.sessions@) =~= sessions_view(old(self).sessions@).remove(
                    id,
                ));
                let mut i: usize = 0;
                assert(subs_view(self.subs@) =~= subs_after_leaving(
                    subs_view(old(self).subs@),
                    id,
                    keys@.take(0),
                ));
                while i < keys.len()
                    invariant
                        i <= keys@.len(),
                        sessions_view(self.sessions@) == sessions_view(old(self).sessions@).remove(
                            id,
                        ),
                        subs_view(self.subs@) == subs_after_leaving(
                            subs_view(old(self).subs@),
                            id,
                            keys@.take(i as int),
                        ),
                    decreases keys@.len() - i,
                {
                    self.drop_subscriber(keys[i], id);
                    proof {
                        let t = keys@.take(i + 1);
                        assert(t =~= keys@.take(i as int).push(keys@[i as int]));
                        lemma_leave_more(subs_view(old(self).subs@), id, keys@.take(i as int), keys@[i as int]);
                        assert forall|k: SubKey| t.contains(k) <==> (keys@.take(i as int).contains(
                            k,
                        ) || k == keys@[i as int]) by {
                            if t.contains(k) {
                                let j = choose|j: int| 0 <= j < t.len() && t[j] == k;
                                if j < i {
                                    assert(keys@.take(i as int)[j] == k);
                                }
                            }
                            if keys@.take(i as int).contains(k) {
                                let j = choose|j: int|
                                    0 <= j < keys@.take(i as int).len() && keys@.take(i as int)[j]
                                        == k;
                                assert(t[j] == k);
                            }
                            if k == keys@[i as int] {
                                assert(t[i as int] == k);
                            }
                        }
                        assert(subs_view(self.subs@) =~~= subs_after_leaving(
                            subs_view(old(self).subs@),
                            id,
                            t,
                        ));
                    }
                    i = i + 1;
                }
                assert(keys@.take(i as int) =~= keys@);
                proof {
                    if old(self).wf() {
                        let sv = sessions_view(self.sessions@);
                        let bv = subs_view(self.subs@);
                        assert forall|k: SubKey, s: SessionId| #[trigger]
                            subscribed(bv, k, s) implies sv.contains_key(s) && sv[s].contains(
                            k,
                        ) by {
                            assert(subscribed(subs_view(old(self).subs@), k, s));
                            if s == id {
                                assert(sessions_view(old(self).sessions@)[id].contains(k));
                            }
                        }
                    }
                }
            },
        }
    }

    /// Whether session `id` receives what is sent for `key`.
    pub fn is_subscribed(&self, key: SubKey, id: SessionId) -> (b: bool)
        ensures
            b == subscribed(subs_view(self.subs@), key, id),
    {
        match self.subs.get(&key) {
            Some(set) => set.contains(&id),
            None => false,
        }
    }
}

/// The subscribers after session `id` disconnected.
pub open spec fn subs_after_disconnect(
    sessions: Map<SessionId, Seq<SubKey>>,
    subs: Map<SubKey, Set<SessionId>>,
    id: SessionId,
) -> Map<SubKey, Set<SessionId>> {
    if sessions.contains_key(id) {
        subs_after_leaving(subs, id, sessions[id])
    } else {
        subs
    }
}

/// A session that disconnected receives nothing any more.
pub proof fn lemma_disconnected_receives_nothing(
    sessions: Map<SessionId, Seq<SubKey>>,
    subs: Map<SubKey, Set<SessionId>>,
    id: SessionId,
)
    requires
        consistent(sessions, subs),
    ensures
        forall|k: SubKey| !#[trigger] subscribed(subs_after_disconnect(sessions, subs, id), k, id),
{
    assert forall|k: SubKey| !#[trigger] subscribed(
        subs_after_disconnect(sessions, subs, id),
        k,
        id,
    ) by {
        if subscribed(subs, k, id) {
            assert(sessions.contains_key(id) && sessions[id].contains(k));
        }
    }
}

/// A session that subscribed to a key receives what is sent for it.
pub proof fn lemma_subscribed_receives(subs: Map<SubKey, Set<SessionId>>, id: SessionId, keys: Seq<SubKey>, k: SubKey)
    requires
        keys.contains(k),
    ensures
        subscribed(subs_after_subscribing(subs, id, keys), k, id),
{
}

/// The key under which the errors of a field of a dataset are subscribed to.
pub open spec fn field_key(dataset_id: DatasetId, field_id: FieldId) -> SubKey {
    (dataset_id as int * 65536 + field_id as int * 256) as SubKey
}

/// The key of a field: the dataset id in the upper two bytes, the field id in the byte
/// below them.
pub fn to_field_specific_key(dataset_id: DatasetId, field_id: FieldId) -> (key: SubKey)
    ensures
        key == field_key(dataset_id, field_id),
        key == dataset_id as int * 65536 + field_id as int * 256,
{
    let mut key: u32 = 0;
    key = key | ((dataset_id as u32) << 16u32);
    key = key | ((field_id as u32) << 8u32);
    assert(key == dataset_id as int * 65536 + field_id as int * 256) by (bit_vector)
        requires
            key == (0u32 | ((dataset_id as u32) << 16u32)) | ((field_id as u32) << 8u32),
    ;
    key
}

/// The key of an error: that of its field, plus the error code in the lowest byte.
pub fn to_error_specific_key(dataset_id: DatasetId, field_id: FieldId, error_code: u8) -> (key: u32)
    ensures
        key == dataset_id as int * 65536 + field_id as int * 256 + error_code as int,
{
    let mut key: u32 = 0;
    key = key | ((dataset_id as u32) << 16u32);
    key = key | ((field_id as u32) << 8u32);
    key = key | (error_code as u32);
    assert(key == dataset_id as int * 65536 + field_id as int * 256 + error_code as int)
        by (bit_vector)
        requires
            key == ((0u32 | ((dataset_id as u32) << 16u32)) | ((field_id as u32) << 8u32)) | (
            error_code as u32),
    ;
    key
}

/// Different fields have different keys, and different errors of a field different
/// error keys.
pub proof fn lemma_keys_distinct(d1: DatasetId, f1: FieldId, c1: u8, d2: DatasetId, f2: FieldId, c2: u8)
    ensures
        (d1 != d2 || f1 != f2) ==> field_key(d1, f1) != field_key(d2, f2),
        (d1 != d2 || f1 != f2 || c1 != c2) ==> d1 as int * 65536 + f1 as int * 256 + c1 as int
            != d2 as int * 65536 + f2 as int * 256 + c2 as int,
{
}

} // verus!
