//! The registry of connected clients: one outbound handle per identity.
//!
//! The registry is a plain value. Whoever shares it among tasks puts it behind
//! one lock and holds that lock for a whole call, and for a whole fan-out.

use vstd::prelude::*;
use crate::identity::ClientIdentity;

verus! {

/// The identities of `entries`, in their order.
pub open spec fn keys<H>(entries: Seq<(Seq<char>, H)>) -> Seq<Seq<char>> {
    entries.map_values(|e: (Seq<char>, H)| e.0)
}

/// `entries` after `handle` was registered under `key`: an entry that holds
/// `key` keeps its place and gets the new handle, else a new entry comes last.
pub open spec fn put<H>(entries: Seq<(Seq<char>, H)>, key: Seq<char>, handle: H) -> Seq<
    (Seq<char>, H),
> {
    if keys(entries).contains(key) {
        entries.update(keys(entries).index_of(key), (key, handle))
    } else {
        entries.push((key, handle))
    }
}

/// `entries` without the entry of `key`; the others keep their order.
pub open spec fn without<H>(entries: Seq<(Seq<char>, H)>, key: Seq<char>) -> Seq<(Seq<char>, H)> {
    if keys(entries).contains(key) {
        entries.remove(keys(entries).index_of(key))
    } else {
        entries
    }
}

/// `entries` as a mapping from identity to handle.
pub open spec fn as_map<H>(entries: Seq<(Seq<char>, H)>) -> Map<Seq<char>, H> {
    Map::new(
        |k: Seq<char>| keys(entries).contains(k),
        |k: Seq<char>| entries[keys(entries).index_of(k)].1,
    )
}

/// The identities of `order` that are not `excluded`, in their order.
pub open spec fn others(order: Seq<Seq<char>>, excluded: Seq<char>) -> Seq<Seq<char>> {
    order.filter(|k: Seq<char>| k != excluded)
}

/// `entries` after each of `identities` was registered in turn, the i-th with
/// the i-th of `handles`.
pub open spec fn put_all<H>(
    entries: Seq<(Seq<char>, H)>,
    identities: Seq<Seq<char>>,
    handles: Seq<H>,
) -> Seq<(Seq<char>, H)>
    decreases identities.len(),
{
    if identities.len() == 0 || handles.len() == 0 {
        entries
    } else {
        put(
            put_all(entries, identities.drop_last(), handles.drop_last()),
            identities.last(),
            handles.last(),
        )
    }
}

struct Entry<H> {
    identity: ClientIdentity,
    handle: H,
}

/// The clients that are connected, each with the handle on which lines are
/// written to it. No identity is held twice. Entries stand in the order in
/// which their identities were first registered.
pub struct ConnectionRegistry<H> {
    slots: Vec<Entry<H>>,
}

impl<H> View for ConnectionRegistry<H> {
    type V = Map<Seq<char>, H>;

    /// The handle of each registered identity.
    open spec fn view(&self) -> Map<Seq<char>, H> {
        as_map(self.entries())
    }
}

impl<H> ConnectionRegistry<H> {
    /// The entries, as pairs of identity and handle, in registration order.
    pub closed spec fn entries(&self) -> Seq<(Seq<char>, H)> {
        self.slots@.map_values(|e: Entry<H>| (e.identity@, e.handle))
    }

    /// The identities, in registration order.
    pub open spec fn order(&self) -> Seq<Seq<char>> {
        keys(self.entries())
    }

    /// The invariant of the registry: no identity is held twice.
    pub open spec fn wf(&self) -> bool {
        self.order().no_duplicates()
    }

    /// A registry without clients.
    pub fn new() -> (registry: Self)
        ensures
            registry.wf(),
            registry.entries() == Seq::<(Seq<char>, H)>::empty(),
            registry@ == Map::<Seq<char>, H>::empty(),
    {
        let registry = ConnectionRegistry { slots: Vec::new() };
        assert(registry.entries() =~= Seq::<(Seq<char>, H)>::empty());
        assert(registry@ =~= Map::<Seq<char>, H>::empty());
        registry
    }

    /// The number of connected clients.
    pub fn len(&self) -> (n: usize)
        ensures
            n == self.order().len(),
    {
        self.slots.len()
    }

    /// Whether no client is connected.
    pub fn is_empty(&self) -> (empty: bool)
        ensures
            empty == (self.order().len() == 0),
    {
        self.slots.len() == 0
    }

    /// Where `identity` stands in the registry, if it is registered.
    fn position(&self, identity: &ClientIdentity) -> (found: Option<usize>)
        requires
            self.wf(),
        ensures
            match found {
                Some(i) => i < self.order().len() && self.order()[i as int] == identity@
                    && self.order().index_of(identity@) == i,
                None => !self.order().contains(identity@),
            },
    {
        let mut i: usize = 0;
        while i < self.slots.len()
            invariant
                self.wf(),
                i <= self.slots.len(),
                self.order().len() == self.slots.len(),
                forall|j: int| 0 <= j < i ==> self.order()[j] != identity@,
            decreases self.slots.len() - i,
        {
            if self.slots[i].identity == *identity {
                proof {
                    assert(self.order()[i as int] == identity@);
                    let k: int = self.order().index_of(identity@);
                    assert(0 <= k < self.order().len() && self.order()[k] == identity@);
                }
                return Some(i);
            }
            i += 1;
        }
        None
    }

    /// Whether a handle is registered under `identity`.
    pub fn contains(&self, identity: &ClientIdentity) -> (registered: bool)
        requires
            self.wf(),
        ensures
            registered == self@.contains_key(identity@),
    {
        self.position(identity).is_some()
    }

    /// Registers `handle` under `identity`. A handle already registered under
    /// that identity is replaced, without notice to anyone, and handed back.
    pub fn register(&mut self, identity: ClientIdentity, handle: H) -> (replaced: Option<H>)
        requires
            old(self).wf(),
        ensures
            final(self).wf(),
            final(self).entries() == put(old(self).entries(), identity@, handle),
            final(self)@ == old(self)@.insert(identity@, handle),
            replaced == if old(self)@.contains_key(identity@) {
                Some(old(self)@[identity@])
            } else {
                None::<H>
            },
    {
        proof {
            lemma_put(old(self).entries(), identity@, handle);
        }
        match self.position(&identity) {
            Some(i) => {
                let mut previous = handle;
                std::mem::swap(&mut self.slots[i].handle, &mut previous);
                assert(self.entries() =~= put(old(self).entries(), identity@, handle));
                Some(previous)
            },
            None => {
                self.slots.push(Entry { identity, handle });
                assert(self.entries() =~= put(old(self).entries(), identity@, handle));
                None
            },
        }
    }

    /// Removes the entry of `identity`. Where there is none, nothing changes.
    pub fn deregister(&mut self, identity: &ClientIdentity) -> (removed: Option<H>)
        requires
            old(self).wf(),
        ensures
            final(self).wf(),
            final(self).entries() == without(old(self).entries(), identity@),
            final(self)@ == old(self)@.remove(identity@),
            removed == if old(self)@.contains_key(identity@) {
                Some(old(self)@[identity@])
            } else {
                None::<H>
            },
    {
        proof {
            lemma_without(old(self).entries(), identity@);
        }
        match self.position(identity) {
            Some(i) => {
                let entry = self.slots.remove(i);
                assert(self.entries() =~= without(old(self).entries(), identity@));
                Some(entry.handle)
            },
            None => None,
        }
    }

    /// The handle registered under `identity`.
    pub fn handle(&self, identity: &ClientIdentity) -> (found: Option<&H>)
        requires
            self.wf(),
        ensures
            found == if self@.contains_key(identity@) {
                Some(&self@[identity@])
            } else {
                None::<&H>
            },
    {
        match self.position(identity) {
            Some(i) => Some(&self.slots[i].handle),
            None => None,
        }
    }

    /// The handle registered under `identity`, for writing through it. What
    /// the caller leaves in the handle is what the registry then holds.
    pub fn handle_mut(&mut self, identity: &ClientIdentity) -> (found: Option<&mut H>)
        requires
            old(self).wf(),
        ensures
            match found {
                Some(handle) => old(self)@.contains_key(identity@) && *handle == old(self)@[identity@]
                    && final(self).entries() == put(
                    old(self).entries(),
                    identity@,
                    *final(handle),
                ),
                None => !old(self)@.contains_key(identity@) && final(self).entries() == old(
                    self,
                ).entries(),
            },
            final(self).order() == old(self).order(),
    {
        match self.position(identity) {
            Some(i) => {
                Some(&mut self.slots[i].handle)
            },
            None => None,
        }
    }

    /// Calls `visitor` once with each entry whose identity is not `excluded`,
    /// in registration order, and with no other entry. The visitor may write
    /// through the handle; the identities stay as they are.
    pub fn for_each_except<F: Fn(&ClientIdentity, &mut H)>(
        &mut self,
        excluded: &ClientIdentity,
        visitor: F,
    )
        requires
            old(self).wf(),
            forall|identity: &ClientIdentity, handle: &mut H|
                identity@ != excluded@ && old(self).entries().contains((identity@, *handle))
                    ==> call_requires(visitor, (identity, handle)),
        ensures
            final(self).wf(),
            final(self).order() == old(self).order(),
            forall|i: int|
                0 <= i < old(self).order().len() ==> if old(self).order()[i] == excluded@ {
                    #[trigger] final(self).entries()[i] == old(self).entries()[i]
                } else {
                    exists|identity: &ClientIdentity, handle: &mut H|
                        identity@ == old(self).order()[i] && *handle == old(self).entries()[i].1
                            && *final(handle) == (#[trigger] final(self).entries()[i]).1
                            && call_ensures(visitor, (identity, handle), ())
                },
    {
        let mut i: usize = 0;
        while i < self.slots.len()
            invariant
                i <= self.slots.len(),
                self.order() == old(self).order(),
                self.entries().len() == self.slots.len(),
                old(self).entries().len() == self.slots.len(),
                forall|identity: &ClientIdentity, handle: &mut H|
                    identity@ != excluded@ && old(self).entries().contains((identity@, *handle))
                        ==> call_requires(visitor, (identity, handle)),
                forall|j: int|
                    0 <= j < i ==> if old(self).order()[j] == excluded@ {
                        #[trigger] self.entries()[j] == old(self).entries()[j]
                    } else {
                        exists|identity: &ClientIdentity, handle: &mut H|
                            identity@ == old(self).order()[j] && *handle == old(self).entries()[j].1
                                && *final(handle) == (#[trigger] self.entries()[j]).1
                                && call_ensures(visitor, (identity, handle), ())
                    },
                forall|j: int|
                    i <= j < self.slots.len() ==> #[trigger] self.entries()[j] == old(self).entries()[j],
            decreases self.slots.len() - i,
        {
            let ghost before = self.slots@;
            let ghost entries_before = self.entries();
            let entry = &mut self.slots[i];
            if entry.identity != *excluded {
                assert(entries_before[i as int] == old(self).entries()[i as int]);
                assert(entries_before[i as int] == (entry.identity@, entry.handle));
                assert(old(self).entries().contains((entry.identity@, entry.handle)));
                visitor(&entry.identity, &mut entry.handle);
            }
            proof {
                assert(self.slots@.len() == before.len());
                assert(forall|j: int| 0 <= j < before.len() && j != i ==> self.slots@[j] == before[j]);
                assert(self.slots@[i as int].identity == before[i as int].identity);
                assert(self.order() =~= old(self).order());
                assert forall|j: int| i < j < self.slots.len() implies #[trigger] self.entries()[j]
                    == old(self).entries()[j] by {
                    assert(self.slots@[j] == before[j]);
                    assert(entries_before[j] == old(self).entries()[j]);
                }
            }
            i += 1;
        }
    }

    /// The registered identities, in registration order.
    pub fn identities(&self) -> (all: Vec<ClientIdentity>)
        ensures
            all.deep_view() == self.order(),
    {
        let mut all: Vec<ClientIdentity> = Vec::new();
        let mut i: usize = 0;
        while i < self.slots.len()
            invariant
                i <= self.slots.len(),
                self.order().len() == self.slots.len(),
                all.deep_view() == self.order().take(i as int),
            decreases self.slots.len() - i,
        {
            let ghost before = all.deep_view();
            let identity = self.slots[i].identity.clone();
            all.push(identity);
            assert(all.deep_view() =~= before.push(identity@));
            assert(self.order()[i as int] == self.slots@[i as int].identity@);
            assert(all.deep_view() =~= self.order().take(i + 1));
            i += 1;
        }
        assert(self.order().take(i as int) =~= self.order());
        all
    }

    /// The identities that a line from `excluded` goes to: every registered
    /// identity but `excluded`, in registration order.
    pub fn recipients(&self, excluded: &ClientIdentity) -> (targets: Vec<ClientIdentity>)
        ensures
            targets.deep_view() == others(self.order(), excluded@),
    {
        let mut targets: Vec<ClientIdentity> = Vec::new();
        let mut i: usize = 0;
        proof {
            reveal(Seq::filter);
        }
        while i < self.slots.len()
            invariant
                i <= self.slots.len(),
                self.order().len() == self.slots.len(),
                targets.deep_view() == others(self.order().take(i as int), excluded@),
            decreases self.slots.len() - i,
        {
            proof {
                reveal(Seq::filter);
                assert(self.order().take(i + 1).drop_last() =~= self.order().take(i as int));
            }
            if self.slots[i].identity != *excluded {
                targets.push(self.slots[i].identity.clone());
                assert(targets.deep_view() =~= others(self.order().take(i + 1), excluded@));
            }
            i += 1;
        }
        assert(self.order().take(i as int) =~= self.order());
        targets
    }
}

/// Registering keeps identities apart, and is an insertion into the mapping:
/// the key set gains `key` and nothing else.
pub proof fn lemma_put<H>(entries: Seq<(Seq<char>, H)>, key: Seq<char>, handle: H)
    requires
        keys(entries).no_duplicates(),
    ensures
        keys(put(entries, key, handle)).no_duplicates(),
        keys(put(entries, key, handle)) == if keys(entries).contains(key) {
            keys(entries)
        } else {
            keys(entries).push(key)
        },
        as_map(put(entries, key, handle)) == as_map(entries).insert(key, handle),
        keys(put(entries, key, handle)).to_set() == keys(entries).to_set().insert(key),
{
    let after = put(entries, key, handle);
    if keys(entries).contains(key) {
        let i: int = keys(entries).index_of(key);
        assert(keys(after) =~= keys(entries));
    } else {
        assert(keys(after) =~= keys(entries).push(key));
    }
    assert forall|k: Seq<char>| keys(after).contains(k) <==> (k == key || keys(entries).contains(
        k,
    )) by {
        if keys(entries).contains(k) {
            let j: int = keys(entries).index_of(k);
            assert(keys(after)[j] == k);
        }
        if k == key {
            if keys(entries).contains(key) {
            } else {
                assert(keys(after)[entries.len() as int] == key);
            }
        }
    }
    assert forall|k: Seq<char>| keys(after).contains(k) implies #[trigger] as_map(after)[k]
        == as_map(entries).insert(key, handle)[k] by {
        let j: int = keys(after).index_of(k);
        if k != key {
            let j0: int = keys(entries).index_of(k);
            assert(keys(after)[j0] == k);
        }
    }
    assert(as_map(after) =~= as_map(entries).insert(key, handle));
    assert(keys(after).to_set() =~= keys(entries).to_set().insert(key));
}

/// Deregistering keeps identities apart, and is a removal from the mapping:
/// the key set loses `key` and nothing else.
pub proof fn lemma_without<H>(entries: Seq<(Seq<char>, H)>, key: Seq<char>)
    requires
        keys(entries).no_duplicates(),
    ensures
        keys(without(entries, key)).no_duplicates(),
        !keys(without(entries, key)).contains(key),
        keys(without(entries, key)) == others(keys(entries), key),
        as_map(without(entries, key)) == as_map(entries).remove(key),
        keys(without(entries, key)).to_set() == keys(entries).to_set().remove(key),
{
    let after = without(entries, key);
    lemma_others(keys(entries), key);
    lemma_others_is_remove(keys(entries), key);
    if keys(entries).contains(key) {
        let i: int = keys(entries).index_of(key);
        assert(keys(after) =~= keys(entries).remove(i));
        assert forall|a: int, b: int|
            0 <= a < keys(after).len() && 0 <= b < keys(after).len() && a != b implies keys(
            after,
        )[a] != keys(after)[b] by {
            let a0: int = if a < i { a } else { a + 1 };
            let b0: int = if b < i { b } else { b + 1 };
            assert(keys(after)[a] == keys(entries)[a0]);
            assert(keys(after)[b] == keys(entries)[b0]);
        }
        assert forall|k: Seq<char>| keys(after).contains(k) <==> (k != key && keys(
            entries,
        ).contains(k)) by {
            if keys(after).contains(k) {
                let a: int = keys(after).index_of(k);
                let a0: int = if a < i { a } else { a + 1 };
                assert(keys(entries)[a0] == k);
            }
            if k != key && keys(entries).contains(k) {
                let j: int = keys(entries).index_of(k);
                let a: int = if j < i { j } else { j - 1 };
                assert(keys(after)[a] == k);
            }
        }
        assert forall|k: Seq<char>| keys(after).contains(k) implies #[trigger] as_map(after)[k]
            == as_map(entries)[k] by {
            let a: int = keys(after).index_of(k);
            let a0: int = if a < i { a } else { a + 1 };
            assert(keys(entries)[a0] == k);
            assert(keys(entries).index_of(k) == a0);
        }
    } else {
        assert forall|k: Seq<char>| keys(entries).contains(k) implies k != key by {}
    }
    assert(as_map(after) =~= as_map(entries).remove(key));
    assert(keys(after).to_set() =~= keys(entries).to_set().remove(key));
}

/// Deregistering is idempotent: the second removal of an identity finds
/// nothing to remove and leaves the registry as the first one left it.
pub proof fn lemma_deregister_twice<H>(entries: Seq<(Seq<char>, H)>, key: Seq<char>)
    requires
        keys(entries).no_duplicates(),
    ensures
        without(without(entries, key), key) == without(entries, key),
        as_map(without(without(entries, key), key)) == as_map(without(entries, key)),
{
    lemma_without(entries, key);
}

/// After any sequence of registrations the registry holds the identities
/// that it held before and those that were registered, each of them once
/// and no other. Starting empty, with identities that differ from one
/// another, it holds them in the order of their registration.
pub proof fn lemma_register_all<H>(
    entries: Seq<(Seq<char>, H)>,
    identities: Seq<Seq<char>>,
    handles: Seq<H>,
)
    requires
        keys(entries).no_duplicates(),
        identities.len() == handles.len(),
    ensures
        keys(put_all(entries, identities, handles)).no_duplicates(),
        keys(put_all(entries, identities, handles)).to_set() == keys(entries).to_set().union(
            identities.to_set(),
        ),
        as_map(put_all(entries, identities, handles)).dom() == as_map(entries).dom().union(
            identities.to_set(),
        ),
        entries.len() == 0 ==> as_map(put_all(entries, identities, handles)).dom()
            == identities.to_set(),
        entries.len() == 0 && identities.no_duplicates() ==> keys(
            put_all(entries, identities, handles),
        ) == identities,
    decreases identities.len(),
{
    let after = put_all(entries, identities, handles);
    if identities.len() == 0 {
        assert(keys(after).to_set() =~= keys(entries).to_set().union(identities.to_set()));
        if entries.len() == 0 {
            assert(keys(after) =~= identities);
        }
    } else {
        let earlier = put_all(entries, identities.drop_last(), handles.drop_last());
        lemma_register_all(entries, identities.drop_last(), handles.drop_last());
        lemma_put(earlier, identities.last(), handles.last());
        assert(identities.drop_last().push(identities.last()) =~= identities);
        assert forall|k: Seq<char>| identities.to_set().contains(k) <==> (
        identities.drop_last().to_set().contains(k) || k == identities.last()) by {
            if identities.contains(k) {
                let j: int = identities.index_of(k);
                if j < identities.len() - 1 {
                    assert(identities.drop_last()[j] == k);
                }
            }
            if identities.drop_last().contains(k) {
                let j: int = identities.drop_last().index_of(k);
                assert(identities[j] == k);
            }
            if k == identities.last() {
                assert(identities[identities.len() - 1] == k);
            }
        }
        assert(keys(after).to_set() =~= keys(entries).to_set().union(identities.to_set()));
        if entries.len() == 0 && identities.no_duplicates() {
            assert(identities.drop_last().no_duplicates());
            assert(!identities.drop_last().contains(identities.last())) by {
                if identities.drop_last().contains(identities.last()) {
                    let j: int = identities.drop_last().index_of(identities.last());
                    assert(identities[j] == identities[identities.len() - 1]);
                }
            }
        }
    }
    assert(as_map(after).dom() =~= keys(after).to_set());
    assert(as_map(entries).dom() =~= keys(entries).to_set());
    if entries.len() == 0 {
        assert(as_map(after).dom() =~= identities.to_set());
    }
}

/// The identities other than `excluded` are exactly the registered ones but
/// `excluded`, each once.
pub proof fn lemma_others(order: Seq<Seq<char>>, excluded: Seq<char>)
    requires
        order.no_duplicates(),
    ensures
        others(order, excluded).no_duplicates(),
        !others(order, excluded).contains(excluded),
        forall|k: Seq<char>| others(order, excluded).contains(k) <==> (order.contains(k) && k != excluded),
        others(order, excluded).to_set() == order.to_set().remove(excluded),
        others(order, excluded).len() == if order.contains(excluded) {
            order.len() - 1
        } else {
            order.len() as int
        },
    decreases order.len(),
{
    reveal(Seq::filter);
    if order.len() == 0 {
    } else {
        let front = order.drop_last();
        let last = order.last();
        assert(front.no_duplicates());
        lemma_others(front, excluded);
        assert forall|k: Seq<char>| order.contains(k) <==> (front.contains(k) || k == last) by {
            if order.contains(k) {
                let j: int = order.index_of(k);
                if j < front.len() {
                    assert(front[j] == k);
                }
            }
            if front.contains(k) {
                let j: int = front.index_of(k);
                assert(order[j] == k);
            }
            if k == last {
                assert(order[order.len() - 1] == k);
            }
        }
        assert(!front.contains(last)) by {
            if front.contains(last) {
                let j: int = front.index_of(last);
                assert(order[j] == order[order.len() - 1]);
            }
        }
        if last != excluded {
            assert(others(order, excluded) == others(front, excluded).push(last));
            assert forall|k: Seq<char>| others(order, excluded).contains(k) <==> (order.contains(k)
                && k != excluded) by {
                if others(order, excluded).contains(k) {
                    let j: int = others(order, excluded).index_of(k);
                    if j < others(front, excluded).len() {
                        assert(others(front, excluded)[j] == k);
                    }
                }
                if order.contains(k) && k != excluded {
                    if k == last {
                        assert(others(order, excluded)[others(front, excluded).len() as int] == k);
                    } else {
                        let j: int = others(front, excluded).index_of(k);
                        assert(others(order, excluded)[j] == k);
                    }
                }
            }
        } else {
            assert(others(order, excluded) == others(front, excluded));
        }
    }
    assert(others(order, excluded).to_set() =~= order.to_set().remove(excluded));
}

/// Where `excluded` is registered, the others are the order with its one
/// entry taken out; where it is not, they are the whole order.
pub proof fn lemma_others_is_remove(order: Seq<Seq<char>>, excluded: Seq<char>)
    requires
        order.no_duplicates(),
    ensures
        others(order, excluded) == if order.contains(excluded) {
            order.remove(order.index_of(excluded))
        } else {
            order
        },
    decreases order.len(),
{
    reveal(Seq::filter);
    if order.len() == 0 {
    } else {
        let front = order.drop_last();
        let last = order.last();
        assert(front.no_duplicates());
        lemma_others_is_remove(front, excluded);
        if last == excluded {
            assert(order[order.len() - 1] == excluded);
            assert(order.index_of(excluded) == order.len() - 1);
            assert(!front.contains(excluded)) by {
                if front.contains(excluded) {
                    let j: int = front.index_of(excluded);
                    assert(order[j] == order[order.len() - 1]);
                }
            }
            assert(order.remove(order.len() - 1) =~= front);
        } else if front.contains(excluded) {
            let j: int = front.index_of(excluded);
            assert(order[j] == excluded);
            assert(order.index_of(excluded) == j);
            assert(front.remove(j).push(last) =~= order.remove(j));
        } else {
            assert(!order.contains(excluded)) by {
                if order.contains(excluded) {
                    let j: int = order.index_of(excluded);
                    assert(front[j] == excluded);
                }
            }
            assert(front.push(last) =~= order);
        }
    }
}

} // verus!
