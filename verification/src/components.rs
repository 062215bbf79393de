use vstd::prelude::*;
use std::collections::HashMap;
use std::hash::Hash;
use std::marker::PhantomData;
use vstd::std_specs::hash::obeys_key_model;

verus! {

/// A table of components of one kind, at most one per entity id.
#[derive(Debug)]
pub struct ComponentContainer<Id: Hash + Eq, V> {
    data: HashMap<Id, V>,
}

impl<Id: Hash + Eq, V> ComponentContainer<Id, V> {
    /// Well-formedness: the id type hashes and compares lawfully, so that the
    /// table behaves as a finite map from ids to components.
    pub open spec fn wf(&self) -> bool {
        obeys_key_model::<Id>()
    }

    /// The components held, by id.
    pub closed spec fn view(&self) -> Map<Id, V> {
        self.data@
    }
}

/// `HashMap::get_mut`: a mutable reference to the value stored under `id`,
/// or `None` where `id` has no entry; writing through the reference changes
/// that entry and nothing else.
#[verifier::external_body]
fn map_get_mut<'a, Id: Hash + Eq, V>(m: &'a mut HashMap<Id, V>, id: &Id) -> (r: Option<&'a mut V>)
    requires
        obeys_key_model::<Id>(),
    ensures
        match r {
            Some(v) => {
                &&& old(m)@.contains_key(*id)
                &&& *v == old(m)@[*id]
                &&& final(m)@ == old(m)@.insert(*id, *final(v))
            },
            None => !old(m)@.contains_key(*id) && final(m)@ == old(m)@,
        },
{
    m.get_mut(id)
}

impl<Id: Hash + Eq + Copy, V: Clone> ComponentContainer<Id, V> {
    /// An empty table.
    pub fn new() -> (s: Self)
        requires
            obeys_key_model::<Id>(),
        ensures
            s.wf(),
            s.view() == Map::<Id, V>::empty(),
    {
        ComponentContainer { data: HashMap::new() }
    }

    /// The component of `id`, if it has one.
    pub fn get_opt(&self, id: Id) -> (r: Option<&V>)
        requires
            self.wf(),
        ensures
            match r {
                Some(v) => self.view().contains_key(id) && *v == self.view()[id],
                None => !self.view().contains_key(id),
            },
    {
        self.data.get(&id)
    }

    /// The component of `id`, which must have one.
    pub fn get(&self, id: Id) -> (r: &V)
        requires
            self.wf(),
            self.view().contains_key(id),
        ensures
            *r == self.view()[id],
    {
        self.get_opt(id).unwrap()
    }

    /// A mutable reference to the component of `id`, if it has one.
    pub fn get_opt_mut(&mut self, id: Id) -> (r: Option<&mut V>)
        requires
            old(self).wf(),
        ensures
            final(self).wf(),
            match r {
                Some(v) => {
                    &&& old(self).view().contains_key(id)
                    &&& *v == old(self).view()[id]
                    &&& final(self).view() == old(self).view().insert(id, *final(v))
                },
                None => !old(self).view().contains_key(id) && final(self).view() == old(self).view(),
            },
    {
        map_get_mut(&mut self.data, &id)
    }

    /// A mutable reference to the component of `id`, which must have one.
    pub fn get_mut(&mut self, id: Id) -> (r: &mut V)
        requires
            old(self).wf(),
            old(self).view().contains_key(id),
        ensures
            final(self).wf(),
            *r == old(self).view()[id],
            final(self).view() == old(self).view().insert(id, *final(r)),
    {
        map_get_mut(&mut self.data, &id).unwrap()
    }

    /// Gives `id` the component `data` in place of the one it has; `id` must
    /// have one.
    pub fn insert(&mut self, id: Id, data: V)
        requires
            old(self).wf(),
            old(self).view().contains_key(id),
        ensures
            final(self).wf(),
            final(self).view() == old(self).view().insert(id, data),
    {
        self.data.insert(id, data);
    }

    /// Takes the component of `id` away; `id` must have one.
    pub fn remove(&mut self, id: Id)
        requires
            old(self).wf(),
            old(self).view().contains_key(id),
        ensures
            final(self).wf(),
            final(self).view() == old(self).view().remove(id),
    {
        self.data.remove(&id);
    }

    /// The ids that have a component, each once, in no particular order.
    pub fn ids(&self) -> (it: IdIter<'_, Id, V>)
        requires
            self.wf(),
        ensures
            it.wf(),
            it.remaining().no_duplicates(),
            it.remaining().to_set() == self.view().dom(),
    {
        IdIter::new(&self.data)
    }

    /// The ids that have a component, each once, in no particular order.
    pub fn ids_collected(&self) -> (r: Vec<Id>)
        requires
            self.wf(),
        ensures
            r@.no_duplicates(),
            r@.to_set() == self.view().dom(),
    {
        let mut it = self.ids();
        it.collect()
    }
}

impl<Id: Hash + Eq + Clone, V: Clone> Clone for ComponentContainer<Id, V> {
    /// A copy of the table, holding the same components.
    fn clone(&self) -> (s: Self)
        ensures
            s.view() == self.view(),
    {
        ComponentContainer { data: self.data.clone() }
    }
}

impl<Id: Hash + Eq + Copy, V: Clone> Default for ComponentContainer<Id, V> {
    /// An empty table.
    fn default() -> (s: Self)
        ensures
            s.view() == Map::<Id, V>::empty(),
    {
        ComponentContainer { data: HashMap::new() }
    }
}

/// Read after write: once `insert` or a write through `get_mut` has put `v`
/// under `id`, `get_opt(id)` gives `v`, and every other id keeps what it had.
pub proof fn law_read_after_write<Id: Hash + Eq, V>(
    before: ComponentContainer<Id, V>,
    after: ComponentContainer<Id, V>,
    id: Id,
    v: V,
    other: Id,
)
    requires
        after.view() == before.view().insert(id, v),
    ensures
        after.view().contains_key(id),
        after.view()[id] == v,
        other != id ==> (after.view().contains_key(other) <==> before.view().contains_key(other)),
        other != id && before.view().contains_key(other) ==> after.view()[other] == before.view()[other],
{
}

/// `insert` replaces a component: the table has the same ids before and after.
pub proof fn law_insert_keeps_ids<Id: Hash + Eq, V>(
    before: ComponentContainer<Id, V>,
    after: ComponentContainer<Id, V>,
    id: Id,
    v: V,
)
    requires
        before.view().contains_key(id),
        after.view() == before.view().insert(id, v),
    ensures
        after.view().dom() == before.view().dom(),
{
    assert(after.view().dom() =~= before.view().dom());
}

/// After `remove(id)`, `get_opt(id)` finds nothing and every other id keeps
/// what it had.
pub proof fn law_read_after_remove<Id: Hash + Eq, V>(
    before: ComponentContainer<Id, V>,
    after: ComponentContainer<Id, V>,
    id: Id,
    other: Id,
)
    requires
        after.view() == before.view().remove(id),
    ensures
        !after.view().contains_key(id),
        other != id ==> (after.view().contains_key(other) <==> before.view().contains_key(other)),
        other != id && before.view().contains_key(other) ==> after.view()[other] == before.view()[other],
{
}

/// The ids of a table, handed out one at a time.
#[derive(Debug)]
pub struct IdIter<'a, Id: 'a, V: 'a> {
    ids: Vec<Id>,
    pos: usize,
    marker: PhantomData<&'a V>,
}

impl<'a, Id: 'a, V: 'a> IdIter<'a, Id, V> {
    /// The ids not yet handed out, in the order in which they will come.
    pub closed spec fn remaining(&self) -> Seq<Id> {
        self.ids@.subrange(self.pos as int, self.ids@.len() as int)
    }

    /// The position never passes the end.
    pub closed spec fn wf(&self) -> bool {
        self.pos <= self.ids@.len()
    }
}

impl<'a, Id: Clone + 'a, V: 'a> Clone for IdIter<'a, Id, V> {
    fn clone(&self) -> Self {
        IdIter { ids: self.ids.clone(), pos: self.pos, marker: PhantomData }
    }
}

impl<'a, Id: Eq + Hash + Clone + Copy + 'a, V: 'a> IdIter<'a, Id, V> {
    /// Starts handing out the keys of `map`.
    pub fn new(map: &'a HashMap<Id, V>) -> (it: Self)
        requires
            obeys_key_model::<Id>(),
        ensures
            it.wf(),
            it.remaining().no_duplicates(),
            it.remaining().to_set() == map@.dom(),
    {
        let mut ids: Vec<Id> = Vec::new();
        for k in it: map.keys()
            invariant
                ids@ == it.seq().unref().take(it.index()),
                it.seq().unref().to_set() == map@.dom(),
                it.seq().unref().no_duplicates(),
                it.seq().unref().take(it.seq().len() as int) == it.seq().unref(),
                it.index() == it.seq().len() ==> {
                    &&& ids@.no_duplicates()
                    &&& ids@.to_set() == map@.dom()
                },
        {
            ids.push(*k);
        }
        proof {
            assert(ids@.subrange(0, ids@.len() as int) =~= ids@);
        }
        IdIter { ids, pos: 0, marker: PhantomData }
    }

    /// The next id, or `None` once all have been handed out.
    pub fn next(&mut self) -> (r: Option<Id>)
        requires
            old(self).wf(),
        ensures
            final(self).wf(),
            old(self).remaining().len() > 0 ==> {
                &&& r == Some(old(self).remaining()[0])
                &&& final(self).remaining() == old(self).remaining().drop_first()
            },
            old(self).remaining().len() == 0 ==> r is None && final(self).remaining() == old(self).remaining(),
    {
        if self.pos < self.ids.len() {
            let id = self.ids[self.pos];
            self.pos = self.pos + 1;
            proof {
                assert(final(self).remaining() =~= old(self).remaining().drop_first());
            }
            Some(id)
        } else {
            None
        }
    }

    /// All the ids not yet handed out, in order; afterwards none remain.
    pub fn collect(&mut self) -> (r: Vec<Id>)
        requires
            old(self).wf(),
        ensures
            final(self).wf(),
            r@ == old(self).remaining(),
            final(self).remaining().len() == 0,
    {
        let mut r: Vec<Id> = Vec::new();
        while self.pos < self.ids.len()
            invariant
                self.wf(),
                r@ + self.remaining() == old(self).remaining(),
            decreases self.ids@.len() - self.pos,
        {
            let ghost before = self.remaining();
            let id = self.ids[self.pos];
            self.pos = self.pos + 1;
            proof {
                assert(self.remaining() =~= before.drop_first());
                assert(r@.push(id) + self.remaining() =~= r@ + before);
            }
            r.push(id);
        }
        proof {
            assert(r@ + self.remaining() =~= r@);
        }
        r
    }
}


/// One call of `next` on `before`: it returned `r` and left `after`.
pub open spec fn next_step<'a, Id, V>(before: IdIter<'a, Id, V>, after: IdIter<'a, Id, V>, r: Option<Id>) -> bool {
    &&& before.remaining().len() > 0 ==> {
        &&& r == Some(before.remaining()[0])
        &&& after.remaining() == before.remaining().drop_first()
    }
    &&& before.remaining().len() == 0 ==> r is None && after.remaining() == before.remaining()
}

proof fn lemma_steps_skip<'a, Id, V>(its: Seq<IdIter<'a, Id, V>>, outs: Seq<Option<Id>>, k: int)
    requires
        its.len() == outs.len() + 1,
        forall|j: int| 0 <= j < outs.len() ==> next_step(#[trigger] its[j], its[j + 1], outs[j]),
        0 <= k <= outs.len(),
    ensures
        k <= its[0].remaining().len() ==> its[k].remaining() == its[0].remaining().skip(k),
        k > its[0].remaining().len() ==> its[k].remaining().len() == 0,
    decreases k,
{
    if k > 0 {
        lemma_steps_skip(its, outs, k - 1);
        assert(next_step(its[k - 1], its[k], outs[k - 1]));
        if k <= its[0].remaining().len() {
            assert(its[0].remaining().skip(k - 1).drop_first() =~= its[0].remaining().skip(k));
        }
    } else {
        assert(its[0].remaining().skip(0) =~= its[0].remaining());
    }
}

/// Calling `next` over and over hands out the ids that remained, in order,
/// each once where they were distinct, and then `None` on every later call.
/// With `IdIter::new`, which leaves every key of the map remaining exactly
/// once, the calls hand out every key once and then stay at `None`.
pub proof fn law_id_iter_runs_through<'a, Id, V>(its: Seq<IdIter<'a, Id, V>>, outs: Seq<Option<Id>>)
    requires
        its.len() == outs.len() + 1,
        forall|j: int| 0 <= j < outs.len() ==> next_step(#[trigger] its[j], its[j + 1], outs[j]),
    ensures
        forall|k: int| 0 <= k < outs.len() && k < its[0].remaining().len()
            ==> #[trigger] outs[k] == Some(its[0].remaining()[k]),
        forall|k: int| 0 <= k < outs.len() && k >= its[0].remaining().len() ==> #[trigger] outs[k] is None,
{
    assert forall|k: int| 0 <= k < outs.len() && k < its[0].remaining().len()
        implies #[trigger] outs[k] == Some(its[0].remaining()[k]) by {
        lemma_steps_skip(its, outs, k);
        assert(next_step(its[k], its[k + 1], outs[k]));
    }
    assert forall|k: int| 0 <= k < outs.len() && k >= its[0].remaining().len() implies #[trigger] outs[k] is None by {
        lemma_steps_skip(its, outs, k);
        if k == its[0].remaining().len() {
            assert(its[0].remaining().skip(k).len() == 0);
        }
        assert(next_step(its[k], its[k + 1], outs[k]));
    }
}

} // verus!
