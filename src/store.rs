use vstd::prelude::*;

use crate::entries::{Connotation, EntryId, IdModel};

verus! {

/// The map that a list of records builds when each record is inserted in turn: where an
/// identity occurs more than once, the last record wins.
pub open spec fn records_map(recs: Seq<(IdModel, Connotation)>) -> Map<IdModel, Connotation>
    decreases recs.len(),
{
    if recs.len() == 0 {
        Map::empty()
    } else {
        records_map(recs.drop_last()).insert(recs.last().0, recs.last().1)
    }
}

/// The mathematical form of a list of records.
pub open spec fn records_model(v: Seq<(EntryId, Connotation)>) -> Seq<(IdModel, Connotation)> {
    v.map_values(|p: (EntryId, Connotation)| (p.0@, p.1))
}

/// A map from identities to connotations. Each identity is held once; the pairs are kept in
/// the order in which their identities were first inserted.
pub struct ConnotationMap {
    ids: Vec<EntryId>,
    values: Vec<Connotation>,
    model: Ghost<Map<IdModel, Connotation>>,
}

impl View for ConnotationMap {
    type V = Map<IdModel, Connotation>;

    closed spec fn view(&self) -> Map<IdModel, Connotation> {
        self.model@
    }
}

impl ConnotationMap {
    pub closed spec fn wf(&self) -> bool {
        &&& self.ids@.len() == self.values@.len()
        &&& forall|i: int, j: int|
            0 <= i < j < self.ids@.len() ==> #[trigger] self.ids@[i]@ != #[trigger] self.ids@[j]@
        &&& forall|i: int|
            0 <= i < self.ids@.len() ==> self.model@.contains_key(#[trigger] self.ids@[i]@)
                && self.model@[self.ids@[i]@] == self.values@[i]
        &&& forall|k: IdModel| #[trigger]
            self.model@.contains_key(k) ==> exists|i: int|
                0 <= i < self.ids@.len() && #[trigger] self.ids@[i]@ == k
    }

    /// An empty map.
    pub fn new() -> (r: ConnotationMap)
        ensures
            r.wf(),
            r@ == Map::<IdModel, Connotation>::empty(),
    {
        ConnotationMap { ids: Vec::new(), values: Vec::new(), model: Ghost(Map::empty()) }
    }

    fn position(&self, id: &EntryId) -> (r: Option<usize>)
        requires
            self.wf(),
        ensures
            match r {
                Some(i) => i < self.ids@.len() && self.ids@[i as int]@ == id@,
                None => !self@.contains_key(id@),
            },
    {
        let mut i: usize = 0;
        while i < self.ids.len()
            invariant
                self.wf(),
                i <= self.ids@.len(),
                forall|j: int| 0 <= j < i ==> self.ids@[j]@ != id@,
            decreases self.ids@.len() - i,
        {
            if self.ids[i].same_as(id) {
                return Some(i);
            }
            i = i + 1;
        }
        None
    }

    /// The connotation held for `id`, if any.
    pub fn get(&self, id: &EntryId) -> (r: Option<Connotation>)
        requires
            self.wf(),
        ensures
            match r {
                Some(c) => self@.contains_key(id@) && self@[id@] == c,
                None => !self@.contains_key(id@),
            },
    {
        match self.position(id) {
            Some(i) => Some(self.values[i]),
            None => None,
        }
    }

    /// Sets the connotation of `id`, replacing the one it had.
    pub fn insert(&mut self, id: EntryId, c: Connotation)
        requires
            old(self).wf(),
        ensures
            final(self).wf(),
            final(self)@ == old(self)@.insert(id@, c),
    {
        let ghost k = id@;
        let ghost m = self.model@.insert(k, c);
        match self.position(&id) {
            Some(i) => {
                self.values.set(i, c);
                self.model = Ghost(m);
                assert forall|k2: IdModel| #[trigger] m.contains_key(k2) implies exists|j: int|
                    0 <= j < self.ids@.len() && #[trigger] self.ids@[j]@ == k2 by {
                    if k2 == k {
                        assert(self.ids@[i as int]@ == k2);
                    }
                }
            },
            None => {
                let ghost n = self.ids@.len();
                self.ids.push(id);
                self.values.push(c);
                self.model = Ghost(m);
                assert forall|k2: IdModel| #[trigger] m.contains_key(k2) implies exists|j: int|
                    0 <= j < self.ids@.len() && #[trigger] self.ids@[j]@ == k2 by {
                    if k2 == k {
                        assert(self.ids@[n as int]@ == k2);
                    } else {
                        let j = choose|j: int| 0 <= j < n && #[trigger] old(self).ids@[j]@ == k2;
                        assert(self.ids@[j]@ == k2);
                    }
                }
            },
        }
    }

    /// Takes the connotation of `id` out of the map, if it held one.
    pub fn remove(&mut self, id: &EntryId) -> (r: Option<Connotation>)
        requires
            old(self).wf(),
        ensures
            final(self).wf(),
            final(self)@ == old(self)@.remove(id@),
            match r {
                Some(c) => old(self)@.contains_key(id@) && old(self)@[id@] == c,
                None => !old(self)@.contains_key(id@) && final(self)@ == old(self)@,
            },
    {
        match self.position(id) {
            Some(i) => {
                let ghost m = self.model@.remove(id@);
                let ghost old_ids = self.ids@;
                let _ = self.ids.remove(i);
                let c = self.values.remove(i);
                self.model = Ghost(m);
                assert forall|j: int| 0 <= j < self.ids@.len() implies #[trigger] self.ids@[j]@
                    == (if j < i { old_ids[j]@ } else { old_ids[j + 1]@ }) by {}
                assert forall|k2: IdModel| #[trigger] m.contains_key(k2) implies exists|j: int|
                    0 <= j < self.ids@.len() && #[trigger] self.ids@[j]@ == k2 by {
                    let j = choose|j: int| 0 <= j < old_ids.len() && #[trigger] old_ids[j]@ == k2;
                    if j < i {
                        assert(self.ids@[j]@ == k2);
                    } else {
                        assert(j != i);
                        assert(self.ids@[j - 1]@ == k2);
                    }
                }
                Some(c)
            },
            None => {
                assert(self.model@.remove(id@) =~= self.model@);
                None
            },
        }
    }

    /// Every pair of the map, each once, in the map's order.
    pub fn to_vec(&self) -> (r: Vec<(EntryId, Connotation)>)
        requires
            self.wf(),
        ensures
            forall|i: int|
                0 <= i < r@.len() ==> self@.contains_key((#[trigger] r@[i]).0@) && self@[r@[i].0@]
                    == r@[i].1,
            forall|i: int, j: int| 0 <= i < j < r@.len() ==> #[trigger] r@[i].0@ != #[trigger] r@[j].0@,
            forall|k: IdModel|
                #[trigger] self@.contains_key(k) ==> exists|i: int|
                    0 <= i < r@.len() && #[trigger] r@[i].0@ == k,
    {
        let mut r: Vec<(EntryId, Connotation)> = Vec::new();
        let mut i: usize = 0;
        while i < self.ids.len()
            invariant
                self.wf(),
                i <= self.ids@.len(),
                r@.len() == i,
                forall|j: int| 0 <= j < i ==> (#[trigger] r@[j]).0@ == self.ids@[j]@ && r@[j].1
                    == self.values@[j],
            decreases self.ids@.len() - i,
        {
            r.push((self.ids[i].duplicate(), self.values[i]));
            i = i + 1;
        }
        assert forall|k: IdModel| #[trigger] self@.contains_key(k) implies exists|j: int|
            0 <= j < r@.len() && #[trigger] r@[j].0@ == k by {
            let j = choose|j: int| 0 <= j < self.ids@.len() && #[trigger] self.ids@[j]@ == k;
            assert(r@[j].0@ == k);
        }
        r
    }

    /// The map that the records build when inserted in order; the last record of an identity
    /// wins.
    pub fn from_records(records: Vec<(EntryId, Connotation)>) -> (r: ConnotationMap)
        ensures
            r.wf(),
            r@ == records_map(records_model(records@)),
    {
        let mut m = ConnotationMap::new();
        let mut i: usize = 0;
        while i < records.len()
            invariant
                m.wf(),
                i <= records@.len(),
                m@ == records_map(records_model(records@).take(i as int)),
            decreases records@.len() - i,
        {
            let (id, c) = (records[i].0.duplicate(), records[i].1);
            m.insert(id, c);
            assert(records_model(records@).take(i + 1).drop_last() =~= records_model(records@).take(
                i as int,
            ));
            i = i + 1;
        }
        assert(records_model(records@).take(records@.len() as int) =~= records_model(records@));
        m
    }
}

} // verus!
