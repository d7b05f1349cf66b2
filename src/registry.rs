use vstd::prelude::*;

use std::collections::HashMap;

verus! {

broadcast use vstd::std_specs::hash::group_hash_axioms;

/// The states that a record lists, each identity mapped to the last state
/// listed for it.
pub open spec fn record_view<S>(record: Seq<(u64, S)>) -> Map<u64, S>
    decreases record.len(),
{
    if record.len() == 0 {
        Map::empty()
    } else {
        let last = record.last();
        record_view(record.drop_last()).insert(last.0, last.1)
    }
}

/// The per-parameter optimizer states, keyed by parameter identity.
///
/// Besides the map, the registry lists the identities it holds, each once,
/// so that it can be walked in a fixed order.
pub struct StateRegistry<S> {
    states: HashMap<u64, S>,
    ids: Vec<u64>,
}

impl<S> View for StateRegistry<S> {
    type V = Map<u64, S>;

    closed spec fn view(&self) -> Map<u64, S> {
        self.states@
    }
}

impl<S> StateRegistry<S> {
    pub closed spec fn wf(&self) -> bool {
        &&& self.ids@.no_duplicates()
        &&& self.states@.dom() == self.ids@.to_set()
    }

    /// An empty registry.
    pub fn new() -> (r: Self)
        ensures
            r.wf(),
            r@ == Map::<u64, S>::empty(),
    {
        let r = StateRegistry { states: HashMap::new(), ids: Vec::new() };
        proof {
            assert(r.ids@.to_set() =~= Set::<u64>::empty());
        }
        r
    }

    /// The number of parameters that have a state.
    pub fn len(&self) -> (r: usize)
        requires
            self.wf(),
        ensures
            r == self@.dom().len(),
    {
        proof {
            self.ids@.unique_seq_to_set();
        }
        self.ids.len()
    }

    /// The identities that have a state, each once.
    pub fn ids(&self) -> (r: Vec<u64>)
        requires
            self.wf(),
        ensures
            r@.no_duplicates(),
            r@.to_set() == self@.dom(),
    {
        let mut r: Vec<u64> = Vec::new();
        let mut i: usize = 0;
        while i < self.ids.len()
            invariant
                i <= self.ids@.len(),
                r@ == self.ids@.subrange(0, i as int),
            decreases self.ids@.len() - i,
        {
            r.push(self.ids[i]);
            i = i + 1;
        }
        proof {
            assert(r@ =~= self.ids@);
        }
        r
    }

    /// The state stored for `id`, if any.
    pub fn get(&self, id: u64) -> (r: Option<&S>)
        ensures
            match r {
                None => !self@.contains_key(id),
                Some(s) => self@.contains_key(id) && *s == self@[id],
            },
    {
        self.states.get(&id)
    }

    /// Stores `state` for `id`, replacing what was stored for it before.
    pub fn insert(&mut self, id: u64, state: S)
        requires
            old(self).wf(),
        ensures
            final(self).wf(),
            final(self)@ == old(self)@.insert(id, state),
    {
        let prior = self.states.insert(id, state);
        if prior.is_none() {
            proof {
                assert(!self.ids@.contains(id));
            }
            self.ids.push(id);
            proof {
                old(self).ids@.lemma_push_to_set_commute(id);
                assert(self.ids@ == old(self).ids@.push(id));
                assert forall|a: int, b: int|
                    0 <= a < b < self.ids@.len() implies self.ids@[a] != self.ids@[b] by {
                    if b == self.ids@.len() - 1 {
                        assert(old(self).ids@.contains(self.ids@[a]));
                    }
                }
            }
        }
        assert(self.states@.dom() =~= self.ids@.to_set());
    }

    /// Removes and returns the state stored for `id`, if any.
    pub fn remove(&mut self, id: u64) -> (r: Option<S>)
        requires
            old(self).wf(),
        ensures
            final(self).wf(),
            final(self)@ == old(self)@.remove(id),
            match r {
                None => !old(self)@.contains_key(id),
                Some(s) => old(self)@.contains_key(id) && s == old(self)@[id],
            },
    {
        let r = self.states.remove(&id);
        if r.is_some() {
            let ghost ids0 = self.ids@;
            let n: usize = self.ids.len();
            let mut i: usize = 0;
            while self.ids[i] != id
                invariant
                    self.ids@ == ids0,
                    ids0.len() == n,
                    i < ids0.len(),
                    ids0.contains(id),
                    forall|j: int| 0 <= j < i ==> ids0[j] != id,
                decreases ids0.len() - i,
            {
                i = i + 1;
                assert(i < ids0.len()) by {
                    let k = choose|k: int| 0 <= k < ids0.len() && ids0[k] == id;
                    if k >= i {
                    } else {
                        assert(ids0[k] != id);
                    }
                }
            }
            self.ids.remove(i);
            proof {
                assert forall|x: u64| self.ids@.to_set().contains(x)
                    <==> ids0.to_set().remove(id).contains(x) by {
                    if ids0.to_set().remove(id).contains(x) {
                        let k = choose|k: int| 0 <= k < ids0.len() && ids0[k] == x;
                        if k < i {
                            assert(self.ids@[k] == x);
                        } else {
                            assert(k != i);
                            assert(self.ids@[k - 1] == x);
                        }
                    }
                    if self.ids@.to_set().contains(x) {
                        let k = choose|k: int| 0 <= k < self.ids@.len() && self.ids@[k] == x;
                        if k < i {
                            assert(ids0[k] == x);
                        } else {
                            assert(ids0[k + 1] == x);
                        }
                    }
                }
                assert(self.ids@.to_set() =~= ids0.to_set().remove(id));
                assert forall|a: int, b: int|
                    0 <= a < b < self.ids@.len() implies self.ids@[a] != self.ids@[b] by {
                    let a0 = if a < i { a } else { a + 1 };
                    let b0 = if b < i { b } else { b + 1 };
                    assert(ids0[a0] != ids0[b0]);
                }
            }
        }
        assert(self.states@.dom() =~= self.ids@.to_set());
        r
    }

    /// Moves every stored state with `migrate` (a transfer to another
    /// device); the set of identities stays the same.
    pub fn to_device<G: Fn(S) -> S>(&mut self, migrate: &G)
        requires
            old(self).wf(),
            forall|s: S| migrate.requires((s,)),
        ensures
            final(self).wf(),
            final(self)@.dom() == old(self)@.dom(),
            forall|id: u64|
                old(self)@.contains_key(id) ==> migrate.ensures(
                    (old(self)@[id],),
                    #[trigger] final(self)@[id],
                ),
    {
        let ghost before = self@;
        let ghost ids = self.ids@;
        let n: usize = self.ids.len();
        let mut moved: HashMap<u64, S> = HashMap::new();
        let mut i: usize = 0;
        while i < n
            invariant
                self.ids@ == ids,
                n == ids.len(),
                i <= n,
                ids.no_duplicates(),
                before.dom() == ids.to_set(),
                forall|s: S| migrate.requires((s,)),
                forall|j: int|
                    0 <= j < i ==> moved@.contains_key(#[trigger] ids[j]) && migrate.ensures(
                        (before[ids[j]],),
                        moved@[ids[j]],
                    ),
                forall|j: int|
                    i <= j < n ==> self.states@.contains_key(#[trigger] ids[j])
                        && self.states@[ids[j]] == before[ids[j]],
                forall|k: u64| moved@.contains_key(k) ==> exists|j: int| 0 <= j < i && ids[j] == k,
            decreases n - i,
        {
            let id = self.ids[i];
            let taken = self.states.remove(&id);
            match taken {
                Some(s) => {
                    let m = migrate(s);
                    moved.insert(id, m);
                },
                None => {},
            }
            proof {
                assert forall|j: int| i < j < n implies self.states@.contains_key(#[trigger] ids[j])
                    && self.states@[ids[j]] == before[ids[j]] by {
                    assert(ids[j] != ids[i as int]);
                }
                assert forall|j: int| 0 <= j < i + 1 implies moved@.contains_key(#[trigger] ids[j])
                    && migrate.ensures((before[ids[j]],), moved@[ids[j]]) by {
                    if j < i {
                        assert(ids[j] != ids[i as int]);
                    }
                }
                assert forall|k: u64| moved@.contains_key(k) implies exists|j: int|
                    0 <= j < i + 1 && ids[j] == k by {
                    if k == id {
                        assert(ids[i as int] == k);
                    }
                }
            }
            i = i + 1;
        }
        proof {
            assert forall|k: u64| moved@.contains_key(k) <==> ids.to_set().contains(k) by {
                if ids.to_set().contains(k) {
                    let j = choose|j: int| 0 <= j < ids.len() && ids[j] == k;
                    assert(moved@.contains_key(ids[j]));
                }
            }
            assert(moved@.dom() =~= ids.to_set());
            assert forall|id: u64| before.contains_key(id) implies migrate.ensures(
                (before[id],),
                moved@[id],
            ) by {
                assert(ids.to_set().contains(id));
                let j = choose|j: int| 0 <= j < ids.len() && ids[j] == id;
                assert(moved@.contains_key(ids[j]));
            }
        }
        self.states = moved;
    }

    /// The registry as a record: each identity with its state, each
    /// identity once.
    pub fn into_record(self) -> (r: Vec<(u64, S)>)
        requires
            self.wf(),
        ensures
            record_view(r@) == self@,
            forall|a: int, b: int| 0 <= a < b < r@.len() ==> r@[a].0 != r@[b].0,
    {
        let ghost before = self@;
        let ghost ids = self.ids@;
        let mut states = self.states;
        let n: usize = self.ids.len();
        let mut r: Vec<(u64, S)> = Vec::new();
        let mut i: usize = 0;
        while i < n
            invariant
                n == ids.len(),
                i <= n,
                self.ids@ == ids,
                ids.no_duplicates(),
                before.dom() == ids.to_set(),
                r@.len() == i,
                forall|j: int| 0 <= j < i ==> (#[trigger] r@[j]).0 == ids[j],
                record_view(r@) == before.restrict(ids.subrange(0, i as int).to_set()),
                forall|j: int|
                    i <= j < n ==> states@.contains_key(#[trigger] ids[j]) && states@[ids[j]]
                        == before[ids[j]],
            decreases n - i,
        {
            let id = self.ids[i];
            let taken = states.remove(&id);
            assert(states@.contains_key(id) || taken is Some);
            match taken {
                Some(s) => {
                    let ghost prev = r@;
                    r.push((id, s));
                    proof {
                        assert(r@.drop_last() == prev);
                        let done = ids.subrange(0, i as int);
                        assert(ids.subrange(0, i + 1) == done.push(id));
                        done.lemma_push_to_set_commute(id);
                        assert(before.restrict(done.to_set().insert(id)) =~= before.restrict(
                            done.to_set(),
                        ).insert(id, s));
                    }
                },
                None => {},
            }
            proof {
                assert forall|j: int| i < j < n implies states@.contains_key(#[trigger] ids[j])
                    && states@[ids[j]] == before[ids[j]] by {
                    assert(ids[j] != ids[i as int]);
                }
            }
            i = i + 1;
        }
        proof {
            assert(ids.subrange(0, n as int) == ids);
            assert(before.restrict(ids.to_set()) =~= before);
        }
        r
    }

    /// Replaces everything stored with the states that `record` lists; where
    /// an identity is listed twice, the later state wins.
    pub fn load_record(&mut self, record: Vec<(u64, S)>)
        requires
            old(self).wf(),
        ensures
            final(self).wf(),
            final(self)@ == record_view(record@),
    {
        let ghost rec = record@;
        let n: usize = record.len();
        let mut record = record;
        let mut fresh = Self::new();
        let mut i: usize = 0;
        while i < n
            invariant
                fresh.wf(),
                n == rec.len(),
                i <= n,
                record@ == rec.subrange(i as int, n as int),
                fresh@ == record_view(rec.subrange(0, i as int)),
            decreases n - i,
        {
            let (id, s) = record.remove(0);
            assert(rec[i as int] == (id, s));
            fresh.insert(id, s);
            assert(rec.subrange(0, i + 1).drop_last() == rec.subrange(0, i as int));
            i = i + 1;
        }
        assert(rec.subrange(0, n as int) == rec);
        *self = fresh;
    }
}

/// The identities that a record maps are those it lists; where each is
/// listed once, there are as many states as entries.
pub proof fn lemma_record_ids<S>(record: Seq<(u64, S)>)
    ensures
        forall|id: u64|
            #[trigger] record_view(record).contains_key(id) <==> exists|i: int|
                0 <= i < record.len() && record[i].0 == id,
        record_view(record).dom().finite(),
        (forall|a: int, b: int| 0 <= a < b < record.len() ==> record[a].0 != record[b].0)
            ==> record_view(record).dom().len() == record.len(),
    decreases record.len(),
{
    if record.len() == 0 {
        assert(record_view(record).dom() =~= Set::<u64>::empty());
    } else {
        let prefix = record.drop_last();
        let last = record.last();
        lemma_record_ids(prefix);
        assert(record_view(record).dom() == record_view(prefix).dom().insert(last.0));
        assert forall|id: u64|
            #[trigger] record_view(record).contains_key(id) <==> exists|i: int|
                0 <= i < record.len() && record[i].0 == id by {
            if record_view(prefix).contains_key(id) {
                let i = choose|i: int| 0 <= i < prefix.len() && prefix[i].0 == id;
                assert(record[i].0 == id);
            }
            if exists|i: int| 0 <= i < record.len() && record[i].0 == id {
                let i = choose|i: int| 0 <= i < record.len() && record[i].0 == id;
                if i < prefix.len() {
                    assert(prefix[i].0 == id);
                }
            }
        }
        if forall|a: int, b: int| 0 <= a < b < record.len() ==> record[a].0 != record[b].0 {
            assert forall|a: int, b: int| 0 <= a < b < prefix.len() implies prefix[a].0
                != prefix[b].0 by {
                assert(record[a].0 != record[b].0);
            }
            assert(!record_view(prefix).contains_key(last.0)) by {
                if record_view(prefix).contains_key(last.0) {
                    let i = choose|i: int| 0 <= i < prefix.len() && prefix[i].0 == last.0;
                    assert(record[i].0 != record[record.len() - 1].0);
                }
            }
            assert(record_view(record).dom() == record_view(prefix).dom().insert(last.0));
            assert(record_view(prefix).dom().len() == prefix.len());
            assert(record_view(prefix).dom().insert(last.0).len() == prefix.len() + 1);
        }
    }
}

/// A registry loaded from the record of another holds exactly the other's
/// states: the identities and the state of each are kept, and the record
/// lists one entry per state.
pub proof fn lemma_record_round_trip<S>(
    saved: Map<u64, S>,
    record: Seq<(u64, S)>,
    loaded: Map<u64, S>,
)
    requires
        record_view(record) == saved,
        forall|a: int, b: int| 0 <= a < b < record.len() ==> record[a].0 != record[b].0,
        loaded == record_view(record),
    ensures
        loaded.dom() == saved.dom(),
        forall|id: u64| saved.contains_key(id) ==> loaded[id] == saved[id],
        record.len() == saved.dom().len(),
{
    lemma_record_ids(record);
}

} // verus!
