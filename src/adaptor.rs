use vstd::prelude::*;

use std::collections::HashMap;

use crate::adagrad::{AdaGrad, AdaGradState};
use crate::lr_decay::LRDecayState;
use crate::registry::StateRegistry;

verus! {

broadcast use vstd::std_specs::hash::group_hash_axioms;

/// What `m` holds for `id`, as an option.
pub open spec fn entry<V>(m: Map<u64, V>, id: u64) -> Option<V> {
    if m.contains_key(id) {
        Some(m[id])
    } else {
        None
    }
}

/// `before` and `after` agree on `id`: both hold nothing for it, or the
/// same value.
pub open spec fn same_at<V>(before: Map<u64, V>, after: Map<u64, V>, id: u64) -> bool {
    entry(before, id) == entry(after, id)
}

/// The outcome for one parameter of a step over the registry: without a
/// gradient the parameter comes back as it was and its stored state is
/// left alone; with one, the new parameter and the state now stored for it
/// are a result of the optimizer's step from the state stored before.
pub open spec fn param_outcome<L, D, T, W, M: Fn(T, T) -> T>(
    optim: AdaGrad<L, D>,
    before: Map<u64, AdaGradState<T, W>>,
    after: Map<u64, AdaGradState<T, W>>,
    id: u64,
    tensor: T,
    grad: Option<T>,
    minus: M,
    out: T,
) -> bool
    where
        L: Fn(T, Option<LRDecayState<T>>) -> (T, LRDecayState<T>),
        D: Fn(T, Option<W>) -> (T, W),
{
    match grad {
        None => out == tensor && same_at(before, after, id),
        Some(g) => after.contains_key(id) && optim.step_result(
            tensor,
            g,
            entry(before, id),
            minus,
            (out, after[id]),
        ),
    }
}

/// Stepping a parameter leaves the states of all other parameters as they
/// were.
pub proof fn lemma_step_isolation<T, W>(
    before: Map<u64, AdaGradState<T, W>>,
    id: u64,
    state: AdaGradState<T, W>,
    other: u64,
)
    requires
        other != id,
    ensures
        same_at(before, before.insert(id, state), other),
{
}

impl<T, W> StateRegistry<AdaGradState<T, W>> {
    /// Steps the parameter `id` with value `tensor`: where `grad` is absent
    /// the parameter is skipped, else the optimizer runs from the state
    /// stored for `id` (none before its first step) and the new state is
    /// stored under `id`.
    pub fn step_param<L, D, M: Fn(T, T) -> T>(
        &mut self,
        optim: &AdaGrad<L, D>,
        id: u64,
        tensor: T,
        grad: Option<T>,
        minus: &M,
    ) -> (r: T)
        where
            L: Fn(T, Option<LRDecayState<T>>) -> (T, LRDecayState<T>),
            D: Fn(T, Option<W>) -> (T, W),
        requires
            old(self).wf(),
            forall|g: T, s: Option<LRDecayState<T>>| optim.lr_decay.requires((g, s)),
            optim.weight_decay matches Some(f) ==> forall|g: T, s: Option<W>| f.requires((g, s)),
            forall|a: T, b: T| minus.requires((a, b)),
        ensures
            final(self).wf(),
            param_outcome(*optim, old(self)@, final(self)@, id, tensor, grad, *minus, r),
            grad is None ==> final(self)@ == old(self)@,
            grad is Some ==> final(self)@ == old(self)@.insert(id, final(self)@[id]),
    {
        match grad {
            None => tensor,
            Some(g) => {
                let ghost before = self@;
                let prior = self.remove(id);
                let (updated, state) = optim.step(tensor, g, prior, minus);
                proof {
                    assert(prior == entry(before, id));
                }
                self.insert(id, state);
                assert(self@ =~= before.insert(id, state));
                assert(self@[id] == state);
                updated
            },
        }
    }

    /// Steps every parameter of `params` (identity and value, identities
    /// distinct) that has an entry in `grads`; the others come back as
    /// they were. The result lists the parameters in the order given.
    pub fn step_all<L, D, M: Fn(T, T) -> T>(
        &mut self,
        optim: &AdaGrad<L, D>,
        params: Vec<(u64, T)>,
        grads: HashMap<u64, T>,
        minus: &M,
    ) -> (r: Vec<(u64, T)>)
        where
            L: Fn(T, Option<LRDecayState<T>>) -> (T, LRDecayState<T>),
            D: Fn(T, Option<W>) -> (T, W),
        requires
            old(self).wf(),
            forall|a: int, b: int|
                0 <= a < b < params@.len() ==> params@[a].0 != params@[b].0,
            forall|g: T, s: Option<LRDecayState<T>>| optim.lr_decay.requires((g, s)),
            optim.weight_decay matches Some(f) ==> forall|g: T, s: Option<W>| f.requires((g, s)),
            forall|a: T, b: T| minus.requires((a, b)),
        ensures
            final(self).wf(),
            r@.len() == params@.len(),
            forall|i: int|
                0 <= i < params@.len() ==> {
                    &&& (#[trigger] r@[i]).0 == params@[i].0
                    &&& param_outcome(
                        *optim,
                        old(self)@,
                        final(self)@,
                        params@[i].0,
                        params@[i].1,
                        entry(grads@, params@[i].0),
                        *minus,
                        r@[i].1,
                    )
                },
            forall|id: u64|
                (forall|i: int| 0 <= i < params@.len() ==> params@[i].0 != id) ==> same_at(
                    old(self)@,
                    final(self)@,
                    id,
                ),
    {
        let ghost before = self@;
        let ghost ps = params@;
        let ghost gs = grads@;
        let n: usize = params.len();
        let mut params = params;
        let mut grads = grads;
        let mut r: Vec<(u64, T)> = Vec::new();
        let mut i: usize = 0;
        while i < n
            invariant
                self.wf(),
                n == ps.len(),
                i <= n,
                params@ == ps.subrange(i as int, n as int),
                r@.len() == i,
                forall|a: int, b: int| 0 <= a < b < ps.len() ==> ps[a].0 != ps[b].0,
                forall|g: T, s: Option<LRDecayState<T>>| optim.lr_decay.requires((g, s)),
                optim.weight_decay matches Some(f) ==> forall|g: T, s: Option<W>|
                    f.requires((g, s)),
                forall|a: T, b: T| minus.requires((a, b)),
                forall|j: int| i <= j < n ==> entry(grads@, #[trigger] ps[j].0) == entry(gs, ps[j].0),
                forall|j: int|
                    0 <= j < i ==> {
                        &&& (#[trigger] r@[j]).0 == ps[j].0
                        &&& param_outcome(*optim, before, self@, ps[j].0, ps[j].1, entry(gs, ps[j].0), *minus, r@[j].1)
                    },
                forall|id: u64|
                    (forall|j: int| 0 <= j < i ==> ps[j].0 != id) ==> same_at(before, self@, id),
            decreases n - i,
        {
            let (id, tensor) = params.remove(0);
            assert(id == ps[i as int].0 && tensor == ps[i as int].1);
            let grad = grads.remove(&id);
            assert(grad == entry(gs, id));
            let ghost mid = self@;
            assert(same_at(before, mid, id));
            let updated = self.step_param(optim, id, tensor, grad, minus);
            proof {
                assert(entry(mid, id) == entry(before, id));
                assert forall|j: int| i < j < n implies entry(grads@, #[trigger] ps[j].0) == entry(gs, ps[j].0) by {
                    assert(ps[j].0 != id);
                }
                assert forall|k: u64| k != id implies same_at(mid, self@, k) by {
                    if grad is Some {
                        lemma_step_isolation(mid, id, self@[id], k);
                    }
                }
                assert forall|j: int| 0 <= j < i implies param_outcome(*optim, before, self@, ps[j].0, ps[j].1, entry(gs, ps[j].0), *minus, r@[j].1) by {
                    assert(ps[j].0 != id);
                    assert(same_at(mid, self@, ps[j].0));
                }
            }
            r.push((id, updated));
            proof {
                assert forall|j: int| 0 <= j < i + 1 implies {
                    &&& (#[trigger] r@[j]).0 == ps[j].0
                    &&& param_outcome(*optim, before, self@, ps[j].0, ps[j].1, entry(gs, ps[j].0), *minus, r@[j].1)
                } by {
                    if j == i {
                        assert(r@[j] == (id, updated));
                    }
                }
                assert forall|k: u64| (forall|j: int| 0 <= j < i + 1 ==> ps[j].0 != k) implies same_at(before, self@, k) by {
                    assert(ps[i as int].0 != k);
                    assert(forall|j: int| 0 <= j < i ==> ps[j].0 != k);
                    assert(same_at(before, mid, k));
                    assert(same_at(mid, self@, k));
                }
            }
            i = i + 1;
        }
        r
    }
}

} // verus!
