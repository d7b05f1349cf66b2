use vstd::prelude::*;

verus! {

/// Accumulated state of the learning-rate-decay transform for one parameter.
///
/// `time` counts the steps taken (1 after the first one) and `sum` is the
/// running element-wise sum of the squared gradients seen so far.
#[derive(Clone)]
pub struct LRDecayState<T> {
    pub time: usize,
    pub sum: T,
}

impl<T> LRDecayState<T> {
    pub fn new(time: usize, sum: T) -> (r: Self)
        ensures
            r.time == time,
            r.sum == sum,
    {
        LRDecayState { time, sum }
    }

    /// The state after one more step, given the squared gradient `grad_sq`
    /// of that step. Without a prior state this is the first step: the
    /// counter starts at 1 and the sum is the squared gradient itself.
    /// Otherwise the counter goes up by one and the new sum is what `plus`
    /// returns on the prior sum and `grad_sq`.
    pub fn accumulate<F: Fn(T, T) -> T>(prior: Option<Self>, grad_sq: T, plus: F) -> (r: Self)
        requires
            prior matches Some(p) ==> p.time < usize::MAX,
            forall|a: T, b: T| plus.requires((a, b)),
        ensures
            Self::accumulates(prior, grad_sq, plus, r),
    {
        match prior {
            None => LRDecayState { time: 1, sum: grad_sq },
            Some(p) => {
                let sum = plus(p.sum, grad_sq);
                LRDecayState { time: p.time + 1, sum }
            },
        }
    }

    /// `next` is a state that one step with squared gradient `grad_sq`
    /// may lead to from `prior`.
    pub open spec fn accumulates<F: Fn(T, T) -> T>(
        prior: Option<Self>,
        grad_sq: T,
        plus: F,
        next: Self,
    ) -> bool {
        match prior {
            None => next.time == 1 && next.sum == grad_sq,
            Some(p) => next.time == p.time + 1 && plus.ensures((p.sum, grad_sq), next.sum),
        }
    }

    /// The state with its sum moved by `migrate` (a transfer to another
    /// device); the step counter is kept.
    pub fn to_device<G: Fn(T) -> T>(self, migrate: G) -> (r: Self)
        requires
            migrate.requires((self.sum,)),
        ensures
            r.time == self.time,
            migrate.ensures((self.sum,), r.sum),
    {
        let sum = migrate(self.sum);
        LRDecayState { time: self.time, sum }
    }

    /// Over a run of steps that starts without a state, the counter after
    /// the k-th step is k, the first sum is the first squared gradient, and
    /// each later sum is `plus` of the sum before it and that step's squared
    /// gradient: the running sum of all squared gradients so far.
    pub proof fn lemma_accumulation<F: Fn(T, T) -> T>(sqs: Seq<T>, states: Seq<Self>, plus: F)
        requires
            states.len() == sqs.len(),
            states.len() > 0 ==> Self::accumulates(None, sqs[0], plus, states[0]),
            forall|k: int|
                0 < k < states.len() ==> Self::accumulates(
                    Some(states[k - 1]),
                    sqs[k],
                    plus,
                    #[trigger] states[k],
                ),
        ensures
            forall|k: int| 0 <= k < states.len() ==> (#[trigger] states[k]).time == k + 1,
            states.len() > 0 ==> states[0].sum == sqs[0],
            forall|k: int|
                0 < k < states.len() ==> plus.ensures(
                    (states[k - 1].sum, sqs[k]),
                    (#[trigger] states[k]).sum,
                ),
        decreases states.len(),
    {
        if states.len() > 1 {
            let n = states.len() - 1;
            Self::lemma_accumulation(sqs.drop_last(), states.drop_last(), plus);
            assert forall|k: int| 0 <= k < states.len() implies (#[trigger] states[k]).time == k
                + 1 by {
                if k < n {
                    assert(states.drop_last()[k] == states[k]);
                } else {
                    assert(states.drop_last()[k - 1] == states[k - 1]);
                }
            }
        }
    }
}

} // verus!
