use vstd::prelude::*;

use crate::lr_decay::LRDecayState;

verus! {

/// Composite state of one parameter: the weight-decay state, present once a
/// step has run with weight decay configured, and the learning-rate-decay
/// state.
#[derive(Clone)]
pub struct AdaGradState<T, W> {
    pub weight_decay: Option<W>,
    pub lr_decay: LRDecayState<T>,
}

impl<T, W> AdaGradState<T, W> {
    pub fn new(weight_decay: Option<W>, lr_decay: LRDecayState<T>) -> (r: Self)
        ensures
            r.weight_decay == weight_decay,
            r.lr_decay == lr_decay,
    {
        AdaGradState { weight_decay, lr_decay }
    }

    /// The sub-states before a step: both absent without a prior state.
    pub open spec fn unpack(state: Option<Self>) -> (Option<W>, Option<LRDecayState<T>>) {
        match state {
            None => (None, None),
            Some(s) => (s.weight_decay, Some(s.lr_decay)),
        }
    }

    /// The state with every tensor moved by the given transfers and the step
    /// counter kept.
    pub fn to_device<G: Fn(T) -> T, H: Fn(W) -> W>(self, migrate: G, migrate_wd: H) -> (r: Self)
        requires
            migrate.requires((self.lr_decay.sum,)),
            self.weight_decay matches Some(w) ==> migrate_wd.requires((w,)),
        ensures
            r.lr_decay.time == self.lr_decay.time,
            migrate.ensures((self.lr_decay.sum,), r.lr_decay.sum),
            match self.weight_decay {
                None => r.weight_decay is None,
                Some(w) => r.weight_decay matches Some(v) && migrate_wd.ensures((w,), v),
            },
    {
        let weight_decay = match self.weight_decay {
            None => None,
            Some(w) => Some(migrate_wd(w)),
        };
        let lr_decay = self.lr_decay.to_device(migrate);
        AdaGradState { weight_decay, lr_decay }
    }
}

/// The optimizer's two gradient transforms: the learning-rate decay, and the
/// weight decay where one is configured. Each maps a gradient and its prior
/// sub-state to a transformed gradient and the new sub-state.
pub struct AdaGrad<L, D> {
    pub lr_decay: L,
    pub weight_decay: Option<D>,
}

/// What the weight-decay stage may hand on: without weight decay the
/// gradient and the prior sub-state pass through untouched.
pub open spec fn weight_decay_stage<T, W, D: Fn(T, Option<W>) -> (T, W)>(
    weight_decay: Option<D>,
    grad: T,
    prior: Option<W>,
    grad_out: T,
    state_out: Option<W>,
) -> bool {
    match weight_decay {
        None => grad_out == grad && state_out == prior,
        Some(f) => state_out matches Some(s) && f.ensures((grad, prior), (grad_out, s)),
    }
}

impl<L, D> AdaGrad<L, D> {
    pub fn new(lr_decay: L, weight_decay: Option<D>) -> (r: Self)
        ensures
            r.lr_decay == lr_decay,
            r.weight_decay == weight_decay,
    {
        AdaGrad { lr_decay, weight_decay }
    }

    /// `result` is a possible outcome of a step: weight decay (if any) runs
    /// on the raw gradient first, the learning-rate decay then runs on its
    /// output, and the parameter is `minus` of the parameter and the scaled
    /// gradient.
    pub open spec fn step_result<T, W, S: Fn(T, T) -> T>(
        &self,
        tensor: T,
        grad: T,
        state: Option<AdaGradState<T, W>>,
        minus: S,
        result: (T, AdaGradState<T, W>),
    ) -> bool
        where
            L: Fn(T, Option<LRDecayState<T>>) -> (T, LRDecayState<T>),
            D: Fn(T, Option<W>) -> (T, W),
    {
        let (prior_wd, prior_lr) = AdaGradState::unpack(state);
        exists|g1: T, g2: T|
            weight_decay_stage(self.weight_decay, grad, prior_wd, g1, result.1.weight_decay)
                && self.lr_decay.ensures((g1, prior_lr), (g2, result.1.lr_decay))
                && minus.ensures((tensor, g2), result.0)
    }

    /// One optimizer step on one parameter.
    pub fn step<T, W, S: Fn(T, T) -> T>(
        &self,
        tensor: T,
        grad: T,
        state: Option<AdaGradState<T, W>>,
        minus: S,
    ) -> (r: (T, AdaGradState<T, W>))
        where
            L: Fn(T, Option<LRDecayState<T>>) -> (T, LRDecayState<T>),
            D: Fn(T, Option<W>) -> (T, W),
        requires
            forall|g: T, s: Option<LRDecayState<T>>| self.lr_decay.requires((g, s)),
            self.weight_decay matches Some(f) ==> forall|g: T, s: Option<W>| f.requires((g, s)),
            forall|a: T, b: T| minus.requires((a, b)),
        ensures
            self.step_result(tensor, grad, state, minus, r),
    {
        let (prior_wd, prior_lr) = match state {
            None => (None, None),
            Some(s) => (s.weight_decay, Some(s.lr_decay)),
        };
        let (g1, wd_state) = match &self.weight_decay {
            None => (grad, prior_wd),
            Some(f) => {
                let (g, s) = f(grad, prior_wd);
                (g, Some(s))
            },
        };
        let (g2, lr_state) = (self.lr_decay)(g1, prior_lr);
        let updated = minus(tensor, g2);
        (updated, AdaGradState { weight_decay: wd_state, lr_decay: lr_state })
    }
}

/// `transform` can hand `grad` on unchanged from the prior sub-state `prior`.
pub open spec fn hands_on<T, W, D: Fn(T, Option<W>) -> (T, W)>(
    transform: D,
    grad: T,
    prior: Option<W>,
) -> bool {
    exists|w: W| #[trigger] transform.ensures((grad, prior), (grad, w))
}

/// Turning weight decay off gives the same results as a weight decay that
/// hands every gradient on unchanged: a new parameter value and
/// learning-rate-decay state are possible outcomes of a step without weight
/// decay exactly when they are possible with that pass-through transform.
pub proof fn lemma_identity_weight_decay<T, W, L, D, S: Fn(T, T) -> T>(
    lr_decay: L,
    identity: D,
    tensor: T,
    grad: T,
    state: Option<AdaGradState<T, W>>,
    minus: S,
    out: T,
    lr_state: LRDecayState<T>,
)
    where
        L: Fn(T, Option<LRDecayState<T>>) -> (T, LRDecayState<T>),
        D: Fn(T, Option<W>) -> (T, W),
    requires
        forall|g: T, s: Option<W>, o: (T, W)| #[trigger] identity.ensures((g, s), o) ==> o.0 == g,
        forall|g: T, s: Option<W>| #[trigger] hands_on(identity, g, s),
    ensures
        (exists|w: Option<W>|
            #[trigger] AdaGrad { lr_decay, weight_decay: None::<D> }.step_result(
                tensor,
                grad,
                state,
                minus,
                (out, AdaGradState { weight_decay: w, lr_decay: lr_state }),
            )) <==> (exists|w: Option<W>|
            #[trigger] AdaGrad { lr_decay, weight_decay: Some(identity) }.step_result(
                tensor,
                grad,
                state,
                minus,
                (out, AdaGradState { weight_decay: w, lr_decay: lr_state }),
            )),
{
    let off = AdaGrad { lr_decay, weight_decay: None::<D> };
    let on = AdaGrad { lr_decay, weight_decay: Some(identity) };
    let (prior_wd, prior_lr) = AdaGradState::unpack(state);
    if exists|w: Option<W>|
        #[trigger] off.step_result(
            tensor,
            grad,
            state,
            minus,
            (out, AdaGradState { weight_decay: w, lr_decay: lr_state }),
        ) {
        let w = choose|w: Option<W>|
            #[trigger] off.step_result(
                tensor,
                grad,
                state,
                minus,
                (out, AdaGradState { weight_decay: w, lr_decay: lr_state }),
            );
        let r = (out, AdaGradState { weight_decay: w, lr_decay: lr_state });
        let (g1, g2) = choose|g1: T, g2: T|
            weight_decay_stage(off.weight_decay, grad, prior_wd, g1, r.1.weight_decay)
                && off.lr_decay.ensures((g1, prior_lr), (g2, r.1.lr_decay))
                && minus.ensures((tensor, g2), r.0);
        assert(hands_on(identity, grad, prior_wd));
        let v = choose|v: W| #[trigger] identity.ensures((grad, prior_wd), (grad, v));
        let r2 = (out, AdaGradState { weight_decay: Some(v), lr_decay: lr_state });
        assert(g1 == grad);
        assert(weight_decay_stage(on.weight_decay, grad, prior_wd, grad, r2.1.weight_decay)
            && on.lr_decay.ensures((grad, prior_lr), (g2, r2.1.lr_decay)) && minus.ensures(
            (tensor, g2),
            r2.0,
        ));
        assert(on.step_result(tensor, grad, state, minus, r2));
    }
    if exists|w: Option<W>|
        #[trigger] on.step_result(
            tensor,
            grad,
            state,
            minus,
            (out, AdaGradState { weight_decay: w, lr_decay: lr_state }),
        ) {
        let w = choose|w: Option<W>|
            #[trigger] on.step_result(
                tensor,
                grad,
                state,
                minus,
                (out, AdaGradState { weight_decay: w, lr_decay: lr_state }),
            );
        let r = (out, AdaGradState { weight_decay: w, lr_decay: lr_state });
        let (g1, g2) = choose|g1: T, g2: T|
            weight_decay_stage(on.weight_decay, grad, prior_wd, g1, r.1.weight_decay)
                && on.lr_decay.ensures((g1, prior_lr), (g2, r.1.lr_decay))
                && minus.ensures((tensor, g2), r.0);
        let s = r.1.weight_decay.unwrap();
        assert(identity.ensures((grad, prior_wd), (g1, s)));
        let r2 = (out, AdaGradState { weight_decay: prior_wd, lr_decay: lr_state });
        assert(weight_decay_stage(off.weight_decay, grad, prior_wd, g1, r2.1.weight_decay)
            && off.lr_decay.ensures((g1, prior_lr), (g2, r2.1.lr_decay)) && minus.ensures(
            (tensor, g2),
            r2.0,
        ));
        assert(off.step_result(tensor, grad, state, minus, r2));
    }
}

} // verus!
