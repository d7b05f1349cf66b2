use std::collections::HashMap;

use burn_adagrad::adagrad::{AdaGrad, AdaGradState};
use burn_adagrad::lr_decay::LRDecayState;
use burn_adagrad::registry::StateRegistry;

type State = AdaGradState<f64, f64>;
type NoDecay = fn(f64, Option<f64>) -> (f64, f64);

fn plus(a: f64, b: f64) -> f64 {
    a + b
}

fn minus(a: f64, b: f64) -> f64 {
    a - b
}

/// The learning-rate decay on one-element tensors.
fn lr_decay(lr: f64, decay: f64, epsilon: f64) -> impl Fn(f64, Option<LRDecayState<f64>>) -> (f64, LRDecayState<f64>) {
    move |grad, prior| {
        let state = LRDecayState::accumulate(prior, grad * grad, plus);
        let new_lr = lr / (1.0 + (state.time as f64 - 1.0) * decay);
        (new_lr * grad / (state.sum.sqrt() + epsilon), state)
    }
}

/// A weight decay that adds the previous gradient times 0.1 and keeps the
/// raw gradient as its state.
fn decay_last(grad: f64, prior: Option<f64>) -> (f64, f64) {
    match prior {
        Some(last) => (grad + 0.1 * last, grad),
        None => (grad, grad),
    }
}

#[test]
fn first_step_starts_counter_at_one() {
    let s = LRDecayState::accumulate(None, 9.0, plus);
    assert_eq!(s.time, 1);
    assert_eq!(s.sum, 9.0);
}

#[test]
fn later_steps_add_squares_and_count() {
    let grads = [3.0, -1.0, 2.0, 0.5];
    let mut state: Option<LRDecayState<f64>> = None;
    for g in grads {
        state = Some(LRDecayState::accumulate(state, g * g, plus));
    }
    let s = state.unwrap();
    assert_eq!(s.time, 4);
    assert_eq!(s.sum, 9.0 + 1.0 + 4.0 + 0.25);
}

#[test]
fn lr_decay_state_to_device_keeps_time() {
    let s = LRDecayState::new(7, 2.5).to_device(|x: f64| x * 2.0);
    assert_eq!(s.time, 7);
    assert_eq!(s.sum, 5.0);
}

#[test]
fn first_step_uses_full_learning_rate() {
    let optim = AdaGrad::<_, NoDecay>::new(lr_decay(0.1, 0.5, 0.0), None);
    let (p, s) = optim.step(1.0, 4.0, None::<State>, minus);
    assert!((p - 0.9).abs() < 1e-12);
    assert_eq!(s.lr_decay.time, 1);
    assert_eq!(s.lr_decay.sum, 16.0);
    assert!(s.weight_decay.is_none());
}

#[test]
fn second_step_decays_learning_rate() {
    let optim = AdaGrad::<_, NoDecay>::new(lr_decay(0.1, 1.0, 0.0), None);
    let (p, s) = optim.step(1.0, 3.0, None::<State>, minus);
    let (p, s) = optim.step(p, 4.0, Some(s), minus);
    assert_eq!(s.lr_decay.time, 2);
    assert_eq!(s.lr_decay.sum, 25.0);
    // 0.9 - (0.1 / 2) * 4 / 5
    assert!((p - 0.86).abs() < 1e-12);
}

#[test]
fn weight_decay_runs_before_lr_decay() {
    let optim = AdaGrad::new(lr_decay(1.0, 0.0, 0.0), Some(decay_last as NoDecay));
    let (p, s) = optim.step(10.0, 2.0, None::<State>, minus);
    assert_eq!(s.weight_decay, Some(2.0));
    assert!((p - 9.0).abs() < 1e-12);
    let (_, s) = optim.step(p, 1.0, Some(s), minus);
    assert_eq!(s.weight_decay, Some(1.0));
    // the decayed gradient 1.2 is what gets squared and summed
    assert!((s.lr_decay.sum - (4.0 + 1.44)).abs() < 1e-12);
}

#[test]
fn disabled_weight_decay_equals_identity_weight_decay() {
    let identity: NoDecay = |g, _| (g, 0.0);
    let off = AdaGrad::<_, NoDecay>::new(lr_decay(0.01, 0.5, 1e-8), None);
    let on = AdaGrad::new(lr_decay(0.01, 0.5, 1e-8), Some(identity));
    let (p_off, s_off) = off.step(0.3, 1.5, None::<State>, minus);
    let (p_on, s_on) = on.step(0.3, 1.5, None::<State>, minus);
    assert_eq!(p_off, p_on);
    let (p_off, s_off) = off.step(p_off, -0.7, Some(s_off), minus);
    let (p_on, s_on) = on.step(p_on, -0.7, Some(s_on), minus);
    assert_eq!(p_off, p_on);
    assert_eq!(s_off.lr_decay.sum, s_on.lr_decay.sum);
    assert_eq!(s_off.lr_decay.time, s_on.lr_decay.time);
}

#[test]
fn adagrad_state_to_device_moves_both_parts() {
    let s = AdaGradState::new(Some(1.0), LRDecayState::new(3, 4.0));
    let s = s.to_device(|x: f64| x + 10.0, |w: f64| w * 3.0);
    assert_eq!(s.weight_decay, Some(3.0));
    assert_eq!(s.lr_decay.time, 3);
    assert_eq!(s.lr_decay.sum, 14.0);
}

#[test]
fn registry_starts_empty() {
    let r: StateRegistry<u8> = StateRegistry::new();
    assert_eq!(r.len(), 0);
    assert!(r.get(5).is_none());
    assert!(r.ids().is_empty());
}

#[test]
fn registry_insert_replaces_and_remove_deletes() {
    let mut r: StateRegistry<u8> = StateRegistry::new();
    r.insert(4, 1);
    r.insert(9, 2);
    r.insert(4, 3);
    assert_eq!(r.len(), 2);
    assert_eq!(r.get(4), Some(&3));
    let mut ids = r.ids();
    ids.sort();
    assert_eq!(ids, vec![4, 9]);
    assert_eq!(r.remove(4), Some(3));
    assert_eq!(r.remove(4), None);
    assert_eq!(r.len(), 1);
    assert_eq!(r.get(9), Some(&2));
}

#[test]
fn stepping_one_parameter_leaves_the_other_alone() {
    let optim = AdaGrad::<_, NoDecay>::new(lr_decay(0.01, 0.0, 1e-8), None);
    let mut r: StateRegistry<State> = StateRegistry::new();
    let _ = r.step_param(&optim, 1, 0.5, Some(2.0), &minus);
    let _ = r.step_param(&optim, 2, 0.5, Some(3.0), &minus);
    let _ = r.step_param(&optim, 1, 0.5, Some(1.0), &minus);
    let b = r.get(2).unwrap();
    assert_eq!(b.lr_decay.time, 1);
    assert_eq!(b.lr_decay.sum, 9.0);
    let a = r.get(1).unwrap();
    assert_eq!(a.lr_decay.time, 2);
    assert_eq!(a.lr_decay.sum, 5.0);
}

#[test]
fn missing_gradient_skips_the_parameter() {
    let optim = AdaGrad::<_, NoDecay>::new(lr_decay(0.01, 0.0, 1e-8), None);
    let mut r: StateRegistry<State> = StateRegistry::new();
    let _ = r.step_param(&optim, 1, 0.5, Some(2.0), &minus);
    let mut grads = HashMap::new();
    grads.insert(2, 4.0);
    let out = r.step_all(&optim, vec![(1, 0.5), (2, 0.25)], grads, &minus);
    assert_eq!(out[0], (1, 0.5));
    assert_eq!(out[1].0, 2);
    assert!((out[1].1 - 0.24).abs() < 1e-9);
    assert_eq!(r.get(1).unwrap().lr_decay.time, 1);
    assert_eq!(r.get(1).unwrap().lr_decay.sum, 4.0);
    assert_eq!(r.get(2).unwrap().lr_decay.sum, 16.0);
    assert_eq!(r.len(), 2);
}

#[test]
fn record_round_trip_keeps_states() {
    let optim = AdaGrad::<_, NoDecay>::new(lr_decay(0.01, 0.0, 1e-8), None);
    let mut r: StateRegistry<State> = StateRegistry::new();
    let mut grads = HashMap::new();
    grads.insert(10, 1.5);
    grads.insert(20, -2.0);
    let _ = r.step_all(&optim, vec![(10, 1.0), (20, 1.0), (30, 1.0)], grads, &minus);
    let record = r.into_record();
    assert_eq!(record.len(), 2);
    let mut loaded: StateRegistry<State> = StateRegistry::new();
    loaded.insert(99, AdaGradState::new(None, LRDecayState::new(5, 0.0)));
    loaded.load_record(record);
    assert_eq!(loaded.len(), 2);
    assert!(loaded.get(99).is_none());
    assert_eq!(loaded.get(10).unwrap().lr_decay.sum, 2.25);
    assert_eq!(loaded.get(20).unwrap().lr_decay.sum, 4.0);
}

#[test]
fn load_record_keeps_last_state_of_a_repeated_identity() {
    let mut r: StateRegistry<u8> = StateRegistry::new();
    r.load_record(vec![(1, 10), (2, 20), (1, 30)]);
    assert_eq!(r.len(), 2);
    assert_eq!(r.get(1), Some(&30));
    assert_eq!(r.get(2), Some(&20));
}

#[test]
fn registry_to_device_moves_every_state() {
    let mut r: StateRegistry<u8> = StateRegistry::new();
    r.insert(1, 10);
    r.insert(2, 20);
    r.to_device(&|s: u8| s + 1);
    assert_eq!(r.len(), 2);
    assert_eq!(r.get(1), Some(&11));
    assert_eq!(r.get(2), Some(&21));
}
