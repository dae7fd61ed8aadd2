use petri_net_legacy_editor::markov::{
    apply_transition, auto_state_limit, build_markov_chain, build_transition_specs,
    enabled_transition_candidates, estimate_graph_bytes, net_has_timed_behavior, transition_enabled, MarkovChain,
    StationaryStatus, DEFAULT_MIN_MAX_STATES, HARD_AUTO_MAX_STATES, STATIONARY_ONE,
};
use petri_net_legacy_editor::model::{PetriNetModel, StochasticDistribution};

fn sum_probability(chain: &MarkovChain) -> Option<f64> {
    chain
        .stationary
        .as_ref()
        .map(|v| v.iter().map(|b| f64::from_bits(*b)).sum::<f64>())
}

#[test]
fn chain_enumerates_states() {
    let mut net = PetriNetModel::new();
    net.set_counts(2, 1);
    net.tables.m0[0] = 1;
    net.tables.pre[0][0] = 1;
    net.tables.post[1][0] = 1;
    net.tables.mo[1] = Some(2);
    let chain = build_markov_chain(&net, Some(20));

    assert!(chain.state_count() >= 2);
    assert!(chain.transitions.iter().any(|edges| !edges.is_empty()));
    // The iterative solver runs outside the library; the chain waits for it.
    assert_eq!(chain.stationary_status, StationaryStatus::SolverPending);
    assert!(chain.stationary.is_none());
}

#[test]
fn chain_states_and_edges_of_a_two_state_net() {
    let mut net = PetriNetModel::new();
    net.set_counts(2, 1);
    net.tables.m0[0] = 1;
    net.tables.pre[0][0] = 1;
    net.tables.post[1][0] = 1;
    net.tables.mo[1] = Some(2);
    let chain = build_markov_chain(&net, Some(20));
    assert_eq!(chain.states, vec![vec![1, 0], vec![0, 1]]);
    assert_eq!(chain.transitions, vec![vec![(1, 1)], vec![]]);
    assert!(!chain.limit_reached);
    assert_eq!(chain.state_limit, 20);
}

#[test]
fn priority_and_pre_weight_filter_matches_simulation_policy() {
    let mut net = PetriNetModel::new();
    net.set_counts(2, 3);
    net.tables.m0[0] = 2;
    net.tables.m0[1] = 1;
    net.tables.pre[0][0] = 1;
    net.tables.post[0][0] = 1;
    net.tables.mpr[0] = 1;
    net.tables.pre[0][1] = 1;
    net.tables.pre[1][1] = 1;
    net.tables.post[0][1] = 1;
    net.tables.mpr[1] = 5;
    net.tables.pre[0][2] = 1;
    net.tables.post[0][2] = 1;
    net.tables.mpr[2] = 5;

    let specs = build_transition_specs(&net);
    let enabled = enabled_transition_candidates(&net, &specs, &net.tables.m0);
    assert_eq!(enabled, vec![1]);
}

#[test]
fn capacity_blocks_a_transition_that_would_overfill() {
    let mut net = PetriNetModel::new();
    net.set_counts(2, 1);
    net.tables.m0[0] = 1;
    net.tables.m0[1] = 1;
    net.tables.pre[0][0] = 1;
    net.tables.post[1][0] = 1;
    let specs = build_transition_specs(&net);
    // place 1 holds its capacity of 1 already
    assert!(enabled_transition_candidates(&net, &specs, &net.tables.m0).is_empty());
    net.tables.mo[1] = Some(2);
    assert_eq!(enabled_transition_candidates(&net, &specs, &net.tables.m0), vec![0]);
}

#[test]
fn inhibitor_threshold_blocks_firing() {
    let mut net = PetriNetModel::new();
    net.set_counts(2, 1);
    net.tables.mo[1] = None;
    net.tables.m0[0] = 1;
    net.tables.m0[1] = 2;
    net.tables.pre[0][0] = 1;
    net.tables.inhibitor[1][0] = 2;
    let specs = build_transition_specs(&net);
    assert!(enabled_transition_candidates(&net, &specs, &net.tables.m0).is_empty());
    let marking = vec![1, 1];
    assert_eq!(enabled_transition_candidates(&net, &specs, &marking), vec![0]);
}

#[test]
fn firing_moves_tokens_and_saturates() {
    let mut net = PetriNetModel::new();
    net.set_counts(2, 1);
    net.tables.pre[0][0] = 3;
    net.tables.post[1][0] = 2;
    let specs = build_transition_specs(&net);
    assert_eq!(apply_transition(&[5, 1], &specs[0]), vec![2, 3]);
    assert_eq!(apply_transition(&[1, u32::MAX], &specs[0]), vec![0, u32::MAX]);
    assert_eq!(specs[0].pre_weight, 3);
    assert!(specs[0].active);
}

#[test]
fn fixed_limit_cuts_the_graph() {
    let mut net = PetriNetModel::new();
    net.set_counts(1, 1);
    net.tables.mo[0] = None;
    net.tables.post[0][0] = 1;
    let chain = build_markov_chain(&net, Some(3));
    assert!(chain.limit_reached);
    assert_eq!(chain.state_count(), 3);
    assert_eq!(chain.state_limit, 3);
    assert_eq!(
        chain.stationary_status,
        StationaryStatus::LimitReached { explored_states: 3, limit: 3 }
    );
    assert!(chain.stationary.is_none());
}

#[test]
fn zero_limit_keeps_only_the_initial_marking() {
    let mut net = PetriNetModel::new();
    net.set_counts(1, 1);
    net.tables.post[0][0] = 1;
    let chain = build_markov_chain(&net, Some(0));
    assert!(chain.limit_reached);
    assert_eq!(chain.state_count(), 1);
    assert_eq!(chain.transitions, vec![Vec::<(usize, usize)>::new()]);
}

#[test]
fn single_state_chain_has_point_mass() {
    let mut net = PetriNetModel::new();
    net.set_counts(1, 1);
    net.tables.m0[0] = 1;
    net.tables.pre[0][0] = 1;
    net.tables.post[0][0] = 1;
    let chain = build_markov_chain(&net, None);
    assert_eq!(chain.state_count(), 1);
    assert_eq!(chain.transitions, vec![vec![(0, 1)]]);
    assert_eq!(chain.stationary_status, StationaryStatus::Computed);
    assert_eq!(chain.stationary, Some(vec![STATIONARY_ONE]));
    assert_eq!(sum_probability(&chain), Some(1.0));
}

#[test]
fn dead_net_has_no_dynamic_transitions() {
    let mut net = PetriNetModel::new();
    net.set_counts(2, 1);
    net.tables.m0[0] = 1;
    net.tables.pre[0][0] = 1;
    net.tables.post[1][0] = 1;
    net.tables.mo[1] = Some(2);
    // two states, the second one dead, so some state has an edge
    let chain = build_markov_chain(&net, None);
    assert_eq!(chain.state_count(), 2);
    assert_eq!(chain.stationary_status, StationaryStatus::SolverPending);

    let mut idle = PetriNetModel::new();
    idle.set_counts(1, 1);
    idle.tables.pre[0][0] = 1;
    let chain = build_markov_chain(&idle, None);
    assert_eq!(chain.state_count(), 1);
    assert_eq!(chain.stationary_status, StationaryStatus::Computed);
}

#[test]
fn timed_net_has_no_stationary_distribution() {
    let mut net = PetriNetModel::new();
    net.set_counts(1, 1);
    net.tables.mz[0] = 1.5f64.to_bits();
    assert!(net_has_timed_behavior(&net));
    let chain = build_markov_chain(&net, None);
    assert_eq!(chain.stationary_status, StationaryStatus::TimedNetUnsupported);

    let mut random = PetriNetModel::new();
    random.set_counts(1, 1);
    random.places[0].stochastic = StochasticDistribution::Exponential { lambda: 1.0f64.to_bits() };
    assert!(net_has_timed_behavior(&random));
    let mut plain = PetriNetModel::new();
    plain.set_counts(1, 1);
    plain.tables.mz[0] = (-1.0f64).to_bits();
    assert!(!net_has_timed_behavior(&plain));
}

#[test]
fn automatic_limit_stays_within_its_bounds() {
    let mut net = PetriNetModel::new();
    net.set_counts(2, 3);
    assert_eq!(estimate_graph_bytes(&net, 10, 4, 2), 10 * (8 + 96) + 10 * (8 + 48) + 4 * 24 + 2 * 8);
    let limit = auto_state_limit(&net, 1, 0, 0);
    assert!(limit >= DEFAULT_MIN_MAX_STATES && limit <= HARD_AUTO_MAX_STATES);
    // a graph of few bytes per state is allowed many states, up to the cap
    assert_eq!(limit, HARD_AUTO_MAX_STATES);
    assert_eq!(auto_state_limit(&net, 5_000_000, 0, 0), HARD_AUTO_MAX_STATES);
}

#[test]
fn every_state_is_a_distinct_marking_reached_by_firing() {
    let mut net = PetriNetModel::new();
    net.set_counts(3, 2);
    for p in 0..3 {
        net.tables.mo[p] = None;
    }
    net.tables.m0[0] = 2;
    net.tables.pre[0][0] = 1;
    net.tables.post[1][0] = 1;
    net.tables.pre[1][1] = 1;
    net.tables.post[2][1] = 1;
    let chain = build_markov_chain(&net, None);
    assert!(!chain.limit_reached);
    assert_eq!(chain.states[0], vec![2, 0, 0]);
    for i in 0..chain.states.len() {
        for j in 0..i {
            assert_ne!(chain.states[i], chain.states[j]);
        }
    }
    // 2 tokens spread over 3 places: 6 markings
    assert_eq!(chain.state_count(), 6);
    let specs = build_transition_specs(&net);
    for (i, edges) in chain.transitions.iter().enumerate() {
        let enabled = enabled_transition_candidates(&net, &specs, &chain.states[i]);
        let total: usize = edges.iter().map(|e| e.1).sum();
        assert_eq!(total, enabled.len());
        for t in enabled {
            let next = apply_transition(&chain.states[i], &specs[t]);
            assert!(chain.states.contains(&next));
        }
    }
}

#[test]
fn solver_outcome_settles_a_pending_chain() {
    let mut net = PetriNetModel::new();
    net.set_counts(2, 1);
    net.tables.m0[0] = 1;
    net.tables.pre[0][0] = 1;
    net.tables.post[1][0] = 1;
    net.tables.mo[1] = Some(2);
    let pending = build_markov_chain(&net, Some(20));
    assert_eq!(pending.stationary_status, StationaryStatus::SolverPending);

    let mut solved = pending.clone();
    let half = 0.5f64.to_bits();
    solved.record_solver_outcome(Some(vec![half, half]));
    assert_eq!(solved.stationary_status, StationaryStatus::Computed);
    assert_eq!(solved.stationary, Some(vec![half, half]));
    assert_eq!(solved.states, pending.states);

    let mut failed = pending.clone();
    failed.record_solver_outcome(None);
    assert_eq!(failed.stationary_status, StationaryStatus::SolverDidNotConverge);
    assert!(failed.stationary.is_none());

    let mut single = PetriNetModel::new();
    single.set_counts(1, 1);
    single.tables.pre[0][0] = 1;
    let mut done = build_markov_chain(&single, None);
    done.record_solver_outcome(None);
    assert_eq!(done.stationary_status, StationaryStatus::Computed);
    assert_eq!(done.stationary, Some(vec![STATIONARY_ONE]));
}

#[test]
fn capacity_refuses_only_a_raise_above_it() {
    let mut net = PetriNetModel::new();
    net.set_counts(1, 2);
    net.tables.m0[0] = 3;
    net.tables.mo[0] = Some(1);
    // transition 0 keeps the count at 3, transition 1 raises it to 4
    net.tables.pre[0][0] = 1;
    net.tables.post[0][0] = 1;
    net.tables.pre[0][1] = 1;
    net.tables.post[0][1] = 2;
    let specs = build_transition_specs(&net);
    assert!(transition_enabled(&net, &specs[0], &net.tables.m0));
    assert!(!transition_enabled(&net, &specs[1], &net.tables.m0));
    // lowering an overfull place is allowed too
    net.tables.post[0][1] = 0;
    let specs = build_transition_specs(&net);
    assert!(transition_enabled(&net, &specs[1], &net.tables.m0));
}
