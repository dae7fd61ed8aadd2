use petri_net_legacy_editor::model::PetriNetModel;
use petri_net_legacy_editor::sim::{
    consume_inputs, count_limit_reached, deliver_outputs, enabled_transitions, keep_newest, pick_transition,
    push_log_entry_sampled, top_priority_transitions, total_marking, SimState, MAX_SIM_LOG_ENTRIES,
};
use petri_net_legacy_editor::sim::{observe_extremes, place_flow, PlaceFlowStats};
use rand::rngs::SmallRng;
use rand::SeedableRng;

fn state_for(net: &PetriNetModel) -> SimState {
    let n = net.places.len();
    SimState {
        available: net.tables.m0.clone(),
        through_place_counter: vec![0; n],
        in_tokens: vec![0; n],
        out_tokens: vec![0; n],
    }
}

#[test]
fn higher_priority_transition_is_picked() {
    let mut net = PetriNetModel::new();
    net.set_counts(1, 2);
    net.tables.m0[0] = 2;
    net.tables.pre[0][0] = 1;
    net.tables.post[0][0] = 1;
    net.tables.pre[0][1] = 1;
    net.tables.mpr[0] = 1;
    net.tables.mpr[1] = 5;
    let pending = vec![0usize; 1];
    let enabled = enabled_transitions(&net, &net.tables.m0, &pending);
    assert_eq!(enabled, vec![0, 1]);
    assert_eq!(top_priority_transitions(&net, &enabled), vec![1]);
    let mut rng = SmallRng::seed_from_u64(0x5EED_5EED);
    assert_eq!(pick_transition(&net, &enabled, &mut rng), 1);
}

#[test]
fn isolated_transition_is_not_enabled() {
    let mut net = PetriNetModel::new();
    net.set_counts(1, 2);
    net.tables.m0[0] = 1;
    net.tables.pre[0][0] = 1;
    net.tables.post[0][0] = 1;
    net.tables.mpr[0] = 1;
    net.tables.mpr[1] = 100;
    let enabled = enabled_transitions(&net, &net.tables.m0, &vec![0]);
    assert_eq!(enabled, vec![0]);
}

#[test]
fn waiting_tokens_count_for_inhibitors_and_capacity() {
    let mut net = PetriNetModel::new();
    net.set_counts(2, 1);
    net.tables.m0[0] = 1;
    net.tables.pre[0][0] = 1;
    net.tables.inhibitor[1][0] = 1;
    net.tables.mo[1] = None;
    assert_eq!(enabled_transitions(&net, &net.tables.m0, &vec![0, 0]), vec![0]);
    assert!(enabled_transitions(&net, &net.tables.m0, &vec![0, 1]).is_empty());
    assert_eq!(total_marking(&net.tables.m0, &vec![2, 1]), vec![3, 1]);
}

#[test]
fn firing_moves_and_counts_tokens() {
    let mut net = PetriNetModel::new();
    net.set_counts(2, 1);
    net.tables.m0[0] = 3;
    net.tables.pre[0][0] = 2;
    net.tables.post[1][0] = 4;
    let mut state = state_for(&net);
    let mut touched = consume_inputs(&net, &mut state, 0);
    assert_eq!(touched, vec![0]);
    assert_eq!(state.available, vec![1, 0]);
    assert_eq!(state.out_tokens, vec![2, 0]);
    deliver_outputs(&net, &mut state, 0, 0, false, &mut touched);
    deliver_outputs(&net, &mut state, 0, 1, false, &mut touched);
    assert_eq!(touched, vec![0, 1]);
    assert_eq!(state.available, vec![1, 4]);
    assert_eq!(state.in_tokens, vec![0, 4]);
    assert_eq!(state.through_place_counter, vec![0, 4]);
    deliver_outputs(&net, &mut state, 0, 1, true, &mut touched);
    assert_eq!(state.available, vec![1, 4]);
    assert_eq!(state.through_place_counter, vec![0, 8]);
    assert_eq!(touched, vec![0, 1]);
}

#[test]
fn count_limits_stop_the_run() {
    assert!(count_limit_reached(true, 3, 3, None, &vec![0], 1));
    assert!(!count_limit_reached(false, 3, 3, None, &vec![0], 1));
    assert!(count_limit_reached(false, 0, 0, Some((0, 2)), &vec![2], 1));
    assert!(!count_limit_reached(false, 0, 0, Some((1, 2)), &vec![2, 5], 1));
}

#[test]
fn log_is_sampled_and_bounded() {
    let mut logs: Vec<u32> = Vec::new();
    let mut raw = 0usize;
    let mut stride = 1usize;
    for i in 0..200_000u32 {
        push_log_entry_sampled(&mut logs, i, &mut raw, &mut stride);
    }
    assert_eq!(raw, 200_000);
    assert!(raw > MAX_SIM_LOG_ENTRIES);
    assert!(logs.len() <= MAX_SIM_LOG_ENTRIES);
    assert!(stride >= 1);
    assert_eq!(logs[0], 0);
    assert!(logs.windows(2).all(|w| w[1] - w[0] == stride as u32));
}

#[test]
fn halving_keeps_even_positions() {
    let mut logs: Vec<u32> = (0..MAX_SIM_LOG_ENTRIES as u32).collect();
    let mut raw = MAX_SIM_LOG_ENTRIES;
    let mut stride = 1usize;
    push_log_entry_sampled(&mut logs, 99, &mut raw, &mut stride);
    assert_eq!(stride, 2);
    assert_eq!(logs.len(), (MAX_SIM_LOG_ENTRIES + 2) / 2);
    assert_eq!(logs[1], 2);
    assert_eq!(*logs.last().unwrap(), 99);
}

#[test]
fn newest_entries_are_kept() {
    let mut logs: Vec<usize> = (0..MAX_SIM_LOG_ENTRIES + 3).collect();
    keep_newest(&mut logs);
    assert_eq!(logs.len(), MAX_SIM_LOG_ENTRIES);
    assert_eq!(logs[0], 3);
    let mut short = vec![1, 2];
    keep_newest(&mut short);
    assert_eq!(short, vec![1, 2]);
}

#[test]
fn flow_counts_per_place() {
    let state = SimState {
        available: vec![0, 0],
        through_place_counter: vec![0, 0],
        in_tokens: vec![3, 4],
        out_tokens: vec![1, 0],
    };
    assert_eq!(
        place_flow(&state, 2),
        vec![PlaceFlowStats { in_tokens: 3, out_tokens: 1 }, PlaceFlowStats { in_tokens: 4, out_tokens: 0 }]
    );
    assert!(place_flow(&state, 0).is_empty());
}

#[test]
fn extremes_follow_the_observed_markings() {
    let mut min = vec![u32::MAX; 3];
    let mut max = vec![0u32; 3];
    observe_extremes(&mut min, &mut max, &vec![2, 0, 7]);
    observe_extremes(&mut min, &mut max, &vec![5, 1, 3]);
    assert_eq!(min, vec![2, 0, 3]);
    assert_eq!(max, vec![5, 1, 7]);
}

#[test]
fn capacity_refuses_only_raising_a_place_above_it() {
    let mut net = PetriNetModel::new();
    net.set_counts(2, 3);
    net.tables.m0[0] = 2;
    net.tables.m0[1] = 1;
    net.tables.pre[0][0] = 1;
    net.tables.post[0][0] = 1;
    net.tables.mpr[0] = 1;
    net.tables.pre[0][1] = 1;
    net.tables.pre[1][1] = 1;
    net.tables.post[0][1] = 1;
    net.tables.mpr[1] = 5;
    net.tables.pre[0][2] = 1;
    net.tables.post[0][2] = 2;
    net.tables.mpr[2] = 5;
    let pending = vec![0usize; 2];
    // place 0 holds 2 over its capacity 1: keeping it there is allowed,
    // raising it to 3 is not
    let enabled = enabled_transitions(&net, &net.tables.m0, &pending);
    assert_eq!(enabled, vec![0, 1]);
    assert_eq!(top_priority_transitions(&net, &enabled), vec![1]);
}

#[test]
fn firings_keep_capacities_and_token_balance() {
    let mut net = PetriNetModel::new();
    net.set_counts(2, 1);
    net.tables.m0[0] = 2;
    net.tables.mo[0] = None;
    net.tables.mo[1] = Some(1);
    net.tables.pre[0][0] = 1;
    net.tables.post[1][0] = 1;
    let m0 = net.tables.m0.clone();
    let mut state = state_for(&net);
    let pending = vec![0usize; 2];

    assert_eq!(enabled_transitions(&net, &state.available, &pending), vec![0]);
    let mut touched = consume_inputs(&net, &mut state, 0);
    deliver_outputs(&net, &mut state, 0, 1, false, &mut touched);
    let marking = total_marking(&state.available, &pending);
    assert_eq!(marking, vec![1, 1]);
    assert!(marking[1] <= 1);
    for p in 0..2 {
        assert_eq!(marking[p] as u64 + state.out_tokens[p], m0[p] as u64 + state.in_tokens[p]);
    }
    // a second firing would raise place 1 above its capacity
    assert!(enabled_transitions(&net, &state.available, &pending).is_empty());
}
