use petri_net_legacy_editor::io::{check_loaded_model, Gpn2Error};
use petri_net_legacy_editor::model::{
    Arc, InhibitorArc, MatrixName, ModelError, NodeColor, NodeRef, PetriNetModel,
};

#[test]
fn sanitize_values_resets_invalid_inputs() {
    let mut net = PetriNetModel::new();
    net.set_counts(1, 1);
    net.tables.mz[0] = f64::NAN.to_bits();
    net.tables.mo[0] = Some(0);
    let place_id = net.places[0].id;
    let transition_id = net.transitions[0].id;
    net.arcs.push(Arc {
        id: 1,
        from: NodeRef::Place(place_id),
        to: NodeRef::Transition(transition_id),
        weight: 0,
        color: NodeColor::Default,
        visible: true,
        show_weight: false,
    });
    net.inhibitor_arcs.push(InhibitorArc {
        id: 2,
        place_id,
        transition_id,
        threshold: 0,
        color: NodeColor::Red,
        visible: true,
        show_weight: false,
    });

    net.sanitize_values();

    assert_eq!(f64::from_bits(net.tables.mz[0]), 0.0);
    assert_eq!(net.tables.mo[0], None);
    assert_eq!(net.arcs[0].weight, 1);
    assert_eq!(net.inhibitor_arcs[0].threshold, 1);
}

#[test]
fn sanitize_keeps_valid_values_and_resets_negative_delays() {
    let mut net = PetriNetModel::new();
    net.set_counts(2, 1);
    net.tables.mz[0] = 2.5f64.to_bits();
    net.tables.mz[1] = (-3.0f64).to_bits();
    net.tables.mo[0] = Some(4);
    net.sanitize_values();
    assert_eq!(f64::from_bits(net.tables.mz[0]), 2.5);
    assert_eq!(net.tables.mz[1], 0.0f64.to_bits());
    assert_eq!(net.tables.mo[0], Some(4));
    assert_eq!(net.tables.mo[1], Some(1));
}

#[test]
fn validation_failure_for_duplicate_ids() {
    let mut model = PetriNetModel::new();
    model.add_place([0.0f32.to_bits(), 0.0f32.to_bits()]);
    model.add_place([1.0f32.to_bits(), 1.0f32.to_bits()]);
    model.places[1].id = model.places[0].id;
    let dup = model.places[0].id;

    assert!(model.validate().is_err());
    assert_eq!(model.validate(), Err(ModelError::DuplicatePlaceId(dup)));
    assert_eq!(check_loaded_model(&model), Err(Gpn2Error::Invalid(ModelError::DuplicatePlaceId(dup))));
}

#[test]
fn new_net_is_valid_and_empty() {
    let net = PetriNetModel::new();
    assert!(net.places.is_empty());
    assert!(net.arcs.is_empty());
    assert_eq!(net.validate(), Ok(()));
}

#[test]
fn set_counts_numbers_and_names_nodes() {
    let mut net = PetriNetModel::new();
    net.set_counts(3, 2);
    let ids: Vec<u64> = net.places.iter().map(|p| p.id).collect();
    assert_eq!(ids, vec![1, 2, 3]);
    assert_eq!(net.places[2].name, "P3");
    assert_eq!(net.transitions[1].name, "T2");
    assert_eq!(net.tables.m0, vec![0, 0, 0]);
    assert_eq!(net.tables.mo, vec![Some(1), Some(1), Some(1)]);
    assert_eq!(net.tables.mpr, vec![0, 0]);
    assert_eq!(net.tables.pre, vec![vec![0, 0]; 3]);
    net.set_counts(1, 1);
    assert_eq!(net.places.len(), 1);
    assert_eq!(net.tables.pre, vec![vec![0]]);
}

#[test]
fn arcs_and_matrices_follow_each_other() {
    let mut net = PetriNetModel::new();
    net.add_place([0.0f32.to_bits(), 0.0f32.to_bits()]);
    net.add_transition([3.0f32.to_bits(), 4.0f32.to_bits()]);
    let p = net.places[0].id;
    let t = net.transitions[0].id;
    net.add_arc(NodeRef::Place(p), NodeRef::Transition(t), 2);
    net.add_arc(NodeRef::Transition(t), NodeRef::Place(p), 0);
    net.add_inhibitor_arc(p, t, 0);
    assert_eq!(net.tables.pre, vec![vec![2]]);
    assert_eq!(net.tables.post, vec![vec![1]]);
    assert_eq!(net.tables.inhibitor, vec![vec![1]]);
    let ids: Vec<u64> = net.arcs.iter().map(|a| a.id).collect();
    assert_eq!(ids, vec![1, 2]);
    assert_eq!(net.inhibitor_arcs[0].id, 3);

    // an arc between two places changes nothing
    net.add_arc(NodeRef::Place(p), NodeRef::Place(p), 5);
    assert_eq!(net.arcs.len(), 2);
    assert_eq!(net.validate(), Ok(()));
}

#[test]
fn rebuilt_arcs_reproduce_the_tables() {
    let mut net = PetriNetModel::new();
    net.set_counts(2, 2);
    net.tables.pre[0][0] = 3;
    net.tables.post[1][0] = 1;
    net.tables.pre[1][1] = 2;
    net.tables.inhibitor[0][1] = 4;
    net.rebuild_arcs_from_matrices();
    assert_eq!(net.arcs.len(), 3);
    assert_eq!(net.inhibitor_arcs.len(), 1);
    let ids: Vec<u64> = net.arcs.iter().map(|a| a.id).collect();
    assert_eq!(ids, vec![1, 3, 4]);
    assert_eq!(net.inhibitor_arcs[0].id, 2);
    let before = net.tables.clone();
    net.rebuild_matrices_from_arcs();
    assert_eq!(net.tables.pre, before.pre);
    assert_eq!(net.tables.post, before.post);
    assert_eq!(net.tables.inhibitor, before.inhibitor);
}

#[test]
fn normalize_arc_ids_numbers_all_arcs() {
    let mut net = PetriNetModel::new();
    net.set_counts(1, 1);
    let p = net.places[0].id;
    let t = net.transitions[0].id;
    for id in [7u64, 7, 9] {
        net.arcs.push(Arc {
            id,
            from: NodeRef::Place(p),
            to: NodeRef::Transition(t),
            weight: 1,
            color: NodeColor::Default,
            visible: true,
            show_weight: false,
        });
    }
    net.inhibitor_arcs.push(InhibitorArc {
        id: 7,
        place_id: p,
        transition_id: t,
        threshold: 1,
        color: NodeColor::Red,
        visible: true,
        show_weight: false,
    });
    net.normalize_arc_ids();
    let ids: Vec<u64> = net.arcs.iter().map(|a| a.id).collect();
    assert_eq!(ids, vec![1, 2, 3]);
    assert_eq!(net.inhibitor_arcs[0].id, 4);
}

#[test]
fn validate_reports_the_first_problem() {
    let mut net = PetriNetModel::new();
    net.set_counts(1, 1);
    net.tables.mz[0] = f64::INFINITY.to_bits();
    assert_eq!(net.validate(), Err(ModelError::InvalidDelay(0)));
    net.tables.mz[0] = 0;
    net.tables.m0.push(0);
    assert_eq!(net.validate(), Err(ModelError::TableSizeMismatch));
    net.tables.m0.pop();
    net.format_version = 1;
    assert_eq!(net.validate(), Err(ModelError::UnsupportedFormatVersion(1)));
}

fn small_net() -> PetriNetModel {
    let mut net = PetriNetModel::new();
    net.set_counts(1, 1);
    net
}

fn arc(id: u64, from: NodeRef, to: NodeRef, weight: u32) -> Arc {
    Arc { id, from, to, weight, color: NodeColor::Default, visible: true, show_weight: false }
}

#[test]
fn every_validation_error_has_its_input() {
    let mut net = small_net();
    net.places[0].pos[0] = f32::NAN.to_bits();
    assert_eq!(net.validate(), Err(ModelError::InvalidPlacePosition(1)));

    let mut net = PetriNetModel::new();
    net.set_counts(1, 2);
    net.transitions[1].id = net.transitions[0].id;
    assert_eq!(net.validate(), Err(ModelError::DuplicateTransitionId(1)));

    let mut net = small_net();
    net.transitions[0].pos[1] = f32::INFINITY.to_bits();
    assert_eq!(net.validate(), Err(ModelError::InvalidTransitionPosition(1)));

    let mut net = small_net();
    net.tables.post.push(vec![0]);
    assert_eq!(
        net.validate(),
        Err(ModelError::MatrixRowCount { matrix: MatrixName::Post, rows: 2, expected: 1 })
    );
    assert_eq!(
        ModelError::MatrixRowCount { matrix: MatrixName::Post, rows: 2, expected: 1 }.message(),
        "Матрица post имеет некорректное число строк: 2 вместо 1"
    );

    let mut net = small_net();
    net.tables.inhibitor[0].push(0);
    assert_eq!(net.validate(), Err(ModelError::MatrixColumnCount(MatrixName::Inhibitor)));

    let mut net = small_net();
    net.arcs.push(arc(5, NodeRef::Place(1), NodeRef::Transition(1), 0));
    assert_eq!(net.validate(), Err(ModelError::ZeroArcWeight(5)));
    assert_eq!(ModelError::ZeroArcWeight(5).message(), "Вес дуги 5 должен быть > 0");

    let mut net = small_net();
    net.arcs.push(arc(6, NodeRef::Place(1), NodeRef::Transition(9), 1));
    assert_eq!(net.validate(), Err(ModelError::DanglingArc(6)));

    let mut net = small_net();
    net.arcs.push(arc(7, NodeRef::Place(1), NodeRef::Place(1), 1));
    assert_eq!(net.validate(), Err(ModelError::NonBipartiteArc(7)));

    let mut net = small_net();
    net.inhibitor_arcs.push(InhibitorArc {
        id: 8,
        place_id: 1,
        transition_id: 1,
        threshold: 0,
        color: NodeColor::Red,
        visible: true,
        show_weight: false,
    });
    assert_eq!(net.validate(), Err(ModelError::ZeroInhibitorThreshold(8)));
    net.inhibitor_arcs[0].threshold = 1;
    net.inhibitor_arcs[0].place_id = 4;
    assert_eq!(net.validate(), Err(ModelError::DanglingInhibitorArc(8)));
    assert_eq!(
        ModelError::DuplicatePlaceId(3).message(),
        "Дублирующийся id места: 3"
    );
}

#[test]
fn set_counts_keeps_ids_a_permutation() {
    let mut net = PetriNetModel::new();
    net.set_counts(3, 2);
    net.places[0].id = 3;
    net.places[2].id = 1;
    net.set_counts(5, 4);
    let pids: Vec<u64> = net.places.iter().map(|p| p.id).collect();
    let tids: Vec<u64> = net.transitions.iter().map(|t| t.id).collect();
    assert_eq!(pids, vec![3, 2, 1, 4, 5]);
    assert_eq!(tids, vec![1, 2, 3, 4]);
    assert!(net.validate().is_ok());

    net.set_counts(2, 1);
    let pids: Vec<u64> = net.places.iter().map(|p| p.id).collect();
    let tids: Vec<u64> = net.transitions.iter().map(|t| t.id).collect();
    assert_eq!(pids, vec![3, 2]);
    assert_eq!(tids, vec![1]);
    assert!(net.validate().is_ok());
}
