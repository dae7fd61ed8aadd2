use petri_net_legacy_editor::dump::{find_ascii_pattern, hexdump_lines, parse_dump_args, parse_usize};
use petri_net_legacy_editor::settings::{
    sanitize_i32, sanitize_u32, sanitize_u64, sanitize_usize, NetstarExportValidationReport,
};

fn args(v: &[&str]) -> Vec<String> {
    v.iter().map(|s| s.to_string()).collect()
}

#[test]
fn pattern_offsets_are_all_found() {
    assert_eq!(find_ascii_pattern(b"abcabcab", b"ab"), vec![0, 3, 6]);
    assert_eq!(find_ascii_pattern(b"aaaa", b"aa"), vec![0, 1, 2]);
    assert_eq!(find_ascii_pattern(b"abc", b""), Vec::<usize>::new());
    assert_eq!(find_ascii_pattern(b"ab", b"abc"), Vec::<usize>::new());
}

#[test]
fn hexdump_has_sixteen_bytes_a_line() {
    let bytes: Vec<u8> = (0u8..20).collect();
    let lines = hexdump_lines(&bytes);
    assert_eq!(lines.len(), 2);
    assert_eq!(lines[0], "00000000  00 01 02 03 04 05 06 07 08 09 0A 0B 0C 0D 0E 0F ");
    assert_eq!(lines[1], "00000010  10 11 12 13 ");
    assert!(hexdump_lines(&[]).is_empty());
}

#[test]
fn numbers_parse_as_std_does() {
    assert_eq!(parse_usize("42"), Some(42));
    assert_eq!(parse_usize("+7"), Some(7));
    assert_eq!(parse_usize(""), None);
    assert_eq!(parse_usize("+"), None);
    assert_eq!(parse_usize("-1"), None);
    assert_eq!(parse_usize("1x"), None);
    assert_eq!(parse_usize("99999999999999999999999"), None);
    assert_eq!(parse_usize(&usize::MAX.to_string()), Some(usize::MAX));
}

#[test]
fn dump_command_line_is_read() {
    let o = parse_dump_args(&args(&["gpn_dump", "a.gpn", "--hexdump", "32", "--strings", "--search", "PN"]))
        .unwrap_or_else(|e| panic!("{}", e));
    assert_eq!(o.file, "a.gpn");
    assert_eq!(o.hexdump, Some(32));
    assert!(o.show_strings);
    assert!(!o.show_floats);
    assert_eq!(o.search, Some("PN".to_string()));
    assert!(parse_dump_args(&args(&["gpn_dump"])).err().unwrap().starts_with("Использование"));
    assert_eq!(parse_dump_args(&args(&["d", "f", "--hexdump"])).err(), Some("Для --hexdump нужно число байт".to_string()));
    assert_eq!(parse_dump_args(&args(&["d", "f", "--hexdump", "x"])).err(), Some("Некорректное значение --hexdump".to_string()));
    assert_eq!(parse_dump_args(&args(&["d", "f", "--search"])).err(), Some("Для --search нужна строка".to_string()));
    assert_eq!(parse_dump_args(&args(&["d", "f", "--what"])).err(), Some("Неизвестный флаг: --what".to_string()));
}

#[test]
fn settings_are_kept_within_bounds() {
    let mut v = 5u64;
    assert!(sanitize_u64(&mut v, 10, 20));
    assert_eq!(v, 10);
    let mut w = 25usize;
    assert!(sanitize_usize(&mut w, 10, 20));
    assert_eq!(w, 20);
    let mut x = 15u32;
    assert!(!sanitize_u32(&mut x, 10, 20));
    assert_eq!(x, 15);
    let mut y = -3i32;
    assert!(sanitize_i32(&mut y, 0, -1));
    assert_eq!(y, -1);
}

#[test]
fn export_report_counts() {
    let mut r = NetstarExportValidationReport::default();
    assert!(r.is_clean());
    r.warnings.push("w".to_string());
    assert_eq!(r.warning_count(), 1);
    assert_eq!(r.error_count(), 0);
    assert!(!r.is_clean());
}

use petri_net_legacy_editor::editor::{
    apply_arc_edit, ArcEdit,
    arc_place_transition_pair, assign_auto_name_for_place, assign_auto_name_for_transition, collect_selected_ids,
    debug_visible_log_indices, ensure_unique_place_name, markov_build_state_graph_row_offsets, markov_build_stationary_row_offsets,
    markov_nonzero_place_entry, markov_place_label, markov_row_group_index,
};
use petri_net_legacy_editor::markov::{build_markov_chain, net_sums_fit};
use petri_net_legacy_editor::model::{NodeColor, NodeRef, PetriNetModel};

#[test]
fn markov_table_rows_are_grouped_by_state() {
    let mut net = PetriNetModel::new();
    net.set_counts(3, 2);
    for p in 0..3 {
        net.tables.mo[p] = None;
    }
    net.tables.m0[0] = 1;
    net.tables.m0[2] = 4;
    net.tables.pre[0][0] = 1;
    net.tables.post[1][0] = 1;
    let chain = build_markov_chain(&net, None);
    assert_eq!(chain.states, vec![vec![1, 0, 4], vec![0, 1, 4]]);
    let offsets = markov_build_stationary_row_offsets(&chain);
    assert_eq!(offsets, vec![0, 2, 4]);
    assert_eq!(markov_build_state_graph_row_offsets(&chain), vec![0, 1, 2]);
    assert_eq!(markov_row_group_index(&offsets, 3), Some((1, 1)));
    assert_eq!(markov_row_group_index(&offsets, 0), Some((0, 0)));
    assert_eq!(markov_row_group_index(&offsets, 4), None);
    assert_eq!(markov_row_group_index(&[0, 0, 2], 1), Some((1, 1)));
    assert_eq!(markov_nonzero_place_entry(&chain.states[1], 1), Some((2, 4)));
    assert_eq!(markov_nonzero_place_entry(&chain.states[1], 2), None);
}

#[test]
fn place_labels_and_automatic_names() {
    let mut net = PetriNetModel::new();
    net.set_counts(2, 2);
    assert_eq!(markov_place_label(&net, 0), "P1");
    net.places[1].name = "  Queue ".to_string();
    assert_eq!(markov_place_label(&net, 1), "P2 (Queue)");
    assert_eq!(markov_place_label(&net, 5), "P6");
    net.places[0].id = 9;
    assign_auto_name_for_place(&mut net, 9);
    assert_eq!(net.places[0].name, "P2");
    net.transitions[1].id = 0;
    assign_auto_name_for_transition(&mut net, 0);
    assert_eq!(net.transitions[1].name, "T1");
    let before = net.places.len();
    assign_auto_name_for_place(&mut net, 77);
    assert_eq!(net.places.len(), before);
}

#[test]
fn selections_are_sorted_without_repeats() {
    assert_eq!(collect_selected_ids(&vec![5, 3, 5, 1], Some(3)), vec![1, 3, 5]);
    assert_eq!(collect_selected_ids(&vec![], Some(8)), vec![8]);
    assert!(collect_selected_ids(&vec![], None).is_empty());
    assert_eq!(arc_place_transition_pair(NodeRef::Place(1), NodeRef::Transition(2)), Some((1, 2)));
    assert_eq!(arc_place_transition_pair(NodeRef::Transition(2), NodeRef::Place(1)), None);
}

#[test]
fn visible_log_steps_skip_idle_ones() {
    let logs = vec![
        (None, vec![1, 0]),
        (None, vec![1, 0]),
        (Some(0), vec![0, 1]),
        (None, vec![0, 1]),
        (None, vec![0, 2]),
    ];
    assert_eq!(debug_visible_log_indices(&logs), vec![0, 2, 4]);
    assert!(debug_visible_log_indices(&vec![]).is_empty());
}

#[test]
fn weight_sums_fit_in_usize() {
    let mut net = PetriNetModel::new();
    net.set_counts(2, 2);
    net.tables.pre[0][0] = u32::MAX;
    assert!(net_sums_fit(&net));
}

#[test]
fn place_names_are_made_unique() {
    let mut net = PetriNetModel::new();
    net.set_counts(3, 0);
    net.places[0].name = "A".to_string();
    net.places[1].name = " A (2) ".to_string();
    let other = net.places[2].id;
    assert_eq!(ensure_unique_place_name(&net, " A ", other), "A (3)");
    assert_eq!(ensure_unique_place_name(&net, "A", net.places[0].id), "A");
    assert_eq!(ensure_unique_place_name(&net, "B", other), "B");
    assert_eq!(ensure_unique_place_name(&net, "   ", other), "");
}

fn edit(inhibitor: bool, weight: u32, threshold: u32) -> ArcEdit {
    ArcEdit { inhibitor, weight, threshold, color: NodeColor::Blue, show_weight: true }
}

#[test]
fn arc_edits_change_weights_and_kinds() {
    let mut net = PetriNetModel::new();
    net.set_counts(1, 1);
    let p = net.places[0].id;
    let t = net.transitions[0].id;
    net.add_arc(NodeRef::Place(p), NodeRef::Transition(t), 2);
    net.add_arc(NodeRef::Transition(t), NodeRef::Place(p), 1);
    let a = net.arcs[0].id;
    let back = net.arcs[1].id;

    assert!(apply_arc_edit(&mut net, a, edit(false, 5, 1)));
    assert_eq!(net.arcs[0].weight, 5);
    assert_eq!(net.arcs[0].color, NodeColor::Blue);
    assert!(net.arcs[0].show_weight);
    assert_eq!(net.tables.pre[0][0], 5);

    assert!(apply_arc_edit(&mut net, a, edit(true, 5, 0)));
    assert_eq!(net.arcs.len(), 1);
    assert_eq!(net.inhibitor_arcs.len(), 1);
    assert_eq!(net.inhibitor_arcs[0].id, a);
    assert_eq!(net.inhibitor_arcs[0].threshold, 1);
    assert_eq!(net.inhibitor_arcs[0].place_id, p);
    assert_eq!(net.tables.pre[0][0], 0);
    assert_eq!(net.tables.inhibitor[0][0], 1);

    assert!(apply_arc_edit(&mut net, a, edit(true, 1, 4)));
    assert_eq!(net.inhibitor_arcs[0].threshold, 4);
    assert_eq!(net.tables.inhibitor[0][0], 4);

    assert!(apply_arc_edit(&mut net, a, edit(false, 0, 4)));
    assert!(net.inhibitor_arcs.is_empty());
    assert_eq!(net.arcs.len(), 2);
    assert_eq!(net.arcs[1].id, a);
    assert_eq!(net.arcs[1].weight, 1);
    assert_eq!(net.arcs[1].from, NodeRef::Place(p));
    assert_eq!(net.tables.pre[0][0], 1);

    // an arc from a transition cannot become an inhibitor arc
    let before = net.arcs.clone();
    assert!(apply_arc_edit(&mut net, back, edit(true, 3, 3)));
    assert_eq!(net.arcs, before);
    assert!(net.inhibitor_arcs.is_empty());

    assert!(!apply_arc_edit(&mut net, 999, edit(false, 3, 3)));
    assert_eq!(net.arcs, before);
}
