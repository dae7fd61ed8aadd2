use petri_net_legacy_editor::io::{
    gpn2_file_bytes, gpn2_payload, headerless_json_warning, is_gpn2_extension, migrate_format_version,
    prepare_gpn2_save, Gpn2Error,
};
use petri_net_legacy_editor::legacy::{
    decode_legacy_cp1251, detect_legacy_gpn, detect_legacy_layout, header_counts_from_prefix, encode_legacy_cp1251, encode_legacy_gpn, export_legacy_bytes,
    extract_ascii_strings,
    extract_utf16le_strings, import_legacy_gpn, legacy_arc_records, push_i32, read_i32, read_legacy_name,
    write_i32, write_legacy_name, map_color_to_legacy, map_legacy_color,
};
use petri_net_legacy_editor::model::{NodeColor, NodeRef, PetriNetModel};

#[test]
fn header_detection() {
    let bytes = b"NOPE{}";
    assert!(gpn2_payload(bytes).is_err());
    assert_eq!(gpn2_payload(bytes), Err(Gpn2Error::MissingHeader));
    assert!(detect_legacy_gpn(bytes));
}

#[test]
fn gpn2_framing_round_trip() {
    let file = gpn2_file_bytes("{\"a\":1}");
    assert_eq!(&file[..5], b"GPN2\n");
    assert!(!detect_legacy_gpn(&file));
    assert_eq!(gpn2_payload(&file), Ok(b"{\"a\":1}".to_vec()));
}

#[test]
fn format_version_migration() {
    assert_eq!(migrate_format_version(Some(2)), Ok(None));
    assert_eq!(migrate_format_version(Some(1)), Ok(Some(2)));
    assert_eq!(migrate_format_version(Some(7)), Err(Gpn2Error::UnsupportedVersion(7)));
    assert_eq!(migrate_format_version(Some((1u64 << 32) + 2)), Ok(None));
    assert_eq!(migrate_format_version(None), Err(Gpn2Error::MissingFormatVersion));
    assert_eq!(Gpn2Error::UnsupportedVersion(7).message(), "Неподдерживаемая версия формата: 7");
    assert_eq!(Gpn2Error::MissingHeader.message(), "Файл не содержит заголовок GPN2");
}

#[test]
fn save_preparation_sets_version_and_validates() {
    let mut net = PetriNetModel::new();
    net.set_counts(1, 1);
    net.format_version = 1;
    assert_eq!(prepare_gpn2_save(&mut net), Ok(()));
    assert_eq!(net.format_version, 2);
}

#[test]
fn gpn2_extension_in_any_case() {
    assert!(is_gpn2_extension("gpn2"));
    assert!(is_gpn2_extension("GpN2"));
    assert!(!is_gpn2_extension("gpn"));
    assert!(!is_gpn2_extension("gpn22"));
    assert_eq!(headerless_json_warning(), "Файл JSON открыт без заголовка GPN2");
}

#[test]
fn little_endian_fields_round_trip() {
    let mut bytes = vec![0u8; 8];
    write_i32(&mut bytes, 2, -5);
    assert_eq!(read_i32(&bytes, 2), Some(-5));
    assert_eq!(&bytes[2..6], &[0xFB, 0xFF, 0xFF, 0xFF]);
    assert_eq!(read_i32(&bytes, 5), None);
    write_i32(&mut bytes, 6, 1);
    assert_eq!(bytes.len(), 8);
    let mut v = Vec::new();
    push_i32(&mut v, 0x0102_0304);
    assert_eq!(v, vec![4, 3, 2, 1]);
}

#[test]
fn code_page_round_trip() {
    let text: Vec<char> = "Привет, Ёж ё!".chars().collect();
    let bytes = encode_legacy_cp1251(&text);
    assert_eq!(bytes[0], 0xCF);
    assert_eq!(decode_legacy_cp1251(&bytes), text);
    let unknown: Vec<char> = "€".chars().collect();
    assert_eq!(encode_legacy_cp1251(&unknown), vec![b'?']);
    assert_eq!(decode_legacy_cp1251(&[0x80]), vec!['\u{FFFD}']);
}

#[test]
fn record_names_round_trip() {
    let mut record = vec![0u8; 12];
    write_legacy_name(&mut record, 2, "  Склад  ");
    assert_eq!(record[2], 5);
    assert_eq!(read_legacy_name(&record, 0, 12, 2), "Склад");
    let mut small = vec![0u8; 6];
    write_legacy_name(&mut small, 2, "abcdef");
    assert_eq!(read_legacy_name(&small, 0, 6, 2), "abc");
    write_legacy_name(&mut small, 2, "   ");
    assert_eq!(small[2], 0);
    assert_eq!(read_legacy_name(&small, 0, 6, 2), "");
}

#[test]
fn legacy_colours_map_both_ways() {
    for c in [NodeColor::Default, NodeColor::Blue, NodeColor::Red, NodeColor::Green, NodeColor::Yellow] {
        assert_eq!(map_legacy_color(map_color_to_legacy(c)), c);
    }
}

#[test]
fn strings_are_extracted_with_offsets() {
    let bytes = b"\x00\x01abcd\x00xy\x00hello";
    let ascii = extract_ascii_strings(bytes, 4);
    assert_eq!(ascii, vec![(2, "abcd".to_string()), (10, "hello".to_string())]);
    let wide = [b'h', 0, b'i', 0, b'!', 0, 0, 0];
    assert_eq!(extract_utf16le_strings(&wide, 3), vec![(0, "hi!".to_string())]);
}

#[test]
fn empty_legacy_file_is_refused() {
    assert!(import_legacy_gpn(&[]).is_err());
}

#[test]
fn exported_net_imports_with_its_nodes() {
    let mut net = PetriNetModel::new();
    net.add_place([0.0f32.to_bits(), 0.0f32.to_bits()]);
    net.add_place([100.0f32.to_bits(), 0.0f32.to_bits()]);
    net.add_transition([50.0f32.to_bits(), 0.0f32.to_bits()]);
    net.tables.m0[0] = 3;
    let p1 = net.places[0].id;
    let p2 = net.places[1].id;
    let t1 = net.transitions[0].id;
    net.add_arc(NodeRef::Place(p1), NodeRef::Transition(t1), 1);
    net.add_arc(NodeRef::Transition(t1), NodeRef::Place(p2), 2);
    let records = legacy_arc_records(&net);
    assert_eq!(records.len(), 3);
    let points = vec![[0u16; 6]; records.len()];
    let bytes = encode_legacy_gpn(&net, &vec![(10, 20), (110, 20)], &vec![(60, 20)], &records, &points);
    assert!(detect_legacy_gpn(&bytes));
    assert_eq!(read_i32(&bytes, 0), Some(2));
    assert_eq!(read_i32(&bytes, 4), Some(1));
    let imported = import_legacy_gpn(&bytes).expect("legacy import");
    assert_eq!(imported.model.places.len(), 2);
    assert_eq!(imported.model.transitions.len(), 1);
    assert_eq!(imported.debug.file_size, bytes.len());
}

fn two_place_net() -> PetriNetModel {
    let mut net = PetriNetModel::new();
    net.add_place([0.0f32.to_bits(), 0.0f32.to_bits()]);
    net.add_place([100.0f32.to_bits(), 0.0f32.to_bits()]);
    net.add_transition([50.0f32.to_bits(), 0.0f32.to_bits()]);
    net.tables.m0[0] = 3;
    let p1 = net.places[0].id;
    let p2 = net.places[1].id;
    let t1 = net.transitions[0].id;
    net.add_arc(NodeRef::Place(p1), NodeRef::Transition(t1), 1);
    net.add_arc(NodeRef::Transition(t1), NodeRef::Place(p2), 2);
    net
}

#[test]
fn imported_legacy_nets_pass_validation() {
    let net = two_place_net();
    let records = legacy_arc_records(&net);
    let points = vec![[0u16; 6]; records.len()];
    let bytes = encode_legacy_gpn(&net, &vec![(10, 20), (110, 20)], &vec![(60, 20)], &records, &points);
    let imported = import_legacy_gpn(&bytes).expect("legacy import");
    assert_eq!(imported.model.format_version, 2);
    assert!(imported.model.validate().is_ok());

    let noise: Vec<u8> = (0..600u32).map(|i| (i * 37 % 251) as u8).collect();
    let guessed = import_legacy_gpn(&noise).expect("best-effort import");
    assert!(guessed.model.validate().is_ok());
}

#[test]
fn export_bytes_rebuild_the_tables_and_sort_the_records() {
    let mut stale = two_place_net();
    stale.tables.pre[0][0] = 9;
    stale.tables.post[1][0] = 0;
    let mut normalized = stale.clone();
    normalized.rebuild_matrices_from_arcs();
    assert_eq!(normalized.tables.pre[0][0], 1);
    let records = legacy_arc_records(&normalized);
    let points = vec![[1u16, 2, 3, 4, 5, 6]; records.len()];
    let expected = encode_legacy_gpn(&normalized, &vec![(10, 20), (110, 20)], &vec![(60, 20)], &records, &points);
    let bytes = export_legacy_bytes(stale.clone(), &vec![(10, 20), (110, 20)], &vec![(60, 20)], &points);
    assert_eq!(bytes, Some(expected));

    let too_few = vec![[0u16; 6]; records.len() - 1];
    assert_eq!(export_legacy_bytes(stale, &vec![(10, 20), (110, 20)], &vec![(60, 20)], &too_few), None);
}

#[test]
fn exported_file_reads_back_its_counts_and_layout() {
    let net = two_place_net();
    let records = legacy_arc_records(&net);
    let points = vec![[0u16; 6]; records.len()];
    let bytes = encode_legacy_gpn(&net, &vec![(10, 20), (110, 20)], &vec![(60, 20)], &records, &points);
    assert_eq!(header_counts_from_prefix(&bytes), Some((2, 1)));
    let layout = detect_legacy_layout(&bytes, 2, 1).expect("layout");
    assert_eq!(layout.places_offset, 16);
    assert_eq!(layout.transitions_offset, 16 + 2 * 231);
    assert_eq!(layout.arcs_offset, 16 + 2 * 231 + 105);
}
