//! The legacy NetStar binary `.gpn` format: little-endian fields, fixed-size
//! place, transition and arc records, and names in the single-byte Cyrillic
//! code page.
use crate::model::{
    is_new_model, place_slot_ok, transition_slot_ok,
    arc_is_linked, arc_link, at_least_one, inhibitor_is_linked, is_last_index_map, last_index,
    last_index_map, lemma_last_index, place_id_vec, rebuilt_with, resized, sat_u64,
    transition_id_vec, Arc, InhibitorArc, NodeColor, NodeRef, PetriNetModel, Place, Transition,
    VisualSize,
};
use crate::ieee::{f32_bits_of_int, f32_denotes_int, lemma_f32_round_small};
use crate::text::{decimal, hex, hex_padded, is_auto_name_spec, push_decimal, push_hex_padded, push_str};
use std::collections::HashMap;
use crate::text::trimmed;
use vstd::prelude::*;

verus! {

/// Bytes of one place record.
pub const PLACE_RECORD_SIZE: usize = 231;

/// Offset of the binary64 delay inside a place record.
pub const PLACE_DELAY_OFFSET: usize = 77;

/// Offset of the length-prefixed name inside a place record.
pub const PLACE_NAME_OFFSET: usize = 26;

/// Bytes of one transition record.
pub const TRANSITION_RECORD_SIZE: usize = 105;

/// Offset of the length-prefixed name inside a transition record.
pub const TRANSITION_NAME_OFFSET: usize = 54;

/// Bytes of the header that precedes the arc records.
pub const ARC_SECTION_HEADER_SIZE: usize = 6;

/// Bytes of one arc record.
pub const ARC_RECORD_SIZE: usize = 46;

/// The unsigned value of the four little-endian bytes at `off`.
pub open spec fn le_u32(b: Seq<u8>, off: int) -> u32 {
    (b[off] + b[off + 1] * 0x100 + b[off + 2] * 0x1_0000 + b[off + 3] * 0x100_0000) as u32
}

/// The two's-complement value of the four little-endian bytes at `off`.
pub open spec fn le_i32(b: Seq<u8>, off: int) -> i32 {
    le_u32(b, off) as i32
}

/// The eight little-endian bytes at `off`, as one 64-bit pattern.
pub open spec fn le_u64(b: Seq<u8>, off: int) -> u64 {
    (le_u32(b, off) + le_u32(b, off + 4) * 0x1_0000_0000) as u64
}

/// The `i32` at `off`, when four bytes are there.
pub open spec fn i32_at(b: Seq<u8>, off: int) -> Option<i32> {
    if 0 <= off && off + 4 <= b.len() {
        Some(le_i32(b, off))
    } else {
        None
    }
}

/// The `u32` at `off`, when four bytes are there.
pub open spec fn u32_at(b: Seq<u8>, off: int) -> Option<u32> {
    if 0 <= off && off + 4 <= b.len() {
        Some(le_u32(b, off))
    } else {
        None
    }
}

/// The 64-bit pattern at `off`, when eight bytes are there.
pub open spec fn u64_at(b: Seq<u8>, off: int) -> Option<u64> {
    if 0 <= off && off + 8 <= b.len() {
        Some(le_u64(b, off))
    } else {
        None
    }
}

/// Reads the little-endian unsigned 32-bit value at `offset`.
pub fn read_u32(bytes: &[u8], offset: usize) -> (r: Option<u32>)
    ensures
        r == u32_at(bytes@, offset as int),
{
    if offset > bytes.len() || bytes.len() - offset < 4 {
        return None;
    }
    let v: u32 = bytes[offset] as u32 + bytes[offset + 1] as u32 * 0x100 + bytes[offset + 2] as u32
        * 0x1_0000 + bytes[offset + 3] as u32 * 0x100_0000;
    Some(v)
}

/// Reads the little-endian signed 32-bit value at `offset`.
pub fn read_i32(bytes: &[u8], offset: usize) -> (r: Option<i32>)
    ensures
        r == i32_at(bytes@, offset as int),
{
    match read_u32(bytes, offset) {
        Some(v) => Some(v as i32),
        None => None,
    }
}

/// Reads the little-endian binary64 pattern at `offset`.
pub fn read_f64(bytes: &[u8], offset: usize) -> (r: Option<u64>)
    ensures
        r == u64_at(bytes@, offset as int),
{
    if offset > bytes.len() || bytes.len() - offset < 8 {
        return None;
    }
    let lo = read_u32(bytes, offset).unwrap();
    let hi = read_u32(bytes, offset + 4).unwrap();
    Some(lo as u64 + hi as u64 * 0x1_0000_0000)
}

/// The four little-endian bytes of a 32-bit pattern.
pub open spec fn le_bytes_u32(v: u32) -> Seq<u8> {
    seq![
        (v % 0x100) as u8,
        ((v / 0x100) % 0x100) as u8,
        ((v / 0x1_0000) % 0x100) as u8,
        ((v / 0x100_0000) % 0x100) as u8,
    ]
}

/// The eight little-endian bytes of a 64-bit pattern.
pub open spec fn le_bytes_u64(v: u64) -> Seq<u8> {
    le_bytes_u32((v % 0x1_0000_0000) as u32) + le_bytes_u32((v / 0x1_0000_0000) as u32)
}

/// The two little-endian bytes of a 16-bit value.
pub open spec fn le_bytes_u16(v: u16) -> Seq<u8> {
    seq![(v % 0x100) as u8, (v / 0x100) as u8]
}

/// `s` with the bytes from `off` on replaced by `part`.
pub open spec fn overwrite(s: Seq<u8>, off: int, part: Seq<u8>) -> Seq<u8> {
    s.take(off) + part + s.skip(off + part.len())
}

fn le_bytes_of_u32(v: u32) -> (r: Vec<u8>)
    ensures
        r@ == le_bytes_u32(v),
{
    let mut r: Vec<u8> = Vec::new();
    r.push((v % 0x100) as u8);
    r.push(((v / 0x100) % 0x100) as u8);
    r.push(((v / 0x1_0000) % 0x100) as u8);
    r.push(((v / 0x100_0000) % 0x100) as u8);
    proof {
        assert(r@ == le_bytes_u32(v));
    }
    r
}

fn overwrite_with(target: &mut Vec<u8>, offset: usize, part: &Vec<u8>)
    requires
        offset + part@.len() <= old(target)@.len(),
    ensures
        final(target)@.len() == old(target)@.len(),
        final(target)@ == overwrite(old(target)@, offset as int, part@),
{
    let ghost start = target@;
    let n = target.len();
    let mut i: usize = 0;
    while i < part.len()
        invariant
            i <= part@.len(),
            n == start.len(),
            offset + part@.len() <= start.len(),
            target@.len() == start.len(),
            forall|k: int| 0 <= k < offset ==> #[trigger] target@[k] == start[k],
            forall|k: int| 0 <= k < i ==> #[trigger] target@[offset + k] == part@[k],
            forall|k: int| offset + i <= k < start.len() ==> #[trigger] target@[k] == start[k],
        decreases part@.len() - i,
    {
        target.set(offset + i, part[i]);
        i = i + 1;
    }
    proof {
        let expect = overwrite(start, offset as int, part@);
        assert forall|k: int| 0 <= k < start.len() implies #[trigger] target@[k] == expect[k] by {
            if k >= offset && k < offset + part@.len() {
                assert(target@[offset + (k - offset)] == part@[k - offset]);
            }
        }
        assert(target@ =~= expect);
    }
}

/// Writes `value` little-endian at `offset`, when four bytes fit there.
pub fn write_i32(target: &mut Vec<u8>, offset: usize, value: i32)
    ensures
        final(target)@.len() == old(target)@.len(),
        offset + 4 <= old(target)@.len() ==> final(target)@ == overwrite(
            old(target)@,
            offset as int,
            le_bytes_u32(value as u32),
        ),
        offset + 4 > old(target)@.len() ==> final(target)@ == old(target)@,
{
    if offset <= target.len() && target.len() - offset >= 4 {
        let part = le_bytes_of_u32(value as u32);
        overwrite_with(target, offset, &part);
    }
}

/// Writes `value` little-endian at `offset`, when two bytes fit there.
pub fn write_u16(target: &mut Vec<u8>, offset: usize, value: u16)
    ensures
        final(target)@.len() == old(target)@.len(),
        offset + 2 <= old(target)@.len() ==> final(target)@ == overwrite(
            old(target)@,
            offset as int,
            le_bytes_u16(value),
        ),
        offset + 2 > old(target)@.len() ==> final(target)@ == old(target)@,
{
    if offset <= target.len() && target.len() - offset >= 2 {
        let mut part: Vec<u8> = Vec::new();
        part.push((value % 0x100) as u8);
        part.push((value / 0x100) as u8);
        proof {
            assert(part@ == le_bytes_u16(value));
        }
        overwrite_with(target, offset, &part);
    }
}

/// Writes a binary64 pattern little-endian at `offset`, when eight bytes fit there.
pub fn write_f64(target: &mut Vec<u8>, offset: usize, value: u64)
    ensures
        final(target)@.len() == old(target)@.len(),
        offset + 8 <= old(target)@.len() ==> final(target)@ == overwrite(
            old(target)@,
            offset as int,
            le_bytes_u64(value),
        ),
        offset + 8 > old(target)@.len() ==> final(target)@ == old(target)@,
{
    if offset <= target.len() && target.len() - offset >= 8 {
        let mut part = le_bytes_of_u32((value % 0x1_0000_0000) as u32);
        let mut hi = le_bytes_of_u32((value / 0x1_0000_0000) as u32);
        part.append(&mut hi);
        overwrite_with(target, offset, &part);
    }
}

/// Appends `value` little-endian.
pub fn push_i32(target: &mut Vec<u8>, value: i32)
    ensures
        final(target)@ == old(target)@ + le_bytes_u32(value as u32),
{
    let mut part = le_bytes_of_u32(value as u32);
    target.append(&mut part);
}

/// The four little-endian bytes of a value read back give the value.
pub proof fn lemma_le_u32_roundtrip(v: u32)
    ensures
        le_u32(le_bytes_u32(v), 0) == v,
{
    let b = le_bytes_u32(v);
    let b0 = (v % 0x100) as u8;
    let b1 = ((v / 0x100) % 0x100) as u8;
    let b2 = ((v / 0x1_0000) % 0x100) as u8;
    let b3 = ((v / 0x100_0000) % 0x100) as u8;
    assert(b[0] == b0 && b[1] == b1 && b[2] == b2 && b[3] == b3);
    assert(b0 + b1 * 0x100 + b2 * 0x1_0000 + b3 * 0x100_0000 == v) by (nonlinear_arith)
        requires
            b0 == v % 0x100,
            b1 == (v / 0x100) % 0x100,
            b2 == (v / 0x1_0000) % 0x100,
            b3 == (v / 0x100_0000) % 0x100,
            v < 0x1_0000_0000,
    ;
}

/// Reading the `i32` written at an offset where four bytes fit gives back
/// the value written.
pub proof fn lemma_i32_write_read(target: Seq<u8>, offset: int, value: i32)
    requires
        0 <= offset,
        offset + 4 <= target.len(),
    ensures
        i32_at(overwrite(target, offset, le_bytes_u32(value as u32)), offset) == Some(value),
{
    let w = overwrite(target, offset, le_bytes_u32(value as u32));
    let part = le_bytes_u32(value as u32);
    assert(w.len() == target.len());
    assert forall|k: int| 0 <= k < 4 implies w[offset + k] == part[k] by {
        assert(w[offset + k] == (target.take(offset) + part)[offset + k]);
    }
    lemma_le_u32_roundtrip(value as u32);
    assert(le_u32(w, offset) == le_u32(part, 0));
    assert(((value as u32) as i32) == value) by (bit_vector);
}

/// The characters the legacy code page can hold: ASCII, `Ё`, `ё` and the
/// basic Cyrillic letters `А`..`я`.
pub open spec fn in_code_page(c: char) -> bool {
    let v = c as u32;
    v <= 0x7F || v == 0x0401 || v == 0x0451 || (0x0410 <= v <= 0x044F)
}

/// The bytes that stand for a character of the code page.
pub open spec fn mapped_byte(b: u8) -> bool {
    b <= 0x7F || b == 0xA8 || b == 0xB8 || b >= 0xC0
}

/// Encoding text of code-page characters and decoding it gives the text
/// back, and decoding bytes that stand for characters and encoding the
/// result gives the bytes back.
pub proof fn lemma_cp1251_roundtrip(s: Seq<char>, raw: Seq<u8>)
    requires
        forall|i: int| 0 <= i < s.len() ==> in_code_page(#[trigger] s[i]),
        forall|i: int| 0 <= i < raw.len() ==> mapped_byte(#[trigger] raw[i]),
    ensures
        s.map_values(|c: char| cp1251_byte(c)).map_values(|b: u8| cp1251_char(b)) == s,
        raw.map_values(|b: u8| cp1251_char(b)).map_values(|c: char| cp1251_byte(c)) == raw,
{
    let enc = s.map_values(|c: char| cp1251_byte(c));
    assert forall|i: int| 0 <= i < s.len() implies cp1251_char(#[trigger] enc[i]) == s[i] by {
        let c = s[i];
        let v = c as u32;
        assert(in_code_page(c));
        if v <= 0x7F {
            assert(cp1251_byte(c) == v as u8);
            assert((v as u8) as char == c) by {
                vstd::utf8::char_u32_cast(c, v);
            }
        } else if v == 0x0401 || v == 0x0451 {
            assert(c == (v as char)) by {
                vstd::utf8::char_u32_cast(c, v);
            }
        } else {
            let b = (0xC0 + (v - 0x0410)) as u8;
            assert(cp1251_byte(c) == b);
            assert(b >= 0xC0);
            assert(0x0410 + (b - 0xC0) == v);
            assert(((0x0410 + (b - 0xC0)) as char) == c) by {
                vstd::utf8::char_u32_cast(c, v);
            }
        }
    }
    assert(enc.map_values(|b: u8| cp1251_char(b)) =~= s);
    let dec = raw.map_values(|b: u8| cp1251_char(b));
    assert forall|i: int| 0 <= i < raw.len() implies cp1251_byte(#[trigger] dec[i]) == raw[i] by {
        let b = raw[i];
        assert(mapped_byte(b));
        if b <= 0x7F {
            assert((b as char) as u32 == b);
        } else if b >= 0xC0 {
            let c = (0x0410 + (b - 0xC0)) as char;
            assert(c as u32 == 0x0410 + (b - 0xC0));
        }
    }
    assert(dec.map_values(|c: char| cp1251_byte(c)) =~= raw);
}

proof fn lemma_trim_in_page(s: Seq<char>, ctrl: bool)
    requires
        forall|i: int| 0 <= i < s.len() ==> in_code_page(#[trigger] s[i]),
    ensures
        forall|i: int| 0 <= i < trimmed(s, ctrl).len() ==> in_code_page(#[trigger] trimmed(s, ctrl)[i]),
{
    lemma_trim_front_in_page(s, ctrl);
    lemma_trim_back_in_page(crate::text::trim_front(s, ctrl), ctrl);
}

proof fn lemma_trim_front_in_page(s: Seq<char>, ctrl: bool)
    requires
        forall|i: int| 0 <= i < s.len() ==> in_code_page(#[trigger] s[i]),
    ensures
        forall|i: int| 0 <= i < crate::text::trim_front(s, ctrl).len() ==> in_code_page(
            #[trigger] crate::text::trim_front(s, ctrl)[i],
        ),
    decreases s.len(),
{
    if s.len() > 0 && crate::text::strippable(s[0], ctrl) {
        assert forall|i: int| 0 <= i < s.drop_first().len() implies in_code_page(#[trigger] s.drop_first()[i]) by {
            assert(s.drop_first()[i] == s[i + 1]);
        }
        lemma_trim_front_in_page(s.drop_first(), ctrl);
        assert(crate::text::trim_front(s, ctrl) == crate::text::trim_front(s.drop_first(), ctrl));
    } else {
        assert(crate::text::trim_front(s, ctrl) == s);
    }
}

proof fn lemma_trim_back_in_page(s: Seq<char>, ctrl: bool)
    requires
        forall|i: int| 0 <= i < s.len() ==> in_code_page(#[trigger] s[i]),
    ensures
        forall|i: int| 0 <= i < crate::text::trim_back(s, ctrl).len() ==> in_code_page(
            #[trigger] crate::text::trim_back(s, ctrl)[i],
        ),
    decreases s.len(),
{
    if s.len() > 0 && crate::text::strippable(s.last(), ctrl) {
        assert forall|i: int| 0 <= i < s.drop_last().len() implies in_code_page(#[trigger] s.drop_last()[i]) by {
            assert(s.drop_last()[i] == s[i]);
        }
        lemma_trim_back_in_page(s.drop_last(), ctrl);
        assert(crate::text::trim_back(s, ctrl) == crate::text::trim_back(s.drop_last(), ctrl));
    } else {
        assert(crate::text::trim_back(s, ctrl) == s);
    }
}

/// How many characters of a trimmed name of `len` characters a record of
/// `record_len` bytes stores at `field_offset`: what fits after the length
/// byte, and at most 255.
pub open spec fn stored_name_len(record_len: int, field_offset: int, len: int) -> int {
    let room = record_len - (field_offset + 1);
    if len < room {
        if len < 255 {
            len
        } else {
            255
        }
    } else {
        if room < 255 {
            room
        } else {
            255
        }
    }
}

/// Reading back a name stored in a record gives the stored characters:
/// the name trimmed of white space and cut to what fits (at most 255),
/// then trimmed of control characters too.
pub proof fn lemma_legacy_name_roundtrip(record: Seq<u8>, field_offset: int, value: Seq<char>)
    requires
        0 <= field_offset,
        field_offset + 1 < record.len(),
        record.len() <= usize::MAX,
        forall|i: int| 0 <= i < value.len() ==> in_code_page(#[trigger] value[i]),
    ensures
        legacy_name_field(record.len() as int, field_offset, value) is Some,
        legacy_name(
            overwrite(record, field_offset, legacy_name_field(record.len() as int, field_offset, value)->Some_0),
            0,
            record.len() as int,
            field_offset,
        ) == trimmed(
            trimmed(value, false).take(
                stored_name_len(record.len() as int, field_offset, trimmed(value, false).len() as int),
            ),
            true,
        ),
{
    let len = record.len() as int;
    let t = trimmed(value, false);
    lemma_trim_in_page(value, false);
    let f = legacy_name_field(len, field_offset, value)->Some_0;
    let b = overwrite(record, field_offset, f);
    let n = stored_name_len(len, field_offset, t.len() as int);
    if t.len() == 0 {
        assert(f == seq![0u8]);
        assert(b[field_offset] == (record.take(field_offset) + f)[field_offset]);
        assert(b[field_offset] == 0);
        assert(t.take(n) =~= Seq::<char>::empty());
        assert(trimmed(Seq::<char>::empty(), true) =~= Seq::<char>::empty());
    } else {
        let enc = t.map_values(|c: char| cp1251_byte(c));
        assert(f == seq![n as u8] + enc.take(n));
        assert(1 <= n <= 255);
        assert(b.len() == len);
        assert(b[field_offset] == n as u8) by {
            assert(b[field_offset] == (record.take(field_offset) + f)[field_offset]);
        }
        assert(b.subrange(field_offset + 1, field_offset + 1 + n) =~= enc.take(n)) by {
            assert forall|k: int| 0 <= k < n implies b[field_offset + 1 + k] == enc[k] by {
                assert(b[field_offset + 1 + k] == (record.take(field_offset) + f)[field_offset + 1 + k]);
            }
        }
        lemma_cp1251_roundtrip(t, Seq::<u8>::empty());
        assert(enc.take(n).map_values(|c: u8| cp1251_char(c)) =~= t.take(n)) by {
            assert forall|k: int| 0 <= k < n implies cp1251_char(enc[k]) == t[k] by {
                assert(enc.map_values(|c: u8| cp1251_char(c))[k] == t[k]);
            }
        }
    }
}

/// The node colour that a legacy colour value stands for.
pub open spec fn legacy_color(raw: i32) -> NodeColor {
    let v = raw as u32;
    if v == 0x0000_00FF {
        NodeColor::Blue
    } else if v == 0x0000_FF00 {
        NodeColor::Green
    } else if v == 0x00FF_0000 {
        NodeColor::Red
    } else if v == 0x00FF_FF00 || v == 0x00FF_0100 {
        NodeColor::Yellow
    } else {
        NodeColor::Default
    }
}

/// The node colour of a legacy colour value.
pub fn map_legacy_color(raw: i32) -> (c: NodeColor)
    ensures
        c == legacy_color(raw),
{
    let value = raw as u32;
    if value == 0x0000_00FF {
        NodeColor::Blue
    } else if value == 0x0000_FF00 {
        NodeColor::Green
    } else if value == 0x00FF_0000 {
        NodeColor::Red
    } else if value == 0x00FF_FF00 || value == 0x00FF_0100 {
        NodeColor::Yellow
    } else {
        NodeColor::Default
    }
}

/// The legacy colour value written for a node colour.
pub open spec fn legacy_color_value(color: NodeColor) -> i32 {
    match color {
        NodeColor::Blue => 0x0000_00FF,
        NodeColor::Green => 0x0000_FF00,
        NodeColor::Red => 0x00FF_0000,
        NodeColor::Yellow => 0x00FF_0100,
        NodeColor::Default => 0,
    }
}

/// The legacy colour value of a node colour.
pub fn map_color_to_legacy(color: NodeColor) -> (v: i32)
    ensures
        v == legacy_color_value(color),
{
    match color {
        NodeColor::Blue => 0x0000_00FF,
        NodeColor::Green => 0x0000_FF00,
        NodeColor::Red => 0x00FF_0000,
        NodeColor::Yellow => 0x00FF_0100,
        NodeColor::Default => 0,
    }
}

/// The fixed trailer that ends every exported file.
pub open spec fn footer_bytes() -> Seq<u8> {
    seq![
        0x58u8, 0x81, 0x40, 0x00, 0x00, 0x00, 0x00, 0x00,
        0x00, 0x00, 0x00, 0x00, 0x00, 0x00, 0x00, 0x00,
        0x00, 0x12, 0x00, 0x00, 0x00, 0x01, 0x00, 0x00,
        0x00, 0x00, 0x00, 0x00, 0x00, 0x00, 0x00, 0x00,
        0x00, 0x00, 0x00, 0x00, 0x28, 0x63, 0x29, 0x20,
        0x4D, 0x69, 0x6B, 0x68, 0x61, 0x79, 0x6C, 0x69,
        0x73, 0x68, 0x69, 0x6E,
    ]
}

/// The fixed trailer of an exported file.
pub fn legacy_footer_template() -> (v: Vec<u8>)
    ensures
        v@ == footer_bytes(),
{
    let v: Vec<u8> = vec![
        0x58, 0x81, 0x40, 0x00, 0x00, 0x00, 0x00, 0x00,
        0x00, 0x00, 0x00, 0x00, 0x00, 0x00, 0x00, 0x00,
        0x00, 0x12, 0x00, 0x00, 0x00, 0x01, 0x00, 0x00,
        0x00, 0x00, 0x00, 0x00, 0x00, 0x00, 0x00, 0x00,
        0x00, 0x00, 0x00, 0x00, 0x28, 0x63, 0x29, 0x20,
        0x4D, 0x69, 0x6B, 0x68, 0x61, 0x79, 0x6C, 0x69,
        0x73, 0x68, 0x69, 0x6E,
    ];
    proof {
        assert(v@ =~= footer_bytes());
    }
    v
}

/// `v` is the code of a Unicode scalar value.
pub open spec fn is_scalar_value(v: u32) -> bool {
    v <= 0xD7FF || (0xE000 <= v <= 0x10_FFFF)
}

/// The character with code `v` (std's `char::from_u32`): `Some` exactly for
/// the Unicode scalar values, holding the character whose code is `v`.
#[verifier::external_body]
fn char_from_u32(v: u32) -> (r: Option<char>)
    ensures
        r is Some <==> is_scalar_value(v),
        r is Some ==> r->0 as u32 == v,
{
    char::from_u32(v)
}

/// The character that a byte of the legacy code page stands for: ASCII as
/// it is, `Ё`/`ё` at 0xA8/0xB8, `А`..`я` at 0xC0..0xFF, U+FFFD otherwise.
pub open spec fn cp1251_char(b: u8) -> char {
    if b <= 0x7F {
        b as char
    } else if b == 0xA8 {
        '\u{0401}'
    } else if b == 0xB8 {
        '\u{0451}'
    } else if b >= 0xC0 {
        (0x0410 + (b - 0xC0)) as char
    } else {
        '\u{FFFD}'
    }
}

/// The byte that a character is written as in the legacy code page: the
/// inverse of `cp1251_char` on the characters it yields, `?` for any other.
pub open spec fn cp1251_byte(c: char) -> u8 {
    let v = c as u32;
    if v <= 0x7F {
        v as u8
    } else if v == 0x0401 {
        0xA8
    } else if v == 0x0451 {
        0xB8
    } else if 0x0410 <= v <= 0x044F {
        (0xC0 + (v - 0x0410)) as u8
    } else {
        0x3F
    }
}

/// Decodes bytes of the legacy code page.
pub fn decode_legacy_cp1251(raw: &[u8]) -> (s: Vec<char>)
    ensures
        s@ == raw@.map_values(|b: u8| cp1251_char(b)),
{
    let mut s: Vec<char> = Vec::new();
    let mut i: usize = 0;
    while i < raw.len()
        invariant
            i <= raw@.len(),
            s@ == raw@.take(i as int).map_values(|b: u8| cp1251_char(b)),
        decreases raw@.len() - i,
    {
        let b = raw[i];
        let c = if b <= 0x7F {
            b as char
        } else if b == 0xA8 {
            '\u{0401}'
        } else if b == 0xB8 {
            '\u{0451}'
        } else if b >= 0xC0 {
            let code: u32 = 0x0410 + (b - 0xC0) as u32;
            match char_from_u32(code) {
                Some(c) => c,
                None => '\u{FFFD}',
            }
        } else {
            '\u{FFFD}'
        };
        proof {
            if b >= 0xC0 {
                let code: u32 = (0x0410 + (b - 0xC0)) as u32;
                assert(is_scalar_value(code));
                assert(c as u32 == code);
                vstd::utf8::char_u32_cast(c, code);
            }
            assert(c == cp1251_char(b));
            assert(raw@.take(i + 1).map_values(|b: u8| cp1251_char(b)) =~= raw@.take(i as int).map_values(
                |b: u8| cp1251_char(b),
            ).push(cp1251_char(b)));
        }
        s.push(c);
        i = i + 1;
    }
    proof {
        assert(raw@.take(raw@.len() as int) == raw@);
    }
    s
}

/// Encodes characters in the legacy code page.
pub fn encode_legacy_cp1251(s: &Vec<char>) -> (out: Vec<u8>)
    ensures
        out@ == s@.map_values(|c: char| cp1251_byte(c)),
{
    let mut out: Vec<u8> = Vec::new();
    let mut i: usize = 0;
    while i < s.len()
        invariant
            i <= s@.len(),
            out@ == s@.take(i as int).map_values(|c: char| cp1251_byte(c)),
        decreases s@.len() - i,
    {
        let c = s[i];
        let v = c as u32;
        let b: u8 = if v <= 0x7F {
            v as u8
        } else if v == 0x0401 {
            0xA8
        } else if v == 0x0451 {
            0xB8
        } else if 0x0410 <= v && v <= 0x044F {
            (0xC0 + (v - 0x0410)) as u8
        } else {
            0x3F
        };
        proof {
            assert(s@.take(i + 1).map_values(|c: char| cp1251_byte(c)) =~= s@.take(i as int).map_values(
                |c: char| cp1251_byte(c),
            ).push(cp1251_byte(c)));
        }
        out.push(b);
        i = i + 1;
    }
    proof {
        assert(s@.take(s@.len() as int) == s@);
    }
    out
}

/// `a + b`, staying at `usize::MAX`.
pub open spec fn sat_add(a: int, b: int) -> int {
    if a + b > usize::MAX {
        usize::MAX as int
    } else {
        a + b
    }
}

/// The name stored as a length byte and code-page characters at
/// `field_offset` inside the record at `record_offset`: the characters that
/// fit in both the record and the file, decoded, with white space and
/// control characters trimmed; empty when the field lies outside.
pub open spec fn legacy_name(b: Seq<u8>, record_offset: int, record_size: int, field_offset: int) -> Seq<char> {
    let len_off = sat_add(record_offset, field_offset);
    let value_off = sat_add(len_off, 1);
    let record_end = if sat_add(record_offset, record_size) < b.len() {
        sat_add(record_offset, record_size)
    } else {
        b.len() as int
    };
    if field_offset + 1 >= record_size || len_off >= b.len() || b[len_off] == 0 || value_off
        >= record_end {
        Seq::empty()
    } else {
        let n = if (b[len_off] as int) < record_end - value_off {
            b[len_off] as int
        } else {
            record_end - value_off
        };
        trimmed(b.subrange(value_off, value_off + n).map_values(|c: u8| cp1251_char(c)), true)
    }
}

fn copy_range(bytes: &[u8], start: usize, len: usize) -> (r: Vec<u8>)
    requires
        start + len <= bytes@.len(),
    ensures
        r@ == bytes@.subrange(start as int, start + len),
{
    let mut r: Vec<u8> = Vec::new();
    let blen = bytes.len();
    let mut i: usize = 0;
    while i < len
        invariant
            i <= len,
            blen == bytes@.len(),
            start + len <= bytes@.len(),
            r@ == bytes@.subrange(start as int, start + i),
        decreases len - i,
    {
        r.push(bytes[start + i]);
        proof {
            assert(bytes@.subrange(start as int, start + i + 1) == bytes@.subrange(start as int, start + i).push(
                bytes@[start + i],
            ));
        }
        i = i + 1;
    }
    r
}

/// Reads the length-prefixed name of a record.
pub fn read_legacy_name(bytes: &[u8], record_offset: usize, record_size: usize, field_offset: usize) -> (s: String)
    requires
        field_offset < usize::MAX,
    ensures
        s@ == legacy_name(bytes@, record_offset as int, record_size as int, field_offset as int),
{
    if field_offset + 1 >= record_size {
        return String::new();
    }
    let len_off = record_offset.saturating_add(field_offset);
    if len_off >= bytes.len() {
        return String::new();
    }
    let len = bytes[len_off] as usize;
    if len == 0 {
        return String::new();
    }
    let value_off = len_off.saturating_add(1);
    let end = record_offset.saturating_add(record_size);
    let record_end = if end < bytes.len() { end } else { bytes.len() };
    if value_off >= record_end {
        return String::new();
    }
    let max_len = record_end - value_off;
    let n = if len < max_len { len } else { max_len };
    let raw = copy_range(bytes, value_off, n);
    let decoded = decode_legacy_cp1251(raw.as_slice());
    let t = crate::text::trim_chars(&decoded, true);
    crate::text::string_of_chars(&t)
}

/// The bytes that `write_legacy_name` stores at `field_offset` of a record
/// of `record_len` bytes for `value`: nothing when the field does not fit,
/// a zero length for a blank value, else the length and the encoded
/// characters of the trimmed value, cut to what fits and to 255.
pub open spec fn legacy_name_field(record_len: int, field_offset: int, value: Seq<char>) -> Option<Seq<u8>> {
    let t = trimmed(value, false);
    if field_offset + 1 >= record_len {
        None
    } else if t.len() == 0 {
        Some(seq![0u8])
    } else {
        let enc = t.map_values(|c: char| cp1251_byte(c));
        let room = record_len - (field_offset + 1);
        let n = if enc.len() < room {
            if enc.len() < 255 { enc.len() as int } else { 255 }
        } else {
            if room < 255 { room } else { 255 }
        };
        Some(seq![n as u8] + enc.take(n))
    }
}

/// Stores `value` as a length-prefixed name at `field_offset`.
pub fn write_legacy_name(record: &mut Vec<u8>, field_offset: usize, value: &str)
    requires
        field_offset < usize::MAX,
    ensures
        final(record)@.len() == old(record)@.len(),
        legacy_name_field(old(record)@.len() as int, field_offset as int, value@) matches Some(f)
            ==> final(record)@ == overwrite(old(record)@, field_offset as int, f),
        legacy_name_field(old(record)@.len() as int, field_offset as int, value@) is None
            ==> final(record)@ == old(record)@,
{
    if field_offset + 1 >= record.len() {
        return;
    }
    let cs = crate::text::chars_of(value);
    let t = crate::text::trim_chars(&cs, false);
    if t.len() == 0 {
        let mut part: Vec<u8> = Vec::new();
        part.push(0);
        overwrite_with(record, field_offset, &part);
        return;
    }
    let encoded = encode_legacy_cp1251(&t);
    let room = record.len() - (field_offset + 1);
    let n0 = if encoded.len() < room { encoded.len() } else { room };
    let n = if n0 < 255 { n0 } else { 255 };
    let mut part: Vec<u8> = Vec::new();
    part.push(n as u8);
    let mut i: usize = 0;
    while i < n
        invariant
            i <= n,
            n <= encoded@.len(),
            part@ == seq![n as u8] + encoded@.take(i as int),
        decreases n - i,
    {
        part.push(encoded[i]);
        proof {
            assert(encoded@.take(i + 1) == encoded@.take(i as int).push(encoded@[i as int]));
            assert(seq![n as u8] + encoded@.take(i + 1) == (seq![n as u8] + encoded@.take(i as int)).push(
                encoded@[i as int],
            ));
        }
        i = i + 1;
    }
    overwrite_with(record, field_offset, &part);
}

/// Place and transition counts from the file's first two fields, when both
/// lie in `1..=10000`.
pub open spec fn header_counts(b: Seq<u8>) -> Option<(usize, usize)> {
    match (i32_at(b, 0), i32_at(b, 4)) {
        (Some(p), Some(t)) => if 1 <= p <= 10_000 && 1 <= t <= 10_000 {
            Some((p as usize, t as usize))
        } else {
            None
        },
        _ => None,
    }
}

/// Reads the place and transition counts from the file header.
pub fn header_counts_from_prefix(bytes: &[u8]) -> (r: Option<(usize, usize)>)
    ensures
        r == header_counts(bytes@),
{
    let places = match read_i32(bytes, 0) {
        Some(v) => v,
        None => return None,
    };
    let transitions = match read_i32(bytes, 4) {
        Some(v) => v,
        None => return None,
    };
    if !(1 <= places && places <= 10_000) || !(1 <= transitions && transitions <= 10_000) {
        return None;
    }
    Some((places as usize, transitions as usize))
}

/// The aligned offsets from `off` on, below `limit`, where two unsigned
/// fields in `1..=10000` follow each other, with the two values.
pub open spec fn count_candidates(b: Seq<u8>, limit: int, off: int) -> Seq<(usize, u32, u32)>
    decreases limit - off,
{
    if off + 8 > limit {
        Seq::empty()
    } else {
        let p = le_u32(b, off);
        let t = le_u32(b, off + 4);
        let rest = count_candidates(b, limit, off + 4);
        if 1 <= p <= 10_000 && 1 <= t <= 10_000 {
            seq![(off as usize, p, t)] + rest
        } else {
            rest
        }
    }
}

/// The first ten count candidates in the first 4096 bytes.
pub open spec fn detected_counts(b: Seq<u8>) -> Seq<(usize, u32, u32)> {
    let limit = if b.len() < 4096 { b.len() as int } else { 4096 };
    let all = count_candidates(b, limit, 0);
    if all.len() > 10 {
        all.take(10)
    } else {
        all
    }
}

/// Offsets of plausible (places, transitions) count pairs near the start of
/// the file, at most ten.
pub fn detect_counts(bytes: &[u8]) -> (r: Vec<(usize, u32, u32)>)
    ensures
        r@ == detected_counts(bytes@),
{
    let mut result: Vec<(usize, u32, u32)> = Vec::new();
    let scan_limit = if bytes.len() < 4096 { bytes.len() } else { 4096 };
    let ghost all = count_candidates(bytes@, scan_limit as int, 0);
    let mut offset: usize = 0;
    while offset + 8 <= scan_limit
        invariant
            scan_limit == (if bytes@.len() < 4096 { bytes@.len() as usize } else { 4096 }),
            all == count_candidates(bytes@, scan_limit as int, 0),
            offset <= scan_limit + 4,
            result@.len() < 10,
            result@ + count_candidates(bytes@, scan_limit as int, offset as int) == all,
        decreases scan_limit + 4 - offset,
    {
        let p = read_u32(bytes, offset).unwrap();
        let t = read_u32(bytes, offset + 4).unwrap();
        let ghost rest = count_candidates(bytes@, scan_limit as int, offset + 4);
        if 1 <= p && p <= 10_000 && 1 <= t && t <= 10_000 {
            proof {
                assert(result@.push((offset, p, t)) + rest == result@ + (seq![(offset, p, t)] + rest));
            }
            result.push((offset, p, t));
            if result.len() >= 10 {
                proof {
                    assert(all == result@ + rest);
                    assert(all.take(10) =~= result@);
                    if all.len() == 10 {
                        assert(all =~= result@);
                    }
                    assert(detected_counts(bytes@) == (if all.len() > 10 { all.take(10) } else { all }));
                }
                return result;
            }
        }
        offset = offset + 4;
    }
    proof {
        assert(count_candidates(bytes@, scan_limit as int, offset as int).len() == 0);
        assert(result@ == all);
    }
    result
}

/// Where the sections of a legacy file start.
#[derive(Clone, Copy, Debug, PartialEq, Eq, Structural)]
pub struct LegacyLayout {
    pub place_header_size: usize,
    pub places_offset: usize,
    pub transitions_offset: usize,
    pub arcs_offset: usize,
}

/// The layout with a place header of `header` bytes.
pub open spec fn layout_for(header: int, places: int, transitions: int) -> LegacyLayout {
    LegacyLayout {
        place_header_size: header as usize,
        places_offset: header as usize,
        transitions_offset: (header + places * 231) as usize,
        arcs_offset: (header + places * 231 + transitions * 105) as usize,
    }
}

/// The arc section's first field lies inside the file.
pub open spec fn layout_fits(b: Seq<u8>, l: LegacyLayout) -> bool {
    l.arcs_offset + 4 <= b.len()
}

/// `v` lies in `lo..=hi`.
pub open spec fn within(v: i32, lo: int, hi: int) -> bool {
    lo <= v <= hi
}

/// How many of the first `n` records of `size` bytes from `off` start with an
/// x and a y both in `lo..=hi`.
pub open spec fn records_in_range(b: Seq<u8>, off: int, size: int, n: nat, lo: int, hi: int) -> nat
    decreases n,
{
    if n == 0 {
        0
    } else {
        let k = off + (n - 1) * size;
        records_in_range(b, off, size, (n - 1) as nat, lo, hi) + if within(le_i32(b, k), lo, hi)
            && within(le_i32(b, k + 4), lo, hi) {
            1nat
        } else {
            0nat
        }
    }
}

/// Plausibility of a layout: places at coordinates in `0..=50000` and
/// transitions in `-50000..=50000`.
pub open spec fn layout_score(b: Seq<u8>, l: LegacyLayout, places: nat, transitions: nat) -> nat {
    records_in_range(b, l.places_offset as int, 231, places, 0, 50_000) + records_in_range(
        b,
        l.transitions_offset as int,
        105,
        transitions,
        -50_000,
        50_000,
    )
}

/// The layout that `detect_legacy_layout` picks: of the two place header
/// sizes 16 and 247 whose sections fit in the file, the one with the higher
/// score, 16 on a tie.
pub open spec fn detected_layout(b: Seq<u8>, places: nat, transitions: nat) -> Option<LegacyLayout> {
    let a = layout_for(16, places as int, transitions as int);
    let c = layout_for(247, places as int, transitions as int);
    if places == 0 || transitions == 0 {
        None
    } else if layout_fits(b, a) && layout_fits(b, c) {
        if layout_score(b, c, places, transitions) > layout_score(b, a, places, transitions) {
            Some(c)
        } else {
            Some(a)
        }
    } else if layout_fits(b, a) {
        Some(a)
    } else if layout_fits(b, c) {
        Some(c)
    } else {
        None
    }
}

fn count_records_in_range(bytes: &[u8], off: usize, size: usize, n: usize, lo: i32, hi: i32) -> (r: usize)
    requires
        size >= 8,
        off + n * size <= bytes@.len(),
    ensures
        r == records_in_range(bytes@, off as int, size as int, n as nat, lo as int, hi as int),
        r <= n,
{
    let mut r: usize = 0;
    let blen = bytes.len();
    let mut i: usize = 0;
    while i < n
        invariant
            i <= n,
            size >= 8,
            blen == bytes@.len(),
            off + n * size <= bytes@.len(),
            r == records_in_range(bytes@, off as int, size as int, i as nat, lo as int, hi as int),
            r <= i,
        decreases n - i,
    {
        proof {
            assert(i * size + size <= n * size) by (nonlinear_arith)
                requires
                    i < n,
                    size >= 8,
            ;
        }
        let k = off + i * size;
        let x = read_i32(bytes, k).unwrap();
        let y = read_i32(bytes, k + 4).unwrap();
        if lo <= x && x <= hi && lo <= y && y <= hi {
            r = r + 1;
        }
        i = i + 1;
    }
    r
}

/// Finds where the place, transition and arc sections start.
pub fn detect_legacy_layout(bytes: &[u8], places_count: usize, transitions_count: usize) -> (r: Option<LegacyLayout>)
    requires
        251 + places_count * 231 + transitions_count * 105 <= usize::MAX,
    ensures
        r == detected_layout(bytes@, places_count as nat, transitions_count as nat),
{
    if places_count == 0 || transitions_count == 0 {
        return None;
    }
    let mut best: Option<(LegacyLayout, usize)> = None;
    let headers: [usize; 2] = [16, 247];
    let mut h: usize = 0;
    while h < 2
        invariant
            h <= 2,
            headers@ == seq![16usize, 247usize],
            places_count > 0,
            transitions_count > 0,
            251 + places_count * 231 + transitions_count * 105 <= usize::MAX,
            h == 0 ==> best is None,
            h == 1 ==> best == (if layout_fits(bytes@, layout_for(16, places_count as int, transitions_count as int)) {
                Some((
                    layout_for(16, places_count as int, transitions_count as int),
                    layout_score(
                        bytes@,
                        layout_for(16, places_count as int, transitions_count as int),
                        places_count as nat,
                        transitions_count as nat,
                    ) as usize,
                ))
            } else {
                None
            }),
            best matches Some(bs) ==> bs.1 == layout_score(bytes@, bs.0, places_count as nat, transitions_count as nat),
            h == 2 ==> best == (match detected_layout(bytes@, places_count as nat, transitions_count as nat) {
                Some(l) => Some((l, layout_score(bytes@, l, places_count as nat, transitions_count as nat) as usize)),
                None => None,
            }),
        decreases 2 - h,
    {
        let header = headers[h];
        let places_offset = header;
        let transitions_offset = places_offset + places_count * 231;
        let arcs_offset = transitions_offset + transitions_count * 105;
        let layout = LegacyLayout {
            place_header_size: header,
            places_offset,
            transitions_offset,
            arcs_offset,
        };
        proof {
            assert(layout == layout_for(header as int, places_count as int, transitions_count as int));
        }
        if arcs_offset + 4 <= bytes.len() {
            let a = count_records_in_range(bytes, places_offset, 231, places_count, 0, 50_000);
            let b = count_records_in_range(bytes, transitions_offset, 105, transitions_count, -50_000, 50_000);
            let score = a + b;
            let better = match best {
                Some((_, best_score)) => score > best_score,
                None => true,
            };
            if better {
                best = Some((layout, score));
            }
        }
        h = h + 1;
    }
    match best {
        Some((l, _)) => Some(l),
        None => None,
    }
}

/// What the capacity field at `cap_off` of the first `n` place records
/// scores: two per value in `0..=1000000`, three more per non-zero one,
/// minus five per value out of range or past the end of the file.
pub open spec fn capacity_score(b: Seq<u8>, places_offset: int, cap_off: int, n: nat) -> int
    decreases n,
{
    if n == 0 {
        0
    } else {
        let prev = capacity_score(b, places_offset, cap_off, (n - 1) as nat);
        match i32_at(b, places_offset + (n - 1) * 231 + cap_off) {
            Some(v) => if v < 0 || v > 1_000_000 {
                prev - 5
            } else if v != 0 {
                prev + 5
            } else {
                prev + 2
            },
            None => prev - 5,
        }
    }
}

/// The capacity offset that `detect_place_capacity_offset` picks among 16,
/// 24 and 28 by the score over the first (at most 64) records: the first
/// with the highest score.
pub open spec fn capacity_offset(b: Seq<u8>, places_offset: int, needed: nat) -> usize {
    let n: nat = if needed < 64 { needed } else { 64 };
    let s16 = capacity_score(b, places_offset, 16, n);
    let s24 = capacity_score(b, places_offset, 24, n);
    let s28 = capacity_score(b, places_offset, 28, n);
    let (best, best_score) = if s24 > s16 { (24usize, s24) } else { (16usize, s16) };
    if s28 > best_score {
        28
    } else {
        best
    }
}

fn capacity_score_at(bytes: &[u8], places_offset: usize, cap_off: usize, n: usize) -> (s: i64)
    requires
        n <= 64,
        places_offset + 64 * 231 + cap_off <= usize::MAX,
    ensures
        s == capacity_score(bytes@, places_offset as int, cap_off as int, n as nat),
        -5 * n <= s <= 5 * n,
{
    let mut s: i64 = 0;
    let mut i: usize = 0;
    while i < n
        invariant
            i <= n <= 64,
            places_offset + 64 * 231 + cap_off <= usize::MAX,
            s == capacity_score(bytes@, places_offset as int, cap_off as int, i as nat),
            -5 * i <= s <= 5 * i,
        decreases n - i,
    {
        let off = places_offset + i * 231 + cap_off;
        match read_i32(bytes, off) {
            Some(v) => {
                if v < 0 || v > 1_000_000 {
                    s = s - 5;
                } else if v != 0 {
                    s = s + 5;
                } else {
                    s = s + 2;
                }
            },
            None => {
                s = s - 5;
            },
        }
        i = i + 1;
    }
    s
}

/// Picks the offset of the capacity field in place records, which differs
/// between legacy variants.
pub fn detect_place_capacity_offset(bytes: &[u8], needed: usize, layout: LegacyLayout) -> (off: usize)
    requires
        layout.places_offset + 64 * 231 + 28 <= usize::MAX,
    ensures
        off == capacity_offset(bytes@, layout.places_offset as int, needed as nat),
{
    let n = if needed < 64 { needed } else { 64 };
    let s16 = capacity_score_at(bytes, layout.places_offset, 16, n);
    let s24 = capacity_score_at(bytes, layout.places_offset, 24, n);
    let s28 = capacity_score_at(bytes, layout.places_offset, 28, n);
    let mut best_off: usize = 16;
    let mut best_score: i64 = s16;
    if s24 > best_score {
        best_off = 24;
        best_score = s24;
    }
    if s28 > best_score {
        best_off = 28;
    }
    best_off
}

/// Whether the token counts of valid place records are in the field at +12
/// rather than +8: yes when some +12 value exceeds 1, or when at least 80%
/// of the +8 values are the sentinel 10 and at least 80% of the +12 values
/// are 0 or 1.
pub open spec fn use_marker12(pairs: Seq<(i32, i32)>) -> bool {
    let n = pairs.len();
    let large = exists|i: int| 0 <= i < n && pairs[i].1 > 1;
    let sentinel = pairs.filter(|q: (i32, i32)| q.0 == 10).len();
    let binary = pairs.filter(|q: (i32, i32)| q.1 == 0 || q.1 == 1).len();
    n > 0 && (large || (sentinel * 10 >= n * 8 && binary * 10 >= n * 8))
}

/// Whether token counts should be read from the field at +12.
pub fn should_use_marker12(marker_pairs: &[(i32, i32)]) -> (r: bool)
    requires
        marker_pairs@.len() * 10 <= usize::MAX,
    ensures
        r == use_marker12(marker_pairs@),
{
    let ghost pairs = marker_pairs@;
    let ghost is_sentinel = |q: (i32, i32)| q.0 == 10;
    let ghost is_binary = |q: (i32, i32)| q.1 == 0 || q.1 == 1;
    if marker_pairs.len() == 0 {
        return false;
    }
    let total = marker_pairs.len();
    let mut large = false;
    let mut sentinel: usize = 0;
    let mut binary: usize = 0;
    let mut i: usize = 0;
    while i < total
        invariant
            i <= total,
            total == pairs.len(),
            marker_pairs@ == pairs,
            is_sentinel == (|q: (i32, i32)| q.0 == 10),
            is_binary == (|q: (i32, i32)| q.1 == 0 || q.1 == 1),
            large <==> exists|j: int| 0 <= j < i && pairs[j].1 > 1,
            sentinel == pairs.take(i as int).filter(is_sentinel).len(),
            binary == pairs.take(i as int).filter(is_binary).len(),
            sentinel <= i,
            binary <= i,
        decreases total - i,
    {
        let (m8, m12) = marker_pairs[i];
        proof {
            let pre = pairs.take(i as int);
            assert(pairs.take(i + 1) == pre.push(pairs[i as int]));
            reveal(Seq::filter);
            assert(pre.push(pairs[i as int]).drop_last() == pre);
        }
        if m12 > 1 {
            large = true;
        }
        if m8 == 10 {
            sentinel = sentinel + 1;
        }
        if m12 == 0 || m12 == 1 {
            binary = binary + 1;
        }
        i = i + 1;
    }
    proof {
        assert(pairs.take(total as int) == pairs);
    }
    if large {
        return true;
    }
    sentinel * 10 >= total * 8 && binary * 10 >= total * 8
}

/// `v` cut to `lo..=hi`.
pub open spec fn clamp_i32(v: i32, lo: i32, hi: i32) -> i32 {
    if v < lo {
        lo
    } else if v > hi {
        hi
    } else {
        v
    }
}

fn clamp_to(v: i32, lo: i32, hi: i32) -> (r: i32)
    ensures
        r == clamp_i32(v, lo, hi),
{
    if v < lo {
        lo
    } else if v > hi {
        hi
    } else {
        v
    }
}

/// A transition record as read from the file; coordinates are the centre.
#[derive(Clone, Debug)]
pub struct LegacyTransitionNode {
    pub valid: bool,
    pub x: i32,
    pub y: i32,
    pub priority: i32,
    pub angle_deg: i32,
    pub color_raw: i32,
    pub name: String,
}

/// What the transition record at `off` reads as.
pub open spec fn transition_node_ok(n: LegacyTransitionNode, b: Seq<u8>, off: int) -> bool {
    &&& n.x == le_i32(b, off)
    &&& n.y == le_i32(b, off + 4)
    &&& n.valid == (within(n.x, -50_000, 50_000) && within(n.y, -50_000, 50_000))
    &&& n.priority == clamp_i32(
        match i32_at(b, off + 8) {
            Some(v) => v,
            None => 1,
        },
        0i32,
        1_000_000i32,
    )
    &&& n.angle_deg == clamp_i32(
        match i32_at(b, off + 12) {
            Some(v) => v,
            None => 90,
        },
        -360i32,
        360i32,
    )
    &&& n.color_raw == (match i32_at(b, off + 52) {
        Some(v) => v,
        None => 0,
    })
    &&& n.name@ == legacy_name(b, off, 105, 54)
}

/// The records `0..n` of `size` bytes from `off` have their x and y in the
/// file (the last of them does), and record `n` does not when fewer than
/// `needed` were read.
pub open spec fn leading_records(len: int, off: int, size: int, n: int, needed: int) -> bool {
    &&& n <= needed
    &&& n > 0 ==> off + (n - 1) * size + 8 <= len
    &&& n < needed ==> off + n * size + 8 > len
}

/// Reads the transition records, stopping at the first one whose
/// coordinates lie past the end of the file.
pub fn parse_transition_nodes_from_layout(bytes: &[u8], needed: usize, layout: LegacyLayout) -> (r: Vec<LegacyTransitionNode>)
    requires
        layout.transitions_offset + needed * 105 + 105 <= usize::MAX,
    ensures
        leading_records(bytes@.len() as int, layout.transitions_offset as int, 105, r@.len() as int, needed as int),
        forall|i: int| 0 <= i < r@.len() ==> transition_node_ok(
            #[trigger] r@[i],
            bytes@,
            layout.transitions_offset + i * 105,
        ),
{
    let mut result: Vec<LegacyTransitionNode> = Vec::new();
    let base = layout.transitions_offset;
    let mut idx: usize = 0;
    while idx < needed
        invariant
            idx <= needed,
            base == layout.transitions_offset,
            base + needed * 105 + 105 <= usize::MAX,
            result@.len() == idx,
            idx > 0 ==> base + (idx - 1) * 105 + 8 <= bytes@.len(),
            forall|i: int| 0 <= i < idx ==> transition_node_ok(#[trigger] result@[i], bytes@, base + i * 105),
        decreases needed - idx,
    {
        proof {
            assert(idx * 105 <= needed * 105) by (nonlinear_arith)
                requires
                    idx <= needed,
            ;
        }
        let off = base + idx * 105;
        let x = match read_i32(bytes, off) {
            Some(v) => v,
            None => {
                return result;
            },
        };
        let y = match read_i32(bytes, off + 4) {
            Some(v) => v,
            None => {
                return result;
            },
        };
        let priority = match read_i32(bytes, off + 8) {
            Some(v) => v,
            None => 1,
        };
        let angle_deg = match read_i32(bytes, off + 12) {
            Some(v) => v,
            None => 90,
        };
        let color_raw = match read_i32(bytes, off + 52) {
            Some(v) => v,
            None => 0,
        };
        let name = read_legacy_name(bytes, off, 105, 54);
        let valid = -50_000 <= x && x <= 50_000 && -50_000 <= y && y <= 50_000;
        let node = LegacyTransitionNode {
            valid,
            x,
            y,
            priority: clamp_to(priority, 0, 1_000_000),
            angle_deg: clamp_to(angle_deg, -360, 360),
            color_raw,
            name,
        };
        result.push(node);
        idx = idx + 1;
    }
    result
}

/// A place record as read from the file; `delay_sec` holds binary64 bits.
#[derive(Clone, Debug)]
pub struct LegacyPlaceNode {
    pub valid: bool,
    pub x: i32,
    pub y: i32,
    pub markers: i32,
    pub delay_sec: u64,
    pub capacity: i32,
    pub color_raw: i32,
    pub name: String,
}

/// The delay of a place record: the binary64 at +77 when it is present,
/// finite and not below zero, else the +12 field as a number, 0 when it is
/// below zero.
pub open spec fn place_delay(b: Seq<u8>, off: int, marker12: i32) -> u64 {
    match u64_at(b, off + 77) {
        Some(v) if crate::ieee::f64_is_finite(v) && !crate::ieee::f64_is_negative(v) => v,
        _ => crate::ieee::f64_int_bits(if marker12 < 0 { 0 } else { marker12 as int }),
    }
}

/// What the place record at `off` reads as, before the token count is
/// chosen between the +8 and +12 fields.
pub open spec fn place_node_fields_ok(n: LegacyPlaceNode, b: Seq<u8>, off: int, cap_off: int) -> bool {
    let marker12 = match i32_at(b, off + 12) {
        Some(v) => v,
        None => 0,
    };
    &&& n.x == le_i32(b, off)
    &&& n.y == le_i32(b, off + 4)
    &&& n.valid == (within(n.x, 0, 20_000) && within(n.y, 0, 20_000))
    &&& n.delay_sec == place_delay(b, off, marker12)
    &&& n.capacity == (match i32_at(b, off + cap_off) {
        Some(v) => v,
        None => 0,
    })
    &&& n.color_raw == (match i32_at(b, off + 20) {
        Some(v) => v,
        None => 0,
    })
    &&& n.name@ == legacy_name(b, off, 231, 26)
}

/// The +8 and +12 fields of the place record at `off` (0 when missing).
pub open spec fn marker_pair(b: Seq<u8>, off: int) -> (i32, i32) {
    (
        match i32_at(b, off + 8) {
            Some(v) => v,
            None => 0,
        },
        match i32_at(b, off + 12) {
            Some(v) => v,
            None => 0,
        },
    )
}

/// The marker pairs of the valid records among `nodes`, in order.
pub open spec fn valid_marker_pairs(nodes: Seq<LegacyPlaceNode>, b: Seq<u8>, off: int) -> Seq<(i32, i32)>
    decreases nodes.len(),
{
    if nodes.len() == 0 {
        Seq::empty()
    } else {
        let k = nodes.len() - 1;
        let prev = valid_marker_pairs(nodes.drop_last(), b, off);
        if nodes[k].valid {
            prev.push(marker_pair(b, off + k * 231))
        } else {
            prev
        }
    }
}
/// What the place record at `off` reads as, given the capacity offset and
/// whether token counts come from the +12 field.
pub open spec fn place_node_ok(n: LegacyPlaceNode, b: Seq<u8>, off: int, cap_off: int, use12: bool) -> bool {
    let (m8, m12) = marker_pair(b, off);
    &&& place_node_fields_ok(n, b, off, cap_off)
    &&& n.markers == (if n.valid {
        clamp_i32(if use12 { m12 } else { m8 }, 0i32, 1_000_000i32)
    } else {
        0i32
    })
}

/// `valid_marker_pairs` reads nothing but the validity flags.
proof fn lemma_valid_pairs_same(a: Seq<LegacyPlaceNode>, c: Seq<LegacyPlaceNode>, b: Seq<u8>, off: int)
    requires
        a.len() == c.len(),
        forall|i: int| 0 <= i < a.len() ==> (#[trigger] a[i]).valid == c[i].valid,
    ensures
        valid_marker_pairs(a, b, off) == valid_marker_pairs(c, b, off),
    decreases a.len(),
{
    if a.len() > 0 {
        assert forall|i: int| 0 <= i < a.len() - 1 implies (#[trigger] a.drop_last()[i]).valid == c.drop_last()[i].valid by {
            assert(a.drop_last()[i] == a[i]);
            assert(c.drop_last()[i] == c[i]);
        }
        lemma_valid_pairs_same(a.drop_last(), c.drop_last(), b, off);
    }
}

/// Reads the place records, stopping at the first one whose coordinates lie
/// past the end of the file; token counts come from the +12 field when
/// `should_use_marker12` says so for the valid records, else from +8.
pub fn parse_place_nodes_from_layout(bytes: &[u8], needed: usize, layout: LegacyLayout) -> (r: Vec<LegacyPlaceNode>)
    requires
        layout.places_offset + needed * 231 + 231 + 64 * 231 <= usize::MAX,
        needed * 10 <= usize::MAX,
    ensures
        leading_records(bytes@.len() as int, layout.places_offset as int, 231, r@.len() as int, needed as int),
        forall|i: int| 0 <= i < r@.len() ==> place_node_ok(
            #[trigger] r@[i],
            bytes@,
            layout.places_offset + i * 231,
            capacity_offset(bytes@, layout.places_offset as int, needed as nat) as int,
            use_marker12(valid_marker_pairs(r@, bytes@, layout.places_offset as int)),
        ),
        forall|i: int| 0 <= i < r@.len() ==> !crate::model::bad_delay(#[trigger] r@[i].delay_sec),
{
    let mut raw: Vec<LegacyPlaceNode> = Vec::new();
    let mut pairs: Vec<(i32, i32)> = Vec::new();
    let mut all_pairs: Vec<(i32, i32)> = Vec::new();
    let base = layout.places_offset;
    let cap_off = detect_place_capacity_offset(bytes, needed, layout);
    let mut idx: usize = 0;
    while idx < needed
        invariant
            idx <= needed,
            base == layout.places_offset,
            base + needed * 231 + 231 + 64 * 231 <= usize::MAX,
            needed * 10 <= usize::MAX,
            cap_off == capacity_offset(bytes@, base as int, needed as nat),
            cap_off <= 28,
            raw@.len() == idx,
            all_pairs@.len() == idx,
            idx > 0 ==> base + (idx - 1) * 231 + 8 <= bytes@.len(),
            forall|i: int| 0 <= i < idx ==> place_node_fields_ok(#[trigger] raw@[i], bytes@, base + i * 231, cap_off as int),
            forall|i: int| 0 <= i < idx ==> !crate::model::bad_delay(#[trigger] raw@[i].delay_sec),
            forall|i: int| 0 <= i < idx ==> #[trigger] all_pairs@[i] == marker_pair(bytes@, base + i * 231),
            pairs@ == valid_marker_pairs(raw@, bytes@, base as int),
            pairs@.len() <= idx,
        ensures
            idx <= needed,
            idx < needed ==> base + idx * 231 + 8 > bytes@.len(),
        decreases needed - idx,
    {
        proof {
            assert(idx * 231 <= needed * 231) by (nonlinear_arith)
                requires
                    idx <= needed,
            ;
        }
        let off = base + idx * 231;
        let x = match read_i32(bytes, off) {
            Some(v) => v,
            None => {
                break;
            },
        };
        let y = match read_i32(bytes, off + 4) {
            Some(v) => v,
            None => {
                break;
            },
        };
        let valid = 0 <= x && x <= 20_000 && 0 <= y && y <= 20_000;
        let marker8 = match read_i32(bytes, off + 8) {
            Some(v) => v,
            None => 0,
        };
        let marker12 = match read_i32(bytes, off + 12) {
            Some(v) => v,
            None => 0,
        };
        let delay_sec = match read_f64(bytes, off + 77) {
            Some(v) => if crate::ieee::f64_bits_is_finite(v) && !crate::ieee::f64_bits_is_negative(v) {
                v
            } else {
                crate::ieee::f64_bits_of_int(if marker12 < 0 { 0 } else { marker12 as i64 })
            },
            None => crate::ieee::f64_bits_of_int(if marker12 < 0 { 0 } else { marker12 as i64 }),
        };
        let capacity = match read_i32(bytes, off + cap_off) {
            Some(v) => v,
            None => 0,
        };
        let color_raw = match read_i32(bytes, off + 20) {
            Some(v) => v,
            None => 0,
        };
        let name = read_legacy_name(bytes, off, 231, 26);
        assert(!crate::model::bad_delay(delay_sec));
        let node = LegacyPlaceNode { valid, x, y, markers: 0, delay_sec, capacity, color_raw, name };
        let ghost before = raw@;
        raw.push(node);
        all_pairs.push((marker8, marker12));
        proof {
            assert(raw@.drop_last() == before);
        }
        if valid {
            pairs.push((marker8, marker12));
        }
        idx = idx + 1;
    }
    let ghost raw_nodes = raw@;
    let use12 = should_use_marker12(pairs.as_slice());
    let mut k: usize = 0;
    while k < raw.len()
        invariant
            k <= raw@.len(),
            raw@.len() == raw_nodes.len(),
            all_pairs@.len() == raw_nodes.len(),
            forall|i: int| 0 <= i < raw_nodes.len() ==> #[trigger] all_pairs@[i] == marker_pair(bytes@, base + i * 231),
            forall|i: int| 0 <= i < raw_nodes.len() ==> place_node_fields_ok(#[trigger] raw@[i], bytes@, base + i * 231, cap_off as int),
            forall|i: int| 0 <= i < raw_nodes.len() ==> !crate::model::bad_delay(#[trigger] raw@[i].delay_sec),
            forall|i: int| 0 <= i < raw_nodes.len() ==> (#[trigger] raw@[i]).valid == raw_nodes[i].valid,
            forall|i: int| 0 <= i < k ==> (#[trigger] raw@[i]).markers == (if raw@[i].valid {
                clamp_i32(
                    if use12 { marker_pair(bytes@, base + i * 231).1 } else { marker_pair(bytes@, base + i * 231).0 },
                    0i32,
                    1_000_000i32,
                )
            } else {
                0i32
            }),
        decreases raw@.len() - k,
    {
        let (m8, m12) = all_pairs[k];
        let m = if raw[k].valid {
            clamp_to(if use12 { m12 } else { m8 }, 0, 1_000_000)
        } else {
            0
        };
        raw[k].markers = m;
        k = k + 1;
    }
    proof {
        lemma_valid_pairs_same(raw@, raw_nodes, bytes@, base as int);
    }
    raw
}

/// Place row, transition column, place-to-transition direction and
/// inhibitor flag of a legacy arc: what arcs are grouped by.
pub type ArcKey = (usize, usize, bool, bool);

/// Arcs of the legacy file between one place and one transition, grouped:
/// `weight` counts the records.
#[derive(Clone, Copy, Debug, PartialEq, Eq, Structural)]
pub struct LegacyArcRecord {
    pub place_idx: usize,
    pub transition_idx: usize,
    pub place_to_transition: bool,
    pub weight: u32,
    pub inhibitor: bool,
}

/// The grouping key of a record.
pub open spec fn arc_key(a: LegacyArcRecord) -> ArcKey {
    (a.place_idx, a.transition_idx, a.place_to_transition, a.inhibitor)
}

/// `false` before `true`.
pub open spec fn bool_lt(a: bool, b: bool) -> bool {
    !a && b
}

/// Lexicographic order of keys, `false` before `true`.
pub open spec fn key_lt(a: ArcKey, b: ArcKey) -> bool {
    ||| a.0 < b.0
    ||| (a.0 == b.0 && a.1 < b.1)
    ||| (a.0 == b.0 && a.1 == b.1 && bool_lt(a.2, b.2))
    ||| (a.0 == b.0 && a.1 == b.1 && a.2 == b.2 && bool_lt(a.3, b.3))
}

proof fn lemma_key_order(a: ArcKey, b: ArcKey, c: ArcKey)
    ensures
        key_lt(a, b) && key_lt(b, c) ==> key_lt(a, c),
        !key_lt(a, a),
        a != b ==> key_lt(a, b) || key_lt(b, a),
        key_lt(a, b) ==> !key_lt(b, a),
{
}

/// How often `k` occurs in `ks`.
pub open spec fn key_count(ks: Seq<ArcKey>, k: ArcKey) -> nat
    decreases ks.len(),
{
    if ks.len() == 0 {
        0
    } else {
        key_count(ks.drop_last(), k) + if ks.last() == k {
            1nat
        } else {
            0nat
        }
    }
}

proof fn lemma_key_count_bound(ks: Seq<ArcKey>, k: ArcKey)
    ensures
        key_count(ks, k) <= ks.len(),
        ks.contains(k) ==> key_count(ks, k) >= 1,
    decreases ks.len(),
{
    if ks.len() > 0 {
        lemma_key_count_bound(ks.drop_last(), k);
        if ks.contains(k) && ks.last() != k {
            let j = choose|j: int| 0 <= j < ks.len() && ks[j] == k;
            assert(ks.drop_last()[j] == k);
        }
    }
}

/// Some record of `arcs` has key `k`.
pub open spec fn has_key(arcs: Seq<LegacyArcRecord>, k: ArcKey) -> bool {
    exists|i: int| 0 <= i < arcs.len() && arc_key(arcs[i]) == k
}

/// `arcs` groups the keys `ks`: one record per distinct key, in increasing
/// key order, whose weight is how often the key occurs.
pub open spec fn is_tally(arcs: Seq<LegacyArcRecord>, ks: Seq<ArcKey>) -> bool {
    &&& forall|i: int, j: int| 0 <= i < j < arcs.len() ==> key_lt(arc_key(#[trigger] arcs[i]), arc_key(#[trigger] arcs[j]))
    &&& forall|i: int| 0 <= i < arcs.len() ==> (#[trigger] arcs[i]).weight == key_count(ks, arc_key(arcs[i]))
        && key_count(ks, arc_key(arcs[i])) >= 1
    &&& forall|j: int| 0 <= j < ks.len() ==> has_key(arcs, #[trigger] ks[j])
}

fn key_less(a: ArcKey, b: ArcKey) -> (r: bool)
    ensures
        r == key_lt(a, b),
{
    a.0 < b.0 || (a.0 == b.0 && a.1 < b.1) || (a.0 == b.0 && a.1 == b.1 && !a.2 && b.2) || (a.0 == b.0 && a.1
        == b.1 && a.2 == b.2 && !a.3 && b.3)
}

/// Counts one more record with key `k`.
fn add_to_tally(out: &mut Vec<LegacyArcRecord>, k: ArcKey, Ghost(ks): Ghost<Seq<ArcKey>>)
    requires
        is_tally(old(out)@, ks),
        ks.len() < u32::MAX,
    ensures
        is_tally(final(out)@, ks.push(k)),
{
    let ghost ks2 = ks.push(k);
    proof {
        assert(ks2.drop_last() == ks);
        lemma_key_count_bound(ks, k);
    }
    let mut j: usize = 0;
    while j < out.len() && key_less(
        (out[j].place_idx, out[j].transition_idx, out[j].place_to_transition, out[j].inhibitor),
        k,
    )
        invariant
            j <= out@.len(),
            forall|i: int| 0 <= i < j ==> key_lt(arc_key(#[trigger] out@[i]), k),
        decreases out@.len() - j,
    {
        j = j + 1;
    }
    let ghost before = out@;
    if j < out.len() && out[j].place_idx == k.0 && out[j].transition_idx == k.1
        && out[j].place_to_transition == k.2 && out[j].inhibitor == k.3 {
        proof {
            assert(before[j as int].weight == key_count(ks, k));
        }
        let w = out[j].weight;
        out[j].weight = w + 1;
        proof {
            assert forall|i: int| 0 <= i < out@.len() implies (#[trigger] out@[i]).weight == key_count(
                ks2,
                arc_key(out@[i]),
            ) && key_count(ks2, arc_key(out@[i])) >= 1 by {
                if i != j {
                    assert(arc_key(before[i]) != k) by {
                        lemma_key_order(arc_key(before[i]), k, k);
                        if i < j {
                        } else {
                            assert(key_lt(arc_key(before[j as int]), arc_key(before[i])));
                        }
                    }
                }
            }
            assert forall|q: int| 0 <= q < ks2.len() implies has_key(out@, #[trigger] ks2[q]) by {
                if q < ks.len() {
                    assert(ks2[q] == ks[q]);
                    assert(has_key(before, ks[q]));
                    let i = choose|i: int| 0 <= i < before.len() && arc_key(before[i]) == ks[q];
                    assert(arc_key(out@[i]) == ks[q]);
                } else {
                    assert(arc_key(out@[j as int]) == k);
                }
            }
        }
    } else {
        let rec = LegacyArcRecord {
            place_idx: k.0,
            transition_idx: k.1,
            place_to_transition: k.2,
            weight: 1,
            inhibitor: k.3,
        };
        out.insert(j, rec);
        proof {
            assert(!ks.contains(k)) by {
                if ks.contains(k) {
                    let q = choose|q: int| 0 <= q < ks.len() && ks[q] == k;
                    assert(has_key(before, ks[q]));
                    let i = choose|i: int| 0 <= i < before.len() && arc_key(before[i]) == k;
                    if i < j {
                        lemma_key_order(k, k, k);
                    } else if i > j {
                        assert(key_lt(arc_key(before[j as int]), arc_key(before[i])));
                        lemma_key_order(arc_key(before[j as int]), k, k);
                    }
                }
            }
            assert(key_count(ks, k) == 0) by {
                if key_count(ks, k) > 0 {
                    lemma_key_count_zero(ks, k);
                }
            }
            assert(out@ == before.insert(j as int, rec));
            assert forall|a: int, b: int| 0 <= a < b < out@.len() implies key_lt(
                arc_key(#[trigger] out@[a]),
                arc_key(#[trigger] out@[b]),
            ) by {
                if j < before.len() {
                    lemma_key_order(k, arc_key(before[j as int]), k);
                }
                if a < j && b == j {
                } else if a < j && b > j {
                    lemma_key_order(arc_key(before[a]), k, arc_key(before[b - 1]));
                    if b - 1 > j {
                        assert(key_lt(arc_key(before[j as int]), arc_key(before[b - 1])));
                        lemma_key_order(k, arc_key(before[j as int]), arc_key(before[b - 1]));
                    }
                } else if a == j {
                    if b - 1 > j {
                        assert(key_lt(arc_key(before[j as int]), arc_key(before[b - 1])));
                        lemma_key_order(k, arc_key(before[j as int]), arc_key(before[b - 1]));
                    }
                } else if a < j {
                    assert(key_lt(arc_key(before[a]), arc_key(before[b])));
                } else {
                    assert(key_lt(arc_key(before[a - 1]), arc_key(before[b - 1])));
                }
            }
            assert forall|i: int| 0 <= i < out@.len() implies (#[trigger] out@[i]).weight == key_count(
                ks2,
                arc_key(out@[i]),
            ) && key_count(ks2, arc_key(out@[i])) >= 1 by {
                if i < j {
                    assert(out@[i] == before[i]);
                    lemma_key_order(arc_key(before[i]), k, k);
                } else if i > j {
                    assert(out@[i] == before[i - 1]);
                    if i - 1 > j {
                        assert(key_lt(arc_key(before[j as int]), arc_key(before[i - 1])));
                        lemma_key_order(k, arc_key(before[j as int]), arc_key(before[i - 1]));
                    }
                    lemma_key_order(k, arc_key(before[i - 1]), k);
                }
            }
            assert forall|q: int| 0 <= q < ks2.len() implies has_key(out@, #[trigger] ks2[q]) by {
                if q < ks.len() {
                    assert(ks2[q] == ks[q]);
                    assert(has_key(before, ks[q]));
                    let i = choose|i: int| 0 <= i < before.len() && arc_key(before[i]) == ks[q];
                    if i < j {
                        assert(arc_key(out@[i]) == ks[q]);
                    } else {
                        assert(arc_key(out@[i + 1]) == ks[q]);
                    }
                } else {
                    assert(arc_key(out@[j as int]) == k);
                }
            }
        }
    }
}

proof fn lemma_key_count_zero(ks: Seq<ArcKey>, k: ArcKey)
    requires
        key_count(ks, k) > 0,
    ensures
        ks.contains(k),
    decreases ks.len(),
{
    if ks.last() != k {
        lemma_key_count_zero(ks.drop_last(), k);
        let j = choose|j: int| 0 <= j < ks.len() - 1 && ks.drop_last()[j] == k;
        assert(ks[j] == k);
    } else {
        assert(ks[ks.len() - 1] == k);
    }
}

/// The key of an arc record at `off` read through `at`: marker 1 (arc) or
/// 0 (inhibitor) at +24, direction -1 (place to transition) or 1 at +28,
/// 1-based source and target at +32 and +36 within the counts.
pub open spec fn arc_record_key(
    marker: Option<i32>,
    direction: Option<i32>,
    source: Option<i32>,
    target: Option<i32>,
    places: usize,
    transitions: usize,
) -> Option<ArcKey> {
    match (marker, direction, source, target) {
        (Some(m), Some(d), Some(s), Some(t)) => {
            if (m != 0 && m != 1) || (d != -1 && d != 1) || s < 1 || t < 1 {
                None
            } else if d == -1 {
                if s > places as i32 || t > transitions as i32 {
                    None
                } else {
                    Some(((s - 1) as usize, (t - 1) as usize, true, m == 0))
                }
            } else {
                if s > transitions as i32 || t > places as i32 {
                    None
                } else {
                    Some(((t - 1) as usize, (s - 1) as usize, false, m == 0))
                }
            }
        },
        _ => None,
    }
}

/// The key of the arc record at `off` of the arc section.
pub open spec fn section_record_key(b: Seq<u8>, off: int, places: usize, transitions: usize) -> Option<ArcKey> {
    arc_record_key(i32_at(b, off + 24), i32_at(b, off + 28), i32_at(b, off + 32), i32_at(b, off + 36), places, transitions)
}

/// The keys of the readable records among the first `n` records from `start`.
pub open spec fn section_keys(b: Seq<u8>, start: int, n: nat, places: usize, transitions: usize) -> Seq<ArcKey>
    decreases n,
{
    if n == 0 {
        Seq::empty()
    } else {
        let prev = section_keys(b, start, (n - 1) as nat, places, transitions);
        match section_record_key(b, start + (n - 1) * 46, places, transitions) {
            Some(k) => prev.push(k),
            None => prev,
        }
    }
}

fn key_of_record(
    marker: Option<i32>,
    direction: Option<i32>,
    source: Option<i32>,
    target: Option<i32>,
    places: usize,
    transitions: usize,
) -> (r: Option<ArcKey>)
    ensures
        r == arc_record_key(marker, direction, source, target, places, transitions),
{
    match (marker, direction, source, target) {
        (Some(m), Some(d), Some(s), Some(t)) => {
            if (m != 0 && m != 1) || (d != -1 && d != 1) || s < 1 || t < 1 {
                None
            } else if d == -1 {
                if s > places as i32 || t > transitions as i32 {
                    None
                } else {
                    Some(((s - 1) as usize, (t - 1) as usize, true, m == 0))
                }
            } else {
                if s > transitions as i32 || t > places as i32 {
                    None
                } else {
                    Some(((t - 1) as usize, (s - 1) as usize, false, m == 0))
                }
            }
        },
        _ => None,
    }
}

/// How many arc records the section announces: its counter plus one (with
/// two's-complement wrap-around), cut to the records that fit in the file.
pub open spec fn section_record_count(b: Seq<u8>, counter: i32, start: int) -> nat {
    let announced: int = if counter == i32::MAX { 0 } else { counter + 1 };
    let room: int = (b.len() - start) / 46;
    (if announced < room { announced } else { room }) as nat
}

/// The grouped arcs of the arc section, when its counter is readable and
/// at least -1 and some record in it is a readable arc.
pub open spec fn section_arcs_ok(r: Option<Vec<LegacyArcRecord>>, b: Seq<u8>, arcs_offset: int, places: usize, transitions: usize) -> bool {
    let start = arcs_offset + 6;
    match i32_at(b, arcs_offset) {
        Some(counter) => if counter < -1 || start > b.len() {
            r is None
        } else {
            let ks = section_keys(b, start, section_record_count(b, counter, start), places, transitions);
            if ks.len() == 0 {
                r is None
            } else {
                r matches Some(v) && is_tally(v@, ks)
            }
        },
        None => r is None,
    }
}

/// Reads the arc section that the layout locates and groups its records.
pub fn parse_arcs_from_section(bytes: &[u8], places: usize, transitions: usize, layout: LegacyLayout) -> (r: Option<Vec<LegacyArcRecord>>)
    requires
        bytes@.len() <= u32::MAX,
    ensures
        section_arcs_ok(r, bytes@, layout.arcs_offset as int, places, transitions),
{
    let arc_counter = match read_i32(bytes, layout.arcs_offset) {
        Some(v) => v,
        None => return None,
    };
    if arc_counter < -1 {
        return None;
    }
    proof {
        assert(layout.arcs_offset + 4 <= bytes@.len());
    }
    if bytes.len() - layout.arcs_offset < 6 {
        return None;
    }
    let section_start = layout.arcs_offset + 6;
    let announced: usize = if arc_counter == i32::MAX { 0 } else { (arc_counter + 1) as usize };
    let room = (bytes.len() - section_start) / 46;
    let count = if announced < room { announced } else { room };
    let mut out: Vec<LegacyArcRecord> = Vec::new();
    let ghost mut ks: Seq<ArcKey> = Seq::empty();
    let mut index: usize = 0;
    while index < count
        invariant
            index <= count,
            count <= room,
            room == (bytes@.len() - section_start) / 46,
            section_start <= bytes@.len(),
            bytes@.len() <= u32::MAX,
            ks == section_keys(bytes@, section_start as int, index as nat, places, transitions),
            ks.len() <= index,
            is_tally(out@, ks),
        decreases count - index,
    {
        proof {
            assert(index * 46 + 46 <= room * 46) by (nonlinear_arith)
                requires
                    index < room,
            ;
            assert(room * 46 <= bytes@.len() - section_start) by (nonlinear_arith)
                requires
                    room == (bytes@.len() - section_start) / 46,
                    section_start <= bytes@.len(),
            ;
        }
        let off = section_start + index * 46;
        let key = key_of_record(
            read_i32(bytes, off + 24),
            read_i32(bytes, off + 28),
            read_i32(bytes, off + 32),
            read_i32(bytes, off + 36),
            places,
            transitions,
        );
        match key {
            Some(k) => {
                add_to_tally(&mut out, k, Ghost(ks));
                proof {
                    ks = ks.push(k);
                }
            },
            None => {},
        }
        index = index + 1;
    }
    if out.len() == 0 {
        proof {
            if ks.len() > 0 {
                assert(has_key(out@, ks[0]));
            }
        }
        return None;
    }
    proof {
        if ks.len() == 0 {
            assert(key_count(ks, arc_key(out@[0])) == 0);
        }
    }
    Some(out)
}

/// `v` lies in `-50000..=50000`.
pub open spec fn plausible_coord(v: Option<i32>) -> bool {
    match v {
        Some(x) => -50_000 <= x <= 50_000,
        None => true,
    }
}

/// The key of an arc-record-shaped run of bytes at any offset `off`, whose
/// two end points (+40/+44 and +56/+60) are plausible coordinates.
pub open spec fn signature_key(b: Seq<u8>, off: int, places: usize, transitions: usize) -> Option<ArcKey> {
    if plausible_coord(i32_at(b, off + 40)) && plausible_coord(i32_at(b, off + 44)) && plausible_coord(
        i32_at(b, off + 56),
    ) && plausible_coord(i32_at(b, off + 60)) {
        section_record_key(b, off, places, transitions)
    } else {
        None
    }
}

/// The signature keys at offsets `0..n`.
pub open spec fn signature_keys(b: Seq<u8>, n: nat, places: usize, transitions: usize) -> Seq<ArcKey>
    decreases n,
{
    if n == 0 {
        Seq::empty()
    } else {
        let prev = signature_keys(b, (n - 1) as nat, places, transitions);
        match signature_key(b, n - 1, places, transitions) {
            Some(k) => prev.push(k),
            None => prev,
        }
    }
}

/// The grouped arcs found by scanning every offset for arc records.
pub open spec fn signature_arcs_ok(r: Option<Vec<LegacyArcRecord>>, b: Seq<u8>, places: usize, transitions: usize) -> bool {
    if b.len() < 64 || places == 0 || transitions == 0 {
        r is None
    } else {
        let ks = signature_keys(b, (b.len() - 64) as nat, places, transitions);
        if ks.len() == 0 {
            r is None
        } else {
            r matches Some(v) && is_tally(v@, ks)
        }
    }
}

fn coord_ok(v: Option<i32>) -> (r: bool)
    ensures
        r == plausible_coord(v),
{
    match v {
        Some(x) => -50_000 <= x && x <= 50_000,
        None => true,
    }
}

/// Recovers arcs by scanning every offset of the file for the shape of an
/// arc record: the arc fields of a record, and two end points within
/// ±50000. A second tally, of the records whose end points lie within 220
/// of both nodes, is never larger than this one (its keys are a subset), so
/// the whole tally is the result.
pub fn parse_arcs_by_signature(bytes: &[u8], places: usize, transitions: usize) -> (r: Option<Vec<LegacyArcRecord>>)
    requires
        bytes@.len() <= u32::MAX,
    ensures
        signature_arcs_ok(r, bytes@, places, transitions),
{
    if bytes.len() < 64 || places == 0 || transitions == 0 {
        return None;
    }
    let n = bytes.len() - 64;
    let mut out: Vec<LegacyArcRecord> = Vec::new();
    let ghost mut ks: Seq<ArcKey> = Seq::empty();
    let mut off: usize = 0;
    while off < n
        invariant
            off <= n,
            n + 64 == bytes@.len(),
            bytes@.len() <= u32::MAX,
            ks == signature_keys(bytes@, off as nat, places, transitions),
            ks.len() <= off,
            is_tally(out@, ks),
        decreases n - off,
    {
        let key = if coord_ok(read_i32(bytes, off + 40)) && coord_ok(read_i32(bytes, off + 44)) && coord_ok(
            read_i32(bytes, off + 56),
        ) && coord_ok(read_i32(bytes, off + 60)) {
            key_of_record(
                read_i32(bytes, off + 24),
                read_i32(bytes, off + 28),
                read_i32(bytes, off + 32),
                read_i32(bytes, off + 36),
                places,
                transitions,
            )
        } else {
            None
        };
        match key {
            Some(k) => {
                add_to_tally(&mut out, k, Ghost(ks));
                proof {
                    ks = ks.push(k);
                }
            },
            None => {},
        }
        off = off + 1;
    }
    if out.len() == 0 {
        proof {
            if ks.len() > 0 {
                assert(has_key(out@, ks[0]));
            }
        }
        return None;
    }
    proof {
        if ks.len() == 0 {
            assert(key_count(ks, arc_key(out@[0])) == 0);
        }
    }
    Some(out)
}

/// The arcs and inhibitor arcs that the grouped legacy records give, between
/// the places and transitions with ids `pids` and `tids` at the records'
/// rows and columns, each kind numbered from 1; records past the counts are
/// skipped.
pub open spec fn legacy_arcs_written(recs: Seq<LegacyArcRecord>, pids: Seq<u64>, tids: Seq<u64>) -> (Seq<Arc>, Seq<InhibitorArc>)
    decreases recs.len(),
{
    if recs.len() == 0 {
        (Seq::empty(), Seq::empty())
    } else {
        let prev = legacy_arcs_written(recs.drop_last(), pids, tids);
        let r = recs.last();
        if r.place_idx >= pids.len() || r.transition_idx >= tids.len() {
            prev
        } else {
            let pid = pids[r.place_idx as int];
            let tid = tids[r.transition_idx as int];
            if r.inhibitor {
                (
                    prev.0,
                    prev.1.push(
                        InhibitorArc {
                            id: sat_u64(prev.1.len() + 1),
                            place_id: pid,
                            transition_id: tid,
                            threshold: at_least_one(r.weight),
                            show_weight: false,
                            color: NodeColor::Red,
                            visible: true,
                        },
                    ),
                )
            } else {
                (
                    prev.0.push(
                        Arc {
                            id: sat_u64(prev.0.len() + 1),
                            from: if r.place_to_transition {
                                NodeRef::Place(pid)
                            } else {
                                NodeRef::Transition(tid)
                            },
                            to: if r.place_to_transition {
                                NodeRef::Transition(tid)
                            } else {
                                NodeRef::Place(pid)
                            },
                            weight: at_least_one(r.weight),
                            color: NodeColor::Default,
                            visible: true,
                            show_weight: false,
                        },
                    ),
                    prev.1,
                )
            }
        }
    }
}

/// Replaces the net's arcs by those of the grouped legacy records and
/// rebuilds the matrices.
pub fn apply_legacy_arcs(model: &mut PetriNetModel, arcs: &[LegacyArcRecord])
    ensures
        rebuilt_with(
            *final(model),
            *old(model),
            legacy_arcs_written(arcs@, old(model).pids(), old(model).tids()).0,
            legacy_arcs_written(arcs@, old(model).pids(), old(model).tids()).1,
        ),
{
    let mut out_arcs: Vec<Arc> = Vec::new();
    let mut out_inhs: Vec<InhibitorArc> = Vec::new();
    let mut next_arc_id: u64 = 1;
    let mut next_inh_id: u64 = 1;
    let ghost pids = model.pids();
    let ghost tids = model.tids();
    let mut k: usize = 0;
    while k < arcs.len()
        invariant
            k <= arcs@.len(),
            pids == model.pids(),
            tids == model.tids(),
            out_arcs@ == legacy_arcs_written(arcs@.take(k as int), pids, tids).0,
            out_inhs@ == legacy_arcs_written(arcs@.take(k as int), pids, tids).1,
            next_arc_id == sat_u64(out_arcs@.len() + 1),
            next_inh_id == sat_u64(out_inhs@.len() + 1),
        decreases arcs@.len() - k,
    {
        let r = arcs[k];
        proof {
            assert(arcs@.take(k + 1).drop_last() == arcs@.take(k as int));
            assert(arcs@.take(k + 1).last() == r);
        }
        if r.place_idx < model.places.len() && r.transition_idx < model.transitions.len() {
            let place_id = model.places[r.place_idx].id;
            let transition_id = model.transitions[r.transition_idx].id;
            let w = if r.weight == 0 { 1 } else { r.weight };
            if r.inhibitor {
                out_inhs.push(
                    InhibitorArc {
                        id: next_inh_id,
                        place_id,
                        transition_id,
                        threshold: w,
                        show_weight: false,
                        color: NodeColor::Red,
                        visible: true,
                    },
                );
                next_inh_id = next_inh_id.saturating_add(1);
            } else {
                let (from, to) = if r.place_to_transition {
                    (NodeRef::Place(place_id), NodeRef::Transition(transition_id))
                } else {
                    (NodeRef::Transition(transition_id), NodeRef::Place(place_id))
                };
                out_arcs.push(
                    Arc {
                        id: next_arc_id,
                        from,
                        to,
                        weight: w,
                        color: NodeColor::Default,
                        visible: true,
                        show_weight: false,
                    },
                );
                next_arc_id = next_arc_id.saturating_add(1);
            }
        }
        k = k + 1;
    }
    proof {
        assert(arcs@.take(arcs@.len() as int) == arcs@);
    }
    model.arcs = out_arcs;
    model.inhibitor_arcs = out_inhs;
    model.rebuild_matrices_from_arcs();
}

/// The entries of `s` whose flag in `keep` is set, in order.
pub open spec fn select<T>(s: Seq<T>, keep: Seq<bool>) -> Seq<T>
    decreases s.len(),
{
    if s.len() == 0 {
        Seq::empty()
    } else {
        let prev = select(s.drop_last(), keep);
        if keep[s.len() - 1] {
            prev.push(s.last())
        } else {
            prev
        }
    }
}

/// The row of the place end of an arc (the last row of its id), -1 when
/// absent or when the arc does not join a place and a transition.
pub open spec fn arc_place_row(a: Arc, pids: Seq<u64>) -> int {
    match arc_link(a) {
        Some((p, _, _)) => last_index(pids, p),
        None => -1,
    }
}

/// The column of the transition end of an arc, -1 when absent.
pub open spec fn arc_transition_col(a: Arc, tids: Seq<u64>) -> int {
    match arc_link(a) {
        Some((_, t, _)) => last_index(tids, t),
        None => -1,
    }
}

/// Some arc or inhibitor arc has its place end at row `i` (the last row of its id).
pub open spec fn place_touched(arcs: Seq<Arc>, inhs: Seq<InhibitorArc>, pids: Seq<u64>, i: int) -> bool {
    ||| exists|k: int| 0 <= k < arcs.len() && #[trigger] arc_place_row(arcs[k], pids) == i
    ||| exists|k: int| 0 <= k < inhs.len() && last_index(pids, (#[trigger] inhs[k]).place_id) == i
}

/// Some arc or inhibitor arc has its transition end at column `i`.
pub open spec fn transition_touched(arcs: Seq<Arc>, inhs: Seq<InhibitorArc>, tids: Seq<u64>, i: int) -> bool {
    ||| exists|k: int| 0 <= k < arcs.len() && #[trigger] arc_transition_col(arcs[k], tids) == i
    ||| exists|k: int| 0 <= k < inhs.len() && last_index(tids, (#[trigger] inhs[k]).transition_id) == i
}

/// Which nodes survive: those touched by an arc, and the untouched ones
/// with no touched node at the same point.
pub open spec fn survivors(touched: spec_fn(int) -> bool, xy: Seq<(i64, i64)>) -> Seq<bool> {
    Seq::new(
        xy.len(),
        |i: int| touched(i) || !exists|j: int| 0 <= j < xy.len() && j != i && touched(j) && xy[j] == xy[i],
    )
}

/// The places that `prune_legacy_ghost_nodes` keeps.
pub open spec fn kept_places(m: PetriNetModel, xy: Seq<(i64, i64)>) -> Seq<bool> {
    survivors(|i: int| place_touched(m.arcs@, m.inhibitor_arcs@, m.pids(), i), xy)
}

/// The transitions that `prune_legacy_ghost_nodes` keeps.
pub open spec fn kept_transitions(m: PetriNetModel, xy: Seq<(i64, i64)>) -> Seq<bool> {
    survivors(|i: int| transition_touched(m.arcs@, m.inhibitor_arcs@, m.tids(), i), xy)
}

/// Every flag is set.
pub open spec fn all_set(keep: Seq<bool>) -> bool {
    forall|i: int| 0 <= i < keep.len() ==> keep[i]
}

fn mark_touched(model: &PetriNetModel, pmap: &HashMap<u64, usize>, tmap: &HashMap<u64, usize>) -> (r: (Vec<bool>, Vec<bool>))
    requires
        is_last_index_map(pmap@, model.pids()),
        is_last_index_map(tmap@, model.tids()),
    ensures
        r.0@.len() == model.places@.len(),
        r.1@.len() == model.transitions@.len(),
        forall|i: int| 0 <= i < model.places@.len() ==> #[trigger] r.0@[i] == place_touched(
            model.arcs@,
            model.inhibitor_arcs@,
            model.pids(),
            i,
        ),
        forall|i: int| 0 <= i < model.transitions@.len() ==> #[trigger] r.1@[i] == transition_touched(
            model.arcs@,
            model.inhibitor_arcs@,
            model.tids(),
            i,
        ),
{
    let ghost pids = model.pids();
    let ghost tids = model.tids();
    let ghost arcs = model.arcs@;
    let ghost inhs = model.inhibitor_arcs@;
    let np = model.places.len();
    let nt = model.transitions.len();
    let mut tp: Vec<bool> = Vec::new();
    let mut tt: Vec<bool> = Vec::new();
    crate::model::resize_vec(&mut tp, np, false);
    crate::model::resize_vec(&mut tt, nt, false);
    let mut k: usize = 0;
    while k < model.arcs.len()
        invariant
            k <= arcs.len(),
            arcs == model.arcs@,
            pids == model.pids(),
            tids == model.tids(),
            pids.len() == np,
            tids.len() == nt,
            is_last_index_map(pmap@, pids),
            is_last_index_map(tmap@, tids),
            tp@.len() == np,
            tt@.len() == nt,
            forall|i: int| 0 <= i < np ==> #[trigger] tp@[i] == exists|q: int| 0 <= q < k && #[trigger] arc_place_row(arcs[q], pids) == i,
            forall|i: int| 0 <= i < nt ==> #[trigger] tt@[i] == exists|q: int| 0 <= q < k && #[trigger] arc_transition_col(arcs[q], tids) == i,
        decreases arcs.len() - k,
    {
        let a = model.arcs[k];
        let ends: Option<(u64, u64)> = match (a.from, a.to) {
            (NodeRef::Place(p), NodeRef::Transition(t)) => Some((p, t)),
            (NodeRef::Transition(t), NodeRef::Place(p)) => Some((p, t)),
            _ => None,
        };
        match ends {
            Some((pid, tid)) => {
                proof {
                    lemma_last_index(pids, pid);
                    lemma_last_index(tids, tid);
                }
                match pmap.get(&pid) {
                    Some(pi) => {
                        tp.set(*pi, true);
                    },
                    None => {},
                }
                match tmap.get(&tid) {
                    Some(ti) => {
                        tt.set(*ti, true);
                    },
                    None => {},
                }
            },
            None => {},
        }
        proof {
            assert forall|i: int| 0 <= i < np implies #[trigger] tp@[i] == exists|q: int| 0 <= q < k + 1 && #[trigger] arc_place_row(arcs[q], pids) == i by {
                if arc_place_row(arcs[k as int], pids) == i {
                    assert(0 <= k < k + 1);
                }
            }
            assert forall|i: int| 0 <= i < nt implies #[trigger] tt@[i] == exists|q: int| 0 <= q < k + 1 && #[trigger] arc_transition_col(arcs[q], tids) == i by {
                if arc_transition_col(arcs[k as int], tids) == i {
                    assert(0 <= k < k + 1);
                }
            }
        }
        k = k + 1;
    }
    let ghost tp_arcs = tp@;
    let ghost tt_arcs = tt@;
    let mut j: usize = 0;
    while j < model.inhibitor_arcs.len()
        invariant
            j <= inhs.len(),
            inhs == model.inhibitor_arcs@,
            pids.len() == np,
            tids.len() == nt,
            is_last_index_map(pmap@, pids),
            is_last_index_map(tmap@, tids),
            tp@.len() == np,
            tt@.len() == nt,
            forall|i: int| 0 <= i < np ==> #[trigger] tp@[i] == (tp_arcs[i] || exists|q: int| 0 <= q < j && last_index(pids, (#[trigger] inhs[q]).place_id) == i),
            forall|i: int| 0 <= i < nt ==> #[trigger] tt@[i] == (tt_arcs[i] || exists|q: int| 0 <= q < j && last_index(tids, (#[trigger] inhs[q]).transition_id) == i),
        decreases inhs.len() - j,
    {
        let a = model.inhibitor_arcs[j];
        proof {
            lemma_last_index(pids, a.place_id);
            lemma_last_index(tids, a.transition_id);
        }
        match pmap.get(&a.place_id) {
            Some(pi) => {
                tp.set(*pi, true);
            },
            None => {},
        }
        match tmap.get(&a.transition_id) {
            Some(ti) => {
                tt.set(*ti, true);
            },
            None => {},
        }
        proof {
            assert forall|i: int| 0 <= i < np implies #[trigger] tp@[i] == (tp_arcs[i] || exists|q: int| 0 <= q < j + 1 && last_index(pids, (#[trigger] inhs[q]).place_id) == i) by {
                if last_index(pids, inhs[j as int].place_id) == i {
                    assert(0 <= j < j + 1);
                }
            }
            assert forall|i: int| 0 <= i < nt implies #[trigger] tt@[i] == (tt_arcs[i] || exists|q: int| 0 <= q < j + 1 && last_index(tids, (#[trigger] inhs[q]).transition_id) == i) by {
                if last_index(tids, inhs[j as int].transition_id) == i {
                    assert(0 <= j < j + 1);
                }
            }
        }
        j = j + 1;
    }
    (tp, tt)
}

/// Which nodes survive, given which are touched and where they stand.
fn survivor_flags(touched: &Vec<bool>, xy: &Vec<(i64, i64)>) -> (keep: Vec<bool>)
    requires
        touched@.len() == xy@.len(),
    ensures
        keep@ == survivors(|i: int| touched@[i], xy@),
{
    let n = xy.len();
    let mut keep: Vec<bool> = Vec::new();
    let mut i: usize = 0;
    while i < n
        invariant
            i <= n,
            n == xy@.len(),
            touched@.len() == n,
            keep@ == survivors(|q: int| touched@[q], xy@).take(i as int),
        decreases n - i,
    {
        let mut dup = false;
        if !touched[i] {
            let mut j: usize = 0;
            while j < n
                invariant
                    j <= n,
                    n == xy@.len(),
                    touched@.len() == n,
                    i < n,
                    dup == exists|q: int| 0 <= q < j && q != i && touched@[q] && xy@[q] == xy@[i as int],
                decreases n - j,
            {
                if j != i && touched[j] && xy[j].0 == xy[i].0 && xy[j].1 == xy[i].1 {
                    dup = true;
                }
                proof {
                    if dup && !(j != i && touched@[j as int] && xy@[j as int] == xy@[i as int]) {
                        let q = choose|q: int| 0 <= q < j && q != i && touched@[q] && xy@[q] == xy@[i as int];
                        assert(0 <= q < j + 1);
                    }
                    if j != i && touched@[j as int] && xy@[j as int] == xy@[i as int] {
                        assert(0 <= j < j + 1);
                    }
                }
                j = j + 1;
            }
        }
        let k = touched[i] || !dup;
        proof {
            let sv = survivors(|q: int| touched@[q], xy@);
            assert(sv[i as int] == k);
            assert(sv.take(i + 1) == sv.take(i as int).push(k));
        }
        keep.push(k);
        i = i + 1;
    }
    proof {
        assert(survivors(|q: int| touched@[q], xy@).take(n as int) == survivors(|q: int| touched@[q], xy@));
    }
    keep
}

proof fn lemma_select_step<T>(s: Seq<T>, keep: Seq<bool>, i: int)
    requires
        0 <= i < s.len(),
    ensures
        select(s.take(i + 1), keep) == (if keep[i] {
            select(s.take(i), keep).push(s[i])
        } else {
            select(s.take(i), keep)
        }),
{
    assert(s.take(i + 1).drop_last() == s.take(i));
    assert(s.take(i + 1).last() == s[i]);
}

/// The kept entries of `v` padded or cut to `n` with `fill`.
fn select_copies<T: Copy>(v: &Vec<T>, n: usize, fill: T, keep: &Vec<bool>) -> (r: Vec<T>)
    requires
        keep@.len() == n,
    ensures
        r@ == select(resized(v@, n as nat, fill), keep@),
{
    let ghost full = resized(v@, n as nat, fill);
    let mut r: Vec<T> = Vec::new();
    let mut i: usize = 0;
    while i < n
        invariant
            i <= n,
            keep@.len() == n,
            full == resized(v@, n as nat, fill),
            r@ == select(full.take(i as int), keep@),
        decreases n - i,
    {
        proof {
            lemma_select_step(full, keep@, i as int);
        }
        if keep[i] {
            let x = if i < v.len() { v[i] } else { fill };
            r.push(x);
        }
        i = i + 1;
    }
    proof {
        assert(full.take(n as int) == full);
    }
    r
}

fn select_places(v: &mut Vec<Place>, keep: &Vec<bool>) -> (r: Vec<Place>)
    requires
        keep@.len() == old(v)@.len(),
    ensures
        r@ == select(old(v)@, keep@),
{
    let ghost orig = v@;
    let n = v.len();
    let mut r: Vec<Place> = Vec::new();
    let mut i: usize = 0;
    while i < n
        invariant
            i <= n,
            n == orig.len(),
            v@.len() == n,
            keep@.len() == n,
            forall|k: int| i <= k < n ==> #[trigger] v@[k] == orig[k],
            r@ == select(orig.take(i as int), keep@),
        decreases n - i,
    {
        proof {
            lemma_select_step(orig, keep@, i as int);
        }
        if keep[i] {
            let mut p = Place::new_default(0, String::new(), [0, 0]);
            std::mem::swap(&mut p, &mut v[i]);
            r.push(p);
        }
        i = i + 1;
    }
    proof {
        assert(orig.take(n as int) == orig);
    }
    r
}

fn select_transitions(v: &mut Vec<Transition>, keep: &Vec<bool>) -> (r: Vec<Transition>)
    requires
        keep@.len() == old(v)@.len(),
    ensures
        r@ == select(old(v)@, keep@),
{
    let ghost orig = v@;
    let n = v.len();
    let mut r: Vec<Transition> = Vec::new();
    let mut i: usize = 0;
    while i < n
        invariant
            i <= n,
            n == orig.len(),
            v@.len() == n,
            keep@.len() == n,
            forall|k: int| i <= k < n ==> #[trigger] v@[k] == orig[k],
            r@ == select(orig.take(i as int), keep@),
        decreases n - i,
    {
        proof {
            lemma_select_step(orig, keep@, i as int);
        }
        if keep[i] {
            let mut t = Transition::new_default(0, String::new(), [0, 0]);
            std::mem::swap(&mut t, &mut v[i]);
            r.push(t);
        }
        i = i + 1;
    }
    proof {
        assert(orig.take(n as int) == orig);
    }
    r
}

fn all_true(v: &Vec<bool>) -> (r: bool)
    ensures
        r == all_set(v@),
{
    let mut i: usize = 0;
    while i < v.len()
        invariant
            i <= v@.len(),
            forall|k: int| 0 <= k < i ==> v@[k],
        decreases v@.len() - i,
    {
        if !v[i] {
            return false;
        }
        i = i + 1;
    }
    true
}

/// `m` is `old` with the nodes flagged in `kp` and `kt` kept, their table
/// entries moved along (missing entries read as 0 tokens, no capacity, no
/// delay and priority 1), the arcs whose ends are gone dropped, and the
/// matrices rebuilt.
pub open spec fn pruned_from(m: PetriNetModel, old: PetriNetModel, kp: Seq<bool>, kt: Seq<bool>) -> bool {
    let np = old.places@.len();
    let nt = old.transitions@.len();
    &&& m.format_version == old.format_version
    &&& m.meta == old.meta
    &&& m.ui == old.ui
    &&& m.places@ == select(old.places@, kp)
    &&& m.transitions@ == select(old.transitions@, kt)
    &&& m.arcs@ == old.arcs@.filter(|a: Arc| arc_is_linked(a, m.pids(), m.tids()))
    &&& m.inhibitor_arcs@ == old.inhibitor_arcs@.filter(|a: InhibitorArc| inhibitor_is_linked(a, m.pids(), m.tids()))
    &&& m.tables.m0@ == select(resized(old.tables.m0@, np, 0u32), kp)
    &&& m.tables.mo@ == select(resized(old.tables.mo@, np, None::<u32>), kp)
    &&& m.tables.mz@ == select(resized(old.tables.mz@, np, 0u64), kp)
    &&& m.tables.mpr@ == select(resized(old.tables.mpr@, nt, 1i32), kt)
    &&& m.tables.has_shape(m.places@.len(), m.transitions@.len())
    &&& m.matrices_match_arcs()
}

/// What `prune_legacy_ghost_nodes` makes of `old`: nothing changes when a
/// kind of node is missing or every node survives, else `pruned_from`.
pub open spec fn ghosts_pruned(m: PetriNetModel, old: PetriNetModel, place_xy: Seq<(i64, i64)>, transition_xy: Seq<(i64, i64)>) -> bool {
    let kp = kept_places(old, place_xy);
    let kt = kept_transitions(old, transition_xy);
    if old.places@.len() == 0 || old.transitions@.len() == 0 || (all_set(kp) && all_set(kt)) {
        m == old
    } else {
        pruned_from(m, old, kp, kt)
    }
}

/// Removes nodes that no arc touches when a touched node of the same kind
/// stands at the same point: leftovers of legacy files that store a node
/// twice. `place_xy` and `transition_xy` are the integer coordinates of the
/// nodes' positions; for integer coordinates below 2^23 the binary32 test
/// `dx * dx + dy * dy <= 0.25` holds exactly when the points coincide.
pub fn prune_legacy_ghost_nodes(model: &mut PetriNetModel, place_xy: &Vec<(i64, i64)>, transition_xy: &Vec<(i64, i64)>)
    requires
        place_xy@.len() == old(model).places@.len(),
        transition_xy@.len() == old(model).transitions@.len(),
        forall|i: int| 0 <= i < place_xy@.len() ==> {
            &&& crate::ieee::f32_denotes_int((#[trigger] old(model).places@[i]).pos[0], place_xy@[i].0 as int)
            &&& crate::ieee::f32_denotes_int(old(model).places@[i].pos[1], place_xy@[i].1 as int)
        },
        forall|i: int| 0 <= i < transition_xy@.len() ==> {
            &&& crate::ieee::f32_denotes_int((#[trigger] old(model).transitions@[i]).pos[0], transition_xy@[i].0 as int)
            &&& crate::ieee::f32_denotes_int(old(model).transitions@[i].pos[1], transition_xy@[i].1 as int)
        },
    ensures
        ghosts_pruned(*final(model), *old(model), place_xy@, transition_xy@),
{
    let np = model.places.len();
    let nt = model.transitions.len();
    if np == 0 || nt == 0 {
        return;
    }
    let pmap = model.place_index_map();
    let tmap = model.transition_index_map();
    let (tp, tt) = mark_touched(model, &pmap, &tmap);
    let keep_p = survivor_flags(&tp, place_xy);
    let keep_t = survivor_flags(&tt, transition_xy);
    proof {
        assert(keep_p@ =~= kept_places(*model, place_xy@));
        assert(keep_t@ =~= kept_transitions(*model, transition_xy@));
    }
    if all_true(&keep_p) && all_true(&keep_t) {
        return;
    }
    let ghost old_model = *model;
    let new_places = select_places(&mut model.places, &keep_p);
    let new_transitions = select_transitions(&mut model.transitions, &keep_t);
    let m0 = select_copies(&model.tables.m0, np, 0u32, &keep_p);
    let mo = select_copies(&model.tables.mo, np, None, &keep_p);
    let mz = select_copies(&model.tables.mz, np, 0u64, &keep_p);
    let mpr = select_copies(&model.tables.mpr, nt, 1i32, &keep_t);
    model.places = new_places;
    model.transitions = new_transitions;
    model.tables.m0 = m0;
    model.tables.mo = mo;
    model.tables.mz = mz;
    model.tables.mpr = mpr;
    proof {
        lemma_select_len(old_model.places@, keep_p@);
        lemma_select_len(old_model.transitions@, keep_t@);
        lemma_select_len(resized(old_model.tables.m0@, np as nat, 0u32), keep_p@);
        lemma_select_len(resized(old_model.tables.mo@, np as nat, None::<u32>), keep_p@);
        lemma_select_len(resized(old_model.tables.mz@, np as nat, 0u64), keep_p@);
        lemma_select_len(resized(old_model.tables.mpr@, nt as nat, 1i32), keep_t@);
    }
    let ghost mid = model.tables;
    model.rebuild_matrices_from_arcs();
    proof {
        assert(model.tables.m0@ =~= mid.m0@);
        assert(model.tables.mo@ =~= mid.mo@);
        assert(model.tables.mz@ =~= mid.mz@);
        assert(model.tables.mpr@ =~= mid.mpr@);
    }
}

/// `select` keeps as many entries as there are set flags, so the same count
/// for two sequences of equal length.
proof fn lemma_select_len<T>(s: Seq<T>, keep: Seq<bool>)
    requires
        s.len() <= keep.len(),
    ensures
        select(s, keep).len() == keep.take(s.len() as int).filter(|b: bool| b).len(),
    decreases s.len(),
{
    reveal(Seq::filter);
    if s.len() > 0 {
        lemma_select_len(s.drop_last(), keep);
        assert(keep.take(s.len() as int).drop_last() == keep.take(s.len() - 1));
    }
}

/// What `str::to_lowercase` gives for a string.
pub uninterp spec fn lowercase(s: Seq<char>) -> Seq<char>;

/// std's `str::to_lowercase`: its result is named `lowercase` of the
/// characters, which it depends on alone.
#[verifier::external_body]
fn to_lowercase(s: &str) -> (r: String)
    ensures
        r@ == lowercase(s@),
{
    s.to_lowercase()
}

/// `pat` occurs in `s` as a contiguous run.
pub open spec fn has_infix(s: Seq<char>, pat: Seq<char>) -> bool {
    exists|i: int| 0 <= i && i + pat.len() <= s.len() && #[trigger] s.subrange(i, i + pat.len()) == pat
}

/// Whether `pat` occurs in `s`.
fn contains_infix(s: &Vec<char>, pat: &Vec<char>) -> (r: bool)
    ensures
        r == has_infix(s@, pat@),
{
    if pat.len() == 0 {
        proof {
            let z: int = 0;
            assert(s@.subrange(z, z + pat@.len()) =~= pat@);
        }
        return true;
    }
    if pat.len() > s.len() {
        return false;
    }
    let sl = s.len();
    let last = s.len() - pat.len();
    let mut i: usize = 0;
    while i < last + 1
        invariant
            sl == s@.len(),
            last + pat@.len() == s@.len(),
            pat@.len() > 0,
            i <= last + 1,
            forall|q: int| 0 <= q < i ==> #[trigger] s@.subrange(q, q + pat@.len()) != pat@,
        decreases last + 1 - i,
    {
        let mut j: usize = 0;
        let mut same = true;
        while j < pat.len()
            invariant
                sl == s@.len(),
                j <= pat@.len(),
                i <= last,
                last + pat@.len() == s@.len(),
                same == forall|q: int| 0 <= q < j ==> s@[i + q] == pat@[q],
            decreases pat@.len() - j,
        {
            if s[i + j] != pat[j] {
                same = false;
            }
            j = j + 1;
        }
        proof {
            if same {
                assert(s@.subrange(i as int, i + pat@.len()) =~= pat@);
            } else {
                let q = choose|q: int| 0 <= q < pat@.len() && s@[i + q] != pat@[q];
                assert(s@.subrange(i as int, i + pat@.len())[q] != pat@[q]);
            }
        }
        if same {
            return true;
        }
        i = i + 1;
    }
    false
}

/// The characters of "свобод" ("free" in Russian).
pub open spec fn free_ru() -> Seq<char> {
    seq!['с', 'в', 'о', 'б', 'о', 'д']
}

/// The characters of "free".
pub open spec fn free_en() -> Seq<char> {
    seq!['f', 'r', 'e', 'e']
}

/// How many of the first `n` entries of `row` are positive.
pub open spec fn positive_count(row: Seq<u32>, n: nat) -> nat
    decreases n,
{
    if n == 0 {
        0
    } else {
        positive_count(row, (n - 1) as nat) + if row[n - 1] > 0 {
            1nat
        } else {
            0nat
        }
    }
}

/// Place `p` looks like a free single resource: its lower-cased name
/// mentions "свобод" or "free", it starts with exactly one token, at least
/// three transitions consume from it and at least one returns to it.
pub open spec fn free_resource(m: PetriNetModel, p: int) -> bool {
    let name = lowercase(m.places@[p].name@);
    let nt = m.transitions@.len();
    &&& has_infix(name, free_ru()) || has_infix(name, free_en())
    &&& (if p < m.tables.m0@.len() { m.tables.m0@[p] } else { 0 }) == 1
    &&& positive_count(m.tables.pre@[p]@, nt) >= 3
    &&& positive_count(m.tables.post@[p]@, nt) >= 1
}

/// The `Post` entry after the read-arc heuristic: a consuming arc from a
/// free resource with no returning arc gets one of the same weight.
pub open spec fn read_arc_post(m: PetriNetModel, p: int, t: int) -> u32 {
    if free_resource(m, p) && m.tables.pre@[p]@[t] > 0 && m.tables.post@[p]@[t] == 0 {
        m.tables.pre@[p]@[t]
    } else {
        m.tables.post@[p]@[t]
    }
}

/// The heuristic changes some entry.
pub open spec fn read_arcs_needed(m: PetriNetModel) -> bool {
    exists|p: int, t: int|
        0 <= p < m.places@.len() && 0 <= t < m.transitions@.len() && #[trigger] read_arc_post(m, p, t)
            != m.tables.post@[p]@[t]
}

fn count_positive(row: &Vec<u32>, n: usize) -> (c: usize)
    requires
        n <= row@.len(),
    ensures
        c == positive_count(row@, n as nat),
        c <= n,
{
    let mut c: usize = 0;
    let mut i: usize = 0;
    while i < n
        invariant
            i <= n,
            n <= row@.len(),
            c == positive_count(row@, i as nat),
            c <= i,
        decreases n - i,
    {
        if row[i] > 0 {
            c = c + 1;
        }
        i = i + 1;
    }
    c
}

/// What `apply_legacy_read_arc_heuristics` makes of `old`.
pub open spec fn read_arcs_applied(m: PetriNetModel, old: PetriNetModel) -> bool {
    &&& (old.places@.len() == 0 || old.transitions@.len() == 0 || !read_arcs_needed(old)
            ==> m == old)
    &&& (old.places@.len() > 0 && old.transitions@.len() > 0 && read_arcs_needed(old) ==> {
            &&& m.format_version == old.format_version
            &&& m.meta == old.meta
            &&& m.ui == old.ui
            &&& m.places == old.places
            &&& m.transitions == old.transitions
            &&& m.tables.m0 == old.tables.m0
            &&& m.tables.mo == old.tables.mo
            &&& m.tables.mz == old.tables.mz
            &&& m.tables.mpr == old.tables.mpr
            &&& m.tables.pre == old.tables.pre
            &&& m.tables.inhibitor == old.tables.inhibitor
            &&& m.tables.post@.len() == old.tables.post@.len()
            &&& forall|p: int, t: int|
                0 <= p < m.tables.post@.len() && 0 <= t < m.tables.post@[p]@.len()
                    ==> #[trigger] m.tables.post@[p]@[t] == (if p < old.places@.len() && t
                    < old.transitions@.len() {
                    read_arc_post(old, p, t)
                } else {
                    old.tables.post@[p]@[t]
                })
            &&& forall|p: int| 0 <= p < m.tables.post@.len() ==> (#[trigger] m.tables.post@[p])@.len()
                == old.tables.post@[p]@.len()
            &&& m.arcs@ == crate::model::table_arcs(
                m.tables,
                old.pids(),
                old.tids(),
                old.places@.len(),
            ).0
            &&& m.inhibitor_arcs@ == crate::model::table_arcs(
                m.tables,
                old.pids(),
                old.tids(),
                old.places@.len(),
            ).1
        })
}

/// Legacy files may model a free resource with ordinary arcs where a read
/// arc is meant; for places that look like one (`free_resource`), every
/// consuming arc without a returning one gets a returning arc of the same
/// weight, and the arcs are rebuilt from the tables when anything changed.
pub fn apply_legacy_read_arc_heuristics(model: &mut PetriNetModel)
    requires
        crate::model::covers(old(model).tables.pre@, old(model).places@.len(), old(model).transitions@.len()),
        crate::model::covers(old(model).tables.post@, old(model).places@.len(), old(model).transitions@.len()),
        crate::model::covers(old(model).tables.inhibitor@, old(model).places@.len(), old(model).transitions@.len()),
    ensures
        read_arcs_applied(*final(model), *old(model)),
{
    let np = model.places.len();
    let nt = model.transitions.len();
    if np == 0 || nt == 0 {
        return;
    }
    let ghost orig = *model;
    let ru: Vec<char> = vec!['с', 'в', 'о', 'б', 'о', 'д'];
    let en: Vec<char> = vec!['f', 'r', 'e', 'e'];
    proof {
        assert(ru@ =~= free_ru());
        assert(en@ =~= free_en());
    }
    let mut changed = false;
    let mut p: usize = 0;
    while p < np
        invariant
            p <= np,
            np == orig.places@.len(),
            nt == orig.transitions@.len(),
            np > 0 && nt > 0,
            ru@ == free_ru(),
            en@ == free_en(),
            model.format_version == orig.format_version,
            model.meta == orig.meta,
            model.ui == orig.ui,
            model.places == orig.places,
            model.transitions == orig.transitions,
            model.arcs == orig.arcs,
            model.inhibitor_arcs == orig.inhibitor_arcs,
            model.tables.m0 == orig.tables.m0,
            model.tables.mo == orig.tables.mo,
            model.tables.mz == orig.tables.mz,
            model.tables.mpr == orig.tables.mpr,
            model.tables.pre == orig.tables.pre,
            model.tables.inhibitor == orig.tables.inhibitor,
            crate::model::covers(orig.tables.pre@, np as nat, nt as nat),
            crate::model::covers(orig.tables.post@, np as nat, nt as nat),
            crate::model::covers(orig.tables.inhibitor@, np as nat, nt as nat),
            model.tables.post@.len() == orig.tables.post@.len(),
            forall|q: int| 0 <= q < model.tables.post@.len() ==> (#[trigger] model.tables.post@[q])@.len()
                == orig.tables.post@[q]@.len(),
            forall|q: int, t: int|
                0 <= q < model.tables.post@.len() && 0 <= t < model.tables.post@[q]@.len()
                    ==> #[trigger] model.tables.post@[q]@[t] == (if q < p && t < nt {
                    read_arc_post(orig, q, t)
                } else {
                    orig.tables.post@[q]@[t]
                }),
            changed == exists|q: int, t: int| 0 <= q < p && 0 <= t < nt && #[trigger] read_arc_post(orig, q, t)
                != orig.tables.post@[q]@[t],
            !changed ==> model.tables.post == orig.tables.post,
        decreases np - p,
    {
        proof {
            let _ = orig.tables.pre@[p as int];
            let _ = orig.tables.post@[p as int];
        }
        let lower = to_lowercase(model.places[p].name.as_str());
        let name = crate::text::chars_of(lower.as_str());
        let looks_free = contains_infix(&name, &ru) || contains_infix(&name, &en);
        let one_token = (if p < model.tables.m0.len() { model.tables.m0[p] } else { 0 }) == 1;
        let mut free = false;
        if looks_free && one_token {
            let outgoing = count_positive(&model.tables.pre[p], nt);
            let incoming = count_positive(&model.tables.post[p], nt);
            free = outgoing >= 3 && incoming > 0;
        }
        proof {
            assert(model.tables.post@[p as int]@ =~= orig.tables.post@[p as int]@);
            assert(name@ == lowercase(orig.places@[p as int].name@));
            assert(free == free_resource(orig, p as int));
        }
        if free {
            let ghost row0 = orig.tables.post@[p as int]@;
            proof {
                assert(model.tables.post@[p as int]@ =~= row0);
            }
            let mut t: usize = 0;
            while t < nt
                invariant
                    t <= nt,
                    np == orig.places@.len(),
                    nt == orig.transitions@.len(),
                    p < np,
                    nt <= row0.len(),
                    row0 == orig.tables.post@[p as int]@,
                    free_resource(orig, p as int),
                    crate::model::covers(orig.tables.pre@, np as nat, nt as nat),
                    crate::model::covers(orig.tables.post@, np as nat, nt as nat),
                    model.format_version == orig.format_version,
                    model.meta == orig.meta,
                    model.ui == orig.ui,
                    model.places == orig.places,
                    model.transitions == orig.transitions,
                    model.arcs == orig.arcs,
                    model.inhibitor_arcs == orig.inhibitor_arcs,
                    model.tables.m0 == orig.tables.m0,
                    model.tables.mo == orig.tables.mo,
                    model.tables.mz == orig.tables.mz,
                    model.tables.mpr == orig.tables.mpr,
                    model.tables.pre == orig.tables.pre,
                    model.tables.inhibitor == orig.tables.inhibitor,
                    model.tables.post@.len() == orig.tables.post@.len(),
                    forall|q: int| 0 <= q < model.tables.post@.len() ==> (#[trigger] model.tables.post@[q])@.len()
                        == orig.tables.post@[q]@.len(),
                    forall|q: int, k: int|
                        0 <= q < model.tables.post@.len() && 0 <= k < model.tables.post@[q]@.len()
                            ==> #[trigger] model.tables.post@[q]@[k] == (if (q < p && k < nt) || (q == p && k < t) {
                            read_arc_post(orig, q, k)
                        } else {
                            orig.tables.post@[q]@[k]
                        }),
                    changed == ((exists|q: int, k: int| 0 <= q < p && 0 <= k < nt && #[trigger] read_arc_post(orig, q, k)
                        != orig.tables.post@[q]@[k]) || exists|k: int| 0 <= k < t && #[trigger] read_arc_post(
                        orig,
                        p as int,
                        k,
                    ) != row0[k]),
                    !changed ==> model.tables.post == orig.tables.post,
                decreases nt - t,
            {
                proof {
                    let _ = orig.tables.pre@[p as int];
                    let _ = model.tables.post@[p as int];
                }
                let pre = model.tables.pre[p][t];
                let post = model.tables.post[p][t];
                if pre > 0 && post == 0 {
                    model.tables.post[p][t] = pre;
                    changed = true;
                    proof {
                        assert(read_arc_post(orig, p as int, t as int) != row0[t as int]);
                    }
                }
                t = t + 1;
            }
            proof {
                assert(changed == exists|q: int, k: int| 0 <= q < p + 1 && 0 <= k < nt && #[trigger] read_arc_post(orig, q, k)
                    != orig.tables.post@[q]@[k]) by {
                    if exists|k: int| 0 <= k < nt && #[trigger] read_arc_post(orig, p as int, k) != row0[k] {
                        let k = choose|k: int| 0 <= k < nt && #[trigger] read_arc_post(orig, p as int, k) != row0[k];
                        assert(0 <= p < p + 1 && read_arc_post(orig, p as int, k) != orig.tables.post@[p as int]@[k]);
                    }
                    if exists|q: int, k: int| 0 <= q < p + 1 && 0 <= k < nt && #[trigger] read_arc_post(orig, q, k)
                        != orig.tables.post@[q]@[k] {
                        let (q, k) = choose|q: int, k: int| 0 <= q < p + 1 && 0 <= k < nt && #[trigger] read_arc_post(orig, q, k)
                            != orig.tables.post@[q]@[k];
                        if q < p {
                            assert(0 <= q < p && read_arc_post(orig, q, k) != orig.tables.post@[q]@[k]);
                        } else {
                            assert(read_arc_post(orig, p as int, k) != row0[k]);
                        }
                    }
                }
            }
        } else {
            proof {
                assert(changed == exists|q: int, k: int| 0 <= q < p + 1 && 0 <= k < nt && #[trigger] read_arc_post(orig, q, k)
                    != orig.tables.post@[q]@[k]) by {
                    if exists|q: int, k: int| 0 <= q < p + 1 && 0 <= k < nt && #[trigger] read_arc_post(orig, q, k)
                        != orig.tables.post@[q]@[k] {
                        let (q, k) = choose|q: int, k: int| 0 <= q < p + 1 && 0 <= k < nt && #[trigger] read_arc_post(orig, q, k)
                            != orig.tables.post@[q]@[k];
                        assert(0 <= q < p && read_arc_post(orig, q, k) != orig.tables.post@[q]@[k]);
                    }
                }
            }
        }
        p = p + 1;
    }
    proof {
        assert(changed == read_arcs_needed(orig));
    }
    if changed {
        proof {
            assert(crate::model::covers(model.tables.post@, np as nat, nt as nat)) by {
                assert forall|q: int| 0 <= q < np implies nt <= (#[trigger] model.tables.post@[q])@.len() by {
                    let _ = orig.tables.post@[q];
                }
            }
        }
        model.rebuild_arcs_from_matrices();
    }
}

/// A printable ASCII byte or a space.
pub open spec fn printable(b: u8) -> bool {
    0x20 <= b <= 0x7E
}

/// The characters of the bytes `start..end`, read as ASCII.
pub open spec fn ascii_text(b: Seq<u8>, start: int, end: int) -> Seq<char> {
    b.subrange(start, end).map_values(|c: u8| c as char)
}

/// The runs of printable bytes from `i` on, at least `min_len` long, with
/// where they start; `start` is where the run that reaches `i` began.
pub open spec fn ascii_runs_from(b: Seq<u8>, min_len: nat, i: int, start: Option<int>) -> Seq<(usize, Seq<char>)>
    decreases b.len() - i,
{
    if i >= b.len() {
        match start {
            Some(s) => if b.len() - s >= min_len {
                seq![(s as usize, ascii_text(b, s, b.len() as int))]
            } else {
                Seq::empty()
            },
            None => Seq::empty(),
        }
    } else if printable(b[i]) {
        ascii_runs_from(b, min_len, i + 1, if start is None { Some(i) } else { start })
    } else {
        match start {
            Some(s) => (if i - s >= min_len {
                seq![(s as usize, ascii_text(b, s, i))]
            } else {
                Seq::empty()
            }) + ascii_runs_from(b, min_len, i + 1, None),
            None => ascii_runs_from(b, min_len, i + 1, None),
        }
    }
}

/// `out` holds, entry by entry, the offsets and texts of `expect`.
pub open spec fn texts_match(out: Seq<(usize, String)>, expect: Seq<(usize, Seq<char>)>) -> bool {
    &&& out.len() == expect.len()
    &&& forall|k: int| 0 <= k < out.len() ==> (#[trigger] out[k]).0 == expect[k].0 && out[k].1@ == expect[k].1
}

fn ascii_string(bytes: &[u8], start: usize, end: usize) -> (s: String)
    requires
        start <= end <= bytes@.len(),
    ensures
        s@ == ascii_text(bytes@, start as int, end as int),
{
    let mut cs: Vec<char> = Vec::new();
    let mut i: usize = start;
    while i < end
        invariant
            start <= i <= end,
            end <= bytes@.len(),
            cs@ == ascii_text(bytes@, start as int, i as int),
        decreases end - i,
    {
        cs.push(bytes[i] as char);
        proof {
            assert(ascii_text(bytes@, start as int, i + 1) =~= ascii_text(bytes@, start as int, i as int).push(
                bytes@[i as int] as char,
            ));
        }
        i = i + 1;
    }
    crate::text::string_of_chars(&cs)
}

/// Runs of at least `min_len` printable ASCII bytes, with their offsets.
pub fn extract_ascii_strings(bytes: &[u8], min_len: usize) -> (out: Vec<(usize, String)>)
    ensures
        texts_match(out@, ascii_runs_from(bytes@, min_len as nat, 0, None)),
        bytes@.len() >= 1 && bytes@.len() >= min_len && (forall|k: int|
            0 <= k < bytes@.len() ==> 0x20 <= #[trigger] bytes@[k] <= 0x7E) ==> {
            &&& out@.len() == 1
            &&& out@[0].0 == 0
            &&& out@[0].1@ == bytes@.map_values(|c: u8| c as char)
        },
{
    let mut out: Vec<(usize, String)> = Vec::new();
    let ghost mut acc: Seq<(usize, Seq<char>)> = Seq::empty();
    let ghost total = ascii_runs_from(bytes@, min_len as nat, 0, None);
    let mut start: Option<usize> = None;
    let mut i: usize = 0;
    while i < bytes.len()
        invariant
            i <= bytes@.len(),
            texts_match(out@, acc),
            acc + ascii_runs_from(bytes@, min_len as nat, i as int, match start {
                Some(s) => Some(s as int),
                None => None,
            }) == total,
            start matches Some(s) ==> s < i,
        decreases bytes@.len() - i,
    {
        let b = bytes[i];
        if 0x20 <= b && b <= 0x7E {
            if start.is_none() {
                start = Some(i);
            }
        } else {
            match start {
                Some(s) => {
                    if i - s >= min_len {
                        let text = ascii_string(bytes, s, i);
                        let ghost entry = (s, ascii_text(bytes@, s as int, i as int));
                        out.push((s, text));
                        proof {
                            assert(acc.push(entry) + ascii_runs_from(bytes@, min_len as nat, i + 1, None) == acc + (seq![entry]
                                + ascii_runs_from(bytes@, min_len as nat, i + 1, None)));
                            acc = acc.push(entry);
                        }
                    } else {
                        proof {
                            assert(Seq::<(usize, Seq<char>)>::empty() + ascii_runs_from(bytes@, min_len as nat, i + 1, None)
                                == ascii_runs_from(bytes@, min_len as nat, i + 1, None));
                        }
                    }
                    start = None;
                },
                None => {},
            }
        }
        i = i + 1;
    }
    match start {
        Some(s) => {
            if bytes.len() - s >= min_len {
                let text = ascii_string(bytes, s, bytes.len());
                let ghost entry = (s, ascii_text(bytes@, s as int, bytes@.len() as int));
                out.push((s, text));
                proof {
                    acc = acc.push(entry);
                }
            } else {
                proof {
                    assert(acc + Seq::<(usize, Seq<char>)>::empty() == acc);
                }
            }
        },
        None => {
            proof {
                assert(acc + Seq::<(usize, Seq<char>)>::empty() == acc);
            }
        },
    }
    proof {
        if bytes@.len() >= 1 && bytes@.len() >= min_len && forall|k: int|
            0 <= k < bytes@.len() ==> 0x20 <= #[trigger] bytes@[k] <= 0x7E {
            lemma_ascii_text_is_one_run(bytes@, min_len as nat);
            let e = ascii_runs_from(bytes@, min_len as nat, 0, None);
            assert(out@[0].0 == e[0].0 && out@[0].1@ == e[0].1);
        }
    }
    out
}

/// How many UTF-16LE code units of printable ASCII follow from `i` on.
pub open spec fn utf16_run(b: Seq<u8>, i: int) -> nat
    decreases b.len() - i,
{
    if i >= 0 && i + 2 <= b.len() && b[i + 1] == 0 && printable(b[i]) {
        1 + utf16_run(b, i + 2)
    } else {
        0
    }
}

/// The characters of `n` UTF-16LE ASCII code units from `i`.
pub open spec fn utf16_text(b: Seq<u8>, i: int, n: nat) -> Seq<char> {
    Seq::new(n, |k: int| b[i + 2 * k] as char)
}

/// The UTF-16LE ASCII runs of at least `min_len` units from `i` on: a scan
/// that steps one byte past a position where no run starts, and two bytes
/// past the unit that ends a run.
pub open spec fn utf16_runs_from(b: Seq<u8>, min_len: nat, i: int) -> Seq<(usize, Seq<char>)>
    decreases b.len() + 3 - i,
{
    if i < 0 || i + 2 > b.len() {
        Seq::empty()
    } else {
        let n = utf16_run(b, i);
        proof {
            lemma_utf16_run_bound(b, i);
        }
        let next = if n == 0 { i + 1 } else { i + 2 * n + 2 };
        (if n >= min_len {
            seq![(i as usize, utf16_text(b, i, n))]
        } else {
            Seq::empty()
        }) + utf16_runs_from(b, min_len, next)
    }
}

/// A run of UTF-16LE units ends inside the file.
pub proof fn lemma_utf16_run_bound(b: Seq<u8>, i: int)
    requires
        0 <= i,
    ensures
        i + 2 * utf16_run(b, i) <= (if i < b.len() { b.len() as int } else { i }),
    decreases b.len() - i,
{
    if i + 2 <= b.len() && b[i + 1] == 0 && printable(b[i]) {
        lemma_utf16_run_bound(b, i + 2);
    }
}

/// Runs of at least `min_len` printable ASCII characters stored as
/// UTF-16LE code units, with their offsets.
pub fn extract_utf16le_strings(bytes: &[u8], min_len: usize) -> (out: Vec<(usize, String)>)
    requires
        bytes@.len() <= isize::MAX,
    ensures
        texts_match(out@, utf16_runs_from(bytes@, min_len as nat, 0)),
        bytes@.len() >= 2 && bytes@.len() % 2 == 0 && bytes@.len() / 2 >= min_len && (forall|k: int|
            0 <= k < bytes@.len() ==> (k % 2 == 0 ==> 0x20 <= #[trigger] bytes@[k] <= 0x7E) && (k % 2 == 1 ==> bytes@[k]
                == 0)) ==> {
            &&& out@.len() == 1
            &&& out@[0].0 == 0
            &&& out@[0].1@ == Seq::new(bytes@.len() / 2, |k: int| bytes@[2 * k] as char)
        },
{
    let mut out: Vec<(usize, String)> = Vec::new();
    let ghost mut acc: Seq<(usize, Seq<char>)> = Seq::empty();
    let ghost total = utf16_runs_from(bytes@, min_len as nat, 0);
    let len = bytes.len();
    let mut i: usize = 0;
    while i <= len && len - i >= 2
        invariant
            len == bytes@.len(),
            len <= isize::MAX,
            i <= len + 2,
            texts_match(out@, acc),
            acc + utf16_runs_from(bytes@, min_len as nat, i as int) == total,
        decreases len + 2 - i,
    {
        let start = i;
        let mut data: Vec<char> = Vec::new();
        while i <= len && len - i >= 2 && bytes[i + 1] == 0 && 0x20 <= bytes[i] && bytes[i] <= 0x7E
            invariant
                len == bytes@.len(),
                len <= isize::MAX,
                start <= i <= len,
                (i - start) % 2 == 0,
                data@.len() == (i - start) / 2,
                data@ == utf16_text(bytes@, start as int, data@.len()),
                utf16_run(bytes@, start as int) == data@.len() + utf16_run(bytes@, i as int),
            decreases len + 2 - i,
        {
            data.push(bytes[i] as char);
            proof {
                assert(data@ =~= utf16_text(bytes@, start as int, data@.len()));
            }
            i = i + 2;
        }
        proof {
            assert(utf16_run(bytes@, i as int) == 0);
        }
        let n = data.len();
        if n >= min_len {
            let text = crate::text::string_of_chars(&data);
            let ghost entry = (start, utf16_text(bytes@, start as int, n as nat));
            out.push((start, text));
            proof {
                acc = acc.push(entry);
            }
        }
        proof {
            let next = if n == 0 { start + 1 } else { start + 2 * n + 2 };
            assert(acc + utf16_runs_from(bytes@, min_len as nat, next) == total);
        }
        if i == start {
            i = i + 1;
        } else {
            i = i + 2;
        }
    }
    proof {
        assert(utf16_runs_from(bytes@, min_len as nat, i as int).len() == 0);
        assert(acc + Seq::<(usize, Seq<char>)>::empty() == acc);
    }
    proof {
        if bytes@.len() >= 2 && bytes@.len() % 2 == 0 && bytes@.len() / 2 >= min_len && forall|k: int|
            0 <= k < bytes@.len() ==> (k % 2 == 0 ==> 0x20 <= #[trigger] bytes@[k] <= 0x7E) && (k % 2 == 1 ==> bytes@[k]
                == 0) {
            lemma_utf16_text_is_one_run(bytes@, min_len as nat);
            let e = utf16_runs_from(bytes@, min_len as nat, 0);
            assert(out@[0].0 == e[0].0 && out@[0].1@ == e[0].1);
        }
    }
    out
}

/// The pairs of consecutive binary64 patterns at offsets `i, i + 8, ...`
/// that are both finite and at most 1e8 in magnitude, while fewer than
/// `max_items` were found.
pub open spec fn float_pairs_from(b: Seq<u8>, max_items: nat, i: int, found: nat) -> Seq<(usize, u64, u64)>
    decreases b.len() - i,
{
    if i < 0 || i + 16 > b.len() || found >= max_items {
        Seq::empty()
    } else {
        let x = le_u64(b, i);
        let y = le_u64(b, i + 8);
        if crate::ieee::f64_abs_at_most(x, crate::ieee::F64_ONE_E8) && crate::ieee::f64_abs_at_most(y, crate::ieee::F64_ONE_E8) {
            seq![(i as usize, x, y)] + float_pairs_from(b, max_items, i + 8, found + 1)
        } else {
            float_pairs_from(b, max_items, i + 8, found)
        }
    }
}

/// Pairs of plausible binary64 values (finite, at most 1e8 in magnitude) at
/// 8-byte steps, at most `max_items`, as bit patterns with their offsets.
pub fn extract_float64_pairs(bytes: &[u8], max_items: usize) -> (out: Vec<(usize, u64, u64)>)
    ensures
        out@ == float_pairs_from(bytes@, max_items as nat, 0, 0),
{
    let mut out: Vec<(usize, u64, u64)> = Vec::new();
    let len = bytes.len();
    let mut i: usize = 0;
    proof {
        assert(crate::ieee::f64_is_finite(crate::ieee::F64_ONE_E8));
    }
    while i <= len && len - i >= 16 && out.len() < max_items
        invariant
            len == bytes@.len(),
            crate::ieee::f64_is_finite(crate::ieee::F64_ONE_E8),
            out@ + float_pairs_from(bytes@, max_items as nat, i as int, out@.len()) == float_pairs_from(
                bytes@,
                max_items as nat,
                0,
                0,
            ),
        decreases len + 16 - i,
    {
        let a = read_f64(bytes, i).unwrap();
        let b = read_f64(bytes, i + 8).unwrap();
        if crate::ieee::f64_bits_abs_at_most(a, crate::ieee::F64_ONE_E8) && crate::ieee::f64_bits_abs_at_most(
            b,
            crate::ieee::F64_ONE_E8,
        ) {
            proof {
                assert(out@.push((i, a, b)) + float_pairs_from(bytes@, max_items as nat, i + 8, out@.len() + 1)
                    == out@ + (seq![(i, a, b)] + float_pairs_from(bytes@, max_items as nat, i + 8, out@.len() + 1)));
            }
            out.push((i, a, b));
        }
        i = i + 8;
    }
    proof {
        assert(float_pairs_from(bytes@, max_items as nat, i as int, out@.len()).len() == 0);
        assert(out@ + Seq::<(usize, u64, u64)>::empty() == out@);
    }
    out
}

/// A delay as stored in the table: `-0.0` becomes `+0.0`, any other
/// pattern stays.
pub open spec fn stored_delay(d: u64) -> u64 {
    if d == 0x8000_0000_0000_0000 {
        0
    } else {
        d
    }
}

/// Place `p` is `old` after reading the valid record `n`: at the record's
/// point, small, named after the record when it has a name (which also
/// fills an empty note), in the record's colour.
pub open spec fn place_from_node(p: Place, old: Place, n: LegacyPlaceNode) -> bool {
    &&& f32_denotes_int(p.pos[0], n.x as int)
    &&& f32_denotes_int(p.pos[1], n.y as int)
    &&& p.size == VisualSize::Small
    &&& p.name@ == (if n.name@.len() > 0 { n.name@ } else { old.name@ })
    &&& p.note@ == (if n.name@.len() > 0 && trimmed(old.note@, false).len() == 0 {
        n.name@
    } else {
        old.note@
    })
    &&& p.color == legacy_color(n.color_raw)
    &&& p.id == old.id
    &&& p.marker_label_position == old.marker_label_position
    &&& p.text_position == old.text_position
    &&& p.marker_color_on_pass == old.marker_color_on_pass
    &&& p.input_module == old.input_module
    &&& p.input_number == old.input_number
    &&& p.input_description == old.input_description
    &&& p.stochastic == old.stochastic
    &&& p.stochastic_seed == old.stochastic_seed
    &&& p.stats == old.stats
    &&& p.markov_highlight == old.markov_highlight
    &&& p.markov_placement == old.markov_placement
    &&& p.show_markov_model == old.show_markov_model
}

/// The record at row `i` is there and valid.
pub open spec fn valid_node_at(nodes: Seq<LegacyPlaceNode>, i: int) -> bool {
    i < nodes.len() && nodes[i].valid
}

/// Place row `i` of `m` is row `i` of `old` after reading the records
/// `nodes`: updated from a valid record there, else unchanged.
pub open spec fn place_row_read(m: PetriNetModel, old: PetriNetModel, nodes: Seq<LegacyPlaceNode>, i: int) -> bool {
    if valid_node_at(nodes, i) {
        &&& place_from_node(m.places@[i], old.places@[i], nodes[i])
        &&& m.tables.m0@[i] == (if nodes[i].markers < 0 { 0 } else { nodes[i].markers as u32 })
        &&& m.tables.mo@[i] == (if nodes[i].capacity > 0 { Some(nodes[i].capacity as u32) } else { None })
        &&& m.tables.mz@[i] == stored_delay(nodes[i].delay_sec)
    } else {
        &&& m.places@[i] == old.places@[i]
        &&& m.tables.m0@[i] == old.tables.m0@[i]
        &&& m.tables.mo@[i] == old.tables.mo@[i]
        &&& m.tables.mz@[i] == old.tables.mz@[i]
    }
}

/// Writes the valid place records into the net's places and tables.
pub fn apply_place_nodes(model: &mut PetriNetModel, nodes: &Vec<LegacyPlaceNode>)
    requires
        old(model).tables.has_shape(old(model).places@.len(), old(model).transitions@.len()),
        forall|i: int| 0 <= i < nodes@.len() ==> (#[trigger] nodes@[i]).valid ==> 0 <= nodes@[i].x <= 20_000 && 0
            <= nodes@[i].y <= 20_000,
    ensures
        final(model).format_version == old(model).format_version,
        final(model).meta == old(model).meta,
        final(model).ui == old(model).ui,
        final(model).transitions == old(model).transitions,
        final(model).arcs == old(model).arcs,
        final(model).inhibitor_arcs == old(model).inhibitor_arcs,
        final(model).tables.mpr == old(model).tables.mpr,
        final(model).tables.pre == old(model).tables.pre,
        final(model).tables.post == old(model).tables.post,
        final(model).tables.inhibitor == old(model).tables.inhibitor,
        final(model).places@.len() == old(model).places@.len(),
        final(model).tables.has_shape(old(model).places@.len(), old(model).transitions@.len()),
        forall|i: int| 0 <= i < old(model).places@.len() ==> #[trigger] place_row_read(*final(model), *old(model), nodes@, i),
        forall|i: int|
            0 <= i < old(model).places@.len() && i < nodes@.len() && (#[trigger] nodes@[i]).valid ==> {
                &&& (nodes@[i].capacity > 0 ==> final(model).tables.mo@[i] == Some(nodes@[i].capacity as u32))
                &&& (nodes@[i].capacity <= 0 ==> final(model).tables.mo@[i] is None)
            },
{
    let ghost orig = *model;
    let np = model.places.len();
    let mut idx: usize = 0;
    while idx < np
        invariant
            idx <= np,
            np == orig.places@.len(),
            orig.tables.has_shape(orig.places@.len(), orig.transitions@.len()),
            forall|i: int| 0 <= i < nodes@.len() ==> (#[trigger] nodes@[i]).valid ==> 0 <= nodes@[i].x <= 20_000 && 0
                <= nodes@[i].y <= 20_000,
            model.format_version == orig.format_version,
            model.meta == orig.meta,
            model.ui == orig.ui,
            model.transitions == orig.transitions,
            model.arcs == orig.arcs,
            model.inhibitor_arcs == orig.inhibitor_arcs,
            model.tables.mpr == orig.tables.mpr,
            model.tables.pre == orig.tables.pre,
            model.tables.post == orig.tables.post,
            model.tables.inhibitor == orig.tables.inhibitor,
            model.places@.len() == np,
            model.tables.m0@.len() == np,
            model.tables.mo@.len() == np,
            model.tables.mz@.len() == np,
            forall|i: int| idx <= i < np ==> #[trigger] model.places@[i] == orig.places@[i],
            forall|i: int| idx <= i < np ==> #[trigger] model.tables.m0@[i] == orig.tables.m0@[i],
            forall|i: int| idx <= i < np ==> #[trigger] model.tables.mo@[i] == orig.tables.mo@[i],
            forall|i: int| idx <= i < np ==> #[trigger] model.tables.mz@[i] == orig.tables.mz@[i],
            forall|i: int| 0 <= i < idx ==> #[trigger] place_row_read(*model, orig, nodes@, i),
        decreases np - idx,
    {
        let ghost before = *model;
        if idx < nodes.len() && nodes[idx].valid {
            let node = &nodes[idx];
            let x = f32_bits_of_int(node.x as i64);
            let y = f32_bits_of_int(node.y as i64);
            let has_name = !node.name.as_str().is_empty();
            let note_cs = crate::text::chars_of(model.places[idx].note.as_str());
            let note_blank = crate::text::trim_chars(&note_cs, false).len() == 0;
            let mut pl = Place::new_default(0, String::new(), [0, 0]);
            std::mem::swap(&mut pl, &mut model.places[idx]);
            pl.pos = [x, y];
            pl.size = VisualSize::Small;
            if has_name {
                pl.name = node.name.clone();
                if note_blank {
                    pl.note = node.name.clone();
                }
            }
            pl.color = map_legacy_color(node.color_raw);
            std::mem::swap(&mut pl, &mut model.places[idx]);
            let m = if node.markers < 0 { 0u32 } else { node.markers as u32 };
            model.tables.m0.set(idx, m);
            let cap = if node.capacity > 0 { Some(node.capacity as u32) } else { None };
            model.tables.mo.set(idx, cap);
            let d = if node.delay_sec == 0x8000_0000_0000_0000 { 0u64 } else { node.delay_sec };
            model.tables.mz.set(idx, d);
        }
        proof {
            assert forall|i: int| 0 <= i < idx + 1 implies #[trigger] place_row_read(*model, orig, nodes@, i) by {
                if i < idx {
                    assert(place_row_read(before, orig, nodes@, i));
                }
            }
        }
        idx = idx + 1;
    }
    proof {
        assert forall|i: int|
            0 <= i < orig.places@.len() && i < nodes@.len() && (#[trigger] nodes@[i]).valid implies {
                &&& (nodes@[i].capacity > 0 ==> model.tables.mo@[i] == Some(nodes@[i].capacity as u32))
                &&& (nodes@[i].capacity <= 0 ==> model.tables.mo@[i] is None)
            } by {
            assert(place_row_read(*model, orig, nodes@, i));
            assert(valid_node_at(nodes@, i));
        }
    }
}

/// Transition `t` is `old` after reading the valid record `n`: medium
/// sized, its top-left corner half a medium transition (12 by 28) off the
/// record's centre, turned by the record's angle, its note filled with the
/// record's name when empty, in the record's colour.
pub open spec fn transition_from_node(t: Transition, old: Transition, n: LegacyTransitionNode) -> bool {
    &&& f32_denotes_int(t.pos[0], n.x - 6)
    &&& f32_denotes_int(t.pos[1], n.y - 14)
    &&& t.size == VisualSize::Medium
    &&& t.angle_deg == n.angle_deg
    &&& t.note@ == (if n.name@.len() > 0 && trimmed(old.note@, false).len() == 0 {
        n.name@
    } else {
        old.note@
    })
    &&& t.color == legacy_color(n.color_raw)
    &&& t.id == old.id
    &&& t.name == old.name
    &&& t.label_position == old.label_position
    &&& t.text_position == old.text_position
}

/// The transition record at column `i` is there and valid.
pub open spec fn valid_transition_node_at(nodes: Seq<LegacyTransitionNode>, i: int) -> bool {
    i < nodes.len() && nodes[i].valid
}

/// Transition column `i` of `m` is column `i` of `old` after reading the
/// records `nodes`: updated from a valid record there, else unchanged.
pub open spec fn transition_col_read(m: PetriNetModel, old: PetriNetModel, nodes: Seq<LegacyTransitionNode>, i: int) -> bool {
    if valid_transition_node_at(nodes, i) {
        &&& transition_from_node(m.transitions@[i], old.transitions@[i], nodes[i])
        &&& m.tables.mpr@[i] == nodes[i].priority
    } else {
        &&& m.transitions@[i] == old.transitions@[i]
        &&& m.tables.mpr@[i] == old.tables.mpr@[i]
    }
}

/// Writes the valid transition records into the net's transitions and priorities.
pub fn apply_transition_nodes(model: &mut PetriNetModel, nodes: &Vec<LegacyTransitionNode>)
    requires
        old(model).tables.has_shape(old(model).places@.len(), old(model).transitions@.len()),
        forall|i: int| 0 <= i < nodes@.len() ==> (#[trigger] nodes@[i]).valid ==> -50_000 <= nodes@[i].x <= 50_000
            && -50_000 <= nodes@[i].y <= 50_000,
    ensures
        final(model).format_version == old(model).format_version,
        final(model).meta == old(model).meta,
        final(model).ui == old(model).ui,
        final(model).places == old(model).places,
        final(model).arcs == old(model).arcs,
        final(model).inhibitor_arcs == old(model).inhibitor_arcs,
        final(model).tables.m0 == old(model).tables.m0,
        final(model).tables.mo == old(model).tables.mo,
        final(model).tables.mz == old(model).tables.mz,
        final(model).tables.pre == old(model).tables.pre,
        final(model).tables.post == old(model).tables.post,
        final(model).tables.inhibitor == old(model).tables.inhibitor,
        final(model).transitions@.len() == old(model).transitions@.len(),
        final(model).tables.has_shape(old(model).places@.len(), old(model).transitions@.len()),
        forall|i: int| 0 <= i < old(model).transitions@.len() ==> #[trigger] transition_col_read(*final(model), *old(model), nodes@, i),
{
    let ghost orig = *model;
    let nt = model.transitions.len();
    let mut idx: usize = 0;
    while idx < nt
        invariant
            idx <= nt,
            nt == orig.transitions@.len(),
            orig.tables.has_shape(orig.places@.len(), orig.transitions@.len()),
            forall|i: int| 0 <= i < nodes@.len() ==> (#[trigger] nodes@[i]).valid ==> -50_000 <= nodes@[i].x <= 50_000
                && -50_000 <= nodes@[i].y <= 50_000,
            model.format_version == orig.format_version,
            model.meta == orig.meta,
            model.ui == orig.ui,
            model.places == orig.places,
            model.arcs == orig.arcs,
            model.inhibitor_arcs == orig.inhibitor_arcs,
            model.tables.m0 == orig.tables.m0,
            model.tables.mo == orig.tables.mo,
            model.tables.mz == orig.tables.mz,
            model.tables.pre == orig.tables.pre,
            model.tables.post == orig.tables.post,
            model.tables.inhibitor == orig.tables.inhibitor,
            model.transitions@.len() == nt,
            model.tables.mpr@.len() == nt,
            forall|i: int| idx <= i < nt ==> #[trigger] model.transitions@[i] == orig.transitions@[i],
            forall|i: int| idx <= i < nt ==> #[trigger] model.tables.mpr@[i] == orig.tables.mpr@[i],
            forall|i: int| 0 <= i < idx ==> #[trigger] transition_col_read(*model, orig, nodes@, i),
        decreases nt - idx,
    {
        let ghost before = *model;
        if idx < nodes.len() && nodes[idx].valid {
            let node = &nodes[idx];
            let x = f32_bits_of_int(node.x as i64 - 6);
            let y = f32_bits_of_int(node.y as i64 - 14);
            let has_name = !node.name.as_str().is_empty();
            let note_cs = crate::text::chars_of(model.transitions[idx].note.as_str());
            let note_blank = crate::text::trim_chars(&note_cs, false).len() == 0;
            let mut tr = Transition::new_default(0, String::new(), [0, 0]);
            std::mem::swap(&mut tr, &mut model.transitions[idx]);
            tr.size = VisualSize::Medium;
            tr.pos = [x, y];
            tr.angle_deg = node.angle_deg;
            if has_name && note_blank {
                tr.note = node.name.clone();
            }
            tr.color = map_legacy_color(node.color_raw);
            std::mem::swap(&mut tr, &mut model.transitions[idx]);
            model.tables.mpr.set(idx, node.priority);
        }
        proof {
            assert forall|i: int| 0 <= i < idx + 1 implies #[trigger] transition_col_read(*model, orig, nodes@, i) by {
                if i < idx {
                    assert(transition_col_read(before, orig, nodes@, i));
                }
            }
        }
        idx = idx + 1;
    }
}

/// The trailer of the GPN2 header, which every file of the newer format
/// starts with: the bytes of `GPN2_MAGIC` ("GPN2" and a line feed).
pub open spec fn gpn2_magic_bytes() -> Seq<u8> {
    seq![0x47u8, 0x50, 0x4E, 0x32, 0x0A]
}

/// Whether `bytes` starts with the GPN2 header.
pub fn has_gpn2_magic(bytes: &[u8]) -> (r: bool)
    ensures
        r == (bytes@.len() >= 5 && bytes@.take(5) == gpn2_magic_bytes()),
{
    let r = bytes.len() >= 5 && bytes[0] == 0x47 && bytes[1] == 0x50 && bytes[2] == 0x4E && bytes[3] == 0x32
        && bytes[4] == 0x0A;
    proof {
        if bytes@.len() >= 5 {
            assert(r == (bytes@.take(5) =~= gpn2_magic_bytes()));
        }
    }
    r
}

/// A file is taken for a legacy one unless it starts with the GPN2 header.
pub fn detect_legacy_gpn(bytes: &[u8]) -> (r: bool)
    ensures
        r == !(bytes@.len() >= 5 && bytes@.take(5) == gpn2_magic_bytes()),
{
    !has_gpn2_magic(bytes)
}

/// std's `io::Error`, carried through untouched.
#[verifier::external_type_specification]
#[verifier::external_body]
pub struct ExIoError(std::io::Error);

/// Why a legacy file could not be imported.
#[derive(Debug)]
pub enum LegacyImportError {
    Io(std::io::Error),
    Invalid(String),
}

/// The text of an I/O error, as std's `Display` for `io::Error` writes it.
/// Nothing is stated of it: the text comes from the operating system.
#[verifier::external_body]
fn io_error_text(e: &std::io::Error) -> String {
    format!("{e}")
}

impl LegacyImportError {
    /// The message shown for the error.
    pub fn message(&self) -> (s: String)
        ensures
            self matches LegacyImportError::Invalid(m) ==> s@ == INVALID_PREFIX@ + m@,
            self matches LegacyImportError::Io(_) ==> IO_PREFIX@.is_prefix_of(s@),
    {
        match self {
            LegacyImportError::Io(e) => {
                let mut s = IO_PREFIX.to_owned();
                let t = io_error_text(e);
                push_str(&mut s, t.as_str());
                proof {
                    assert(s@.subrange(0, IO_PREFIX@.len() as int) =~= IO_PREFIX@);
                }
                s
            },
            LegacyImportError::Invalid(m) => {
                let mut s = INVALID_PREFIX.to_owned();
                push_str(&mut s, m.as_str());
                s
            },
        }
    }
}

impl From<std::io::Error> for LegacyImportError {
    fn from(value: std::io::Error) -> (r: Self)
        ensures
            r == LegacyImportError::Io(value),
    {
        LegacyImportError::Io(value)
    }
}

impl vstd::std_specs::convert::FromSpecImpl<std::io::Error> for LegacyImportError {
    open spec fn obeys_from_spec() -> bool {
        true
    }

    open spec fn from_spec(v: std::io::Error) -> LegacyImportError {
        LegacyImportError::Io(v)
    }
}

/// Start of the message of an I/O error.
pub const IO_PREFIX: &'static str = "РћС€РёР±РєР° РІРІРѕРґР°-РІС‹РІРѕРґР°: ";

/// Start of the message of an invalid file.
pub const INVALID_PREFIX: &'static str = "РќРµРєРѕСЂСЂРµРєС‚РЅС‹Р№ legacy GPN: ";

/// Reason given for an empty file.
pub const EMPTY_FILE: &'static str = "РџСѓСЃС‚РѕР№ С„Р°Р№Р»";

/// Warning: the counts were guessed from a candidate pair.
pub const WARN_HEURISTIC_COUNTS: &'static str = "Р\u{98}СЃРїРѕР»СЊР·РѕРІР°РЅС‹ СЌРІСЂРёСЃС‚РёС‡РµСЃРєРёРµ counts";

/// Warning: no counts found, 1 and 1 used.
pub const WARN_DEFAULT_COUNTS: &'static str = "РќРµ СѓРґР°Р»РѕСЃСЊ РЅР°РґРµР¶РЅРѕ РёР·РІР»РµС‡СЊ С‡РёСЃР»Р° РјРµСЃС‚/РїРµСЂРµС…РѕРґРѕРІ, РїСЂРёРјРµРЅРµРЅС‹ Р·РЅР°С‡РµРЅРёСЏ 1/1";

/// Warning: arcs recovered by scanning for their records.
pub const WARN_SIGNATURE_ARCS: &'static str = "Дуги восстановлены по сигнатурам";

/// Warning: no arcs found.
pub const WARN_NO_ARCS: &'static str = "Не удалось извлечь дуги";

/// Warning: the section layout could not be found.
pub const WARN_NO_LAYOUT: &'static str = "РќРµ СѓРґР°Р»РѕСЃСЊ РѕРїСЂРµРґРµР»РёС‚СЊ layout legacy СЃРµРєС†РёР№";

/// Warning: the import fell back to guesses somewhere.
pub const WARN_BEST_EFFORT: &'static str = "Р\u{98}РјРїРѕСЂС‚ legacy GPN РІС‹РїРѕР»РЅРµРЅ РІ СЂРµР¶РёРјРµ best-effort";

/// Start of the description of a count candidate.
pub const SECTION_PREFIX: &'static str = "РљР°РЅРґРёРґР°С‚ СЃРµРєС†РёРё counts @0x";

/// What was learnt about a legacy file while importing it; the float pairs
/// are binary64 bit patterns.
#[derive(Clone, Debug)]
pub struct LegacyDebugInfo {
    pub file_size: usize,
    pub candidate_counts: Vec<(usize, u32, u32)>,
    pub discovered_sections: Vec<String>,
    pub ascii_strings: Vec<(usize, String)>,
    pub utf16le_strings: Vec<(usize, String)>,
    pub candidate_float64_pairs: Vec<(usize, u64, u64)>,
}

/// An imported net with the warnings and the debug information.
#[derive(Clone, Debug)]
pub struct LegacyImportResult {
    pub model: PetriNetModel,
    pub warnings: Vec<String>,
    pub debug: LegacyDebugInfo,
}

/// `v` cut to `lo..=hi`.
pub open spec fn clamp_u32(v: u32, lo: u32, hi: u32) -> u32 {
    if v < lo {
        lo
    } else if v > hi {
        hi
    } else {
        v
    }
}

/// The place and transition counts the import uses: those of the header
/// when plausible, else the first candidate's cut to `1..=2000`, else 1 and 1.
pub open spec fn legacy_counts(b: Seq<u8>) -> (usize, usize) {
    match header_counts(b) {
        Some(pt) => pt,
        None => {
            let c = detected_counts(b);
            if c.len() > 0 {
                (clamp_u32(c[0].1, 1, 2000) as usize, clamp_u32(c[0].2, 1, 2000) as usize)
            } else {
                (1, 1)
            }
        },
    }
}

/// The warnings about the counts.
pub open spec fn count_warnings(b: Seq<u8>) -> Seq<Seq<char>> {
    match header_counts(b) {
        Some(_) => Seq::empty(),
        None => if detected_counts(b).len() > 0 {
            seq![WARN_HEURISTIC_COUNTS@]
        } else {
            seq![WARN_DEFAULT_COUNTS@]
        },
    }
}

/// The arc section holds at least one readable arc.
pub open spec fn section_found(b: Seq<u8>, arcs_offset: int, places: usize, transitions: usize) -> bool {
    let start = arcs_offset + 6;
    match i32_at(b, arcs_offset) {
        Some(counter) => counter >= -1 && start <= b.len() && section_keys(
            b,
            start,
            section_record_count(b, counter, start),
            places,
            transitions,
        ).len() > 0,
        None => false,
    }
}

/// Scanning the file finds at least one arc record.
pub open spec fn signature_found(b: Seq<u8>, places: usize, transitions: usize) -> bool {
    b.len() >= 64 && places > 0 && transitions > 0 && signature_keys(b, (b.len() - 64) as nat, places, transitions).len() > 0
}

/// The warnings of an import, in order.
pub open spec fn legacy_warnings(b: Seq<u8>) -> Seq<Seq<char>> {
    let (pc, tc) = legacy_counts(b);
    let w = count_warnings(b);
    match detected_layout(b, pc as nat, tc as nat) {
        None => w + seq![WARN_NO_LAYOUT@, WARN_BEST_EFFORT@],
        Some(l) => if section_found(b, l.arcs_offset as int, pc, tc) {
            w
        } else if signature_found(b, pc, tc) {
            w + seq![WARN_SIGNATURE_ARCS@, WARN_BEST_EFFORT@]
        } else {
            w + seq![WARN_NO_ARCS@, WARN_BEST_EFFORT@]
        },
    }
}

/// The description of a count candidate.
pub open spec fn candidate_text(c: (usize, u32, u32)) -> Seq<char> {
    SECTION_PREFIX@ + hex_padded(c.0 as nat, 8) + ": places="@ + decimal(c.1 as nat) + ", transitions="@ + decimal(
        c.2 as nat,
    )
}

/// The description of a layout.
pub open spec fn layout_text(l: LegacyLayout) -> Seq<char> {
    "layout: header="@ + decimal(l.place_header_size as nat) + ", places@0x"@ + hex(l.places_offset as nat)
        + ", transitions@0x"@ + hex(l.transitions_offset as nat) + ", arcs@0x"@ + hex(l.arcs_offset as nat)
}

/// The section notes of an import: the first five count candidates, then
/// the layout when one was found.
pub open spec fn legacy_sections(b: Seq<u8>) -> Seq<Seq<char>> {
    let c = detected_counts(b);
    let first = if c.len() > 5 { c.take(5) } else { c };
    let (pc, tc) = legacy_counts(b);
    let notes = first.map_values(|x: (usize, u32, u32)| candidate_text(x));
    match detected_layout(b, pc as nat, tc as nat) {
        Some(l) => notes.push(layout_text(l)),
        None => notes,
    }
}

/// The strings of `v` hold the texts of `expect`, in order.
pub open spec fn strings_match(v: Seq<String>, expect: Seq<Seq<char>>) -> bool {
    &&& v.len() == expect.len()
    &&& forall|k: int| 0 <= k < v.len() ==> (#[trigger] v[k])@ == expect[k]
}

fn push_text(v: &mut Vec<String>, s: String, Ghost(expect): Ghost<Seq<Seq<char>>>)
    requires
        strings_match(old(v)@, expect),
    ensures
        strings_match(final(v)@, expect.push(s@)),
{
    v.push(s);
}

/// Describes the first five count candidates of the file.
pub fn detect_section_boundaries(bytes: &[u8]) -> (r: Vec<String>)
    ensures
        strings_match(r@, ({
            let c = detected_counts(bytes@);
            let first = if c.len() > 5 { c.take(5) } else { c };
            first.map_values(|x: (usize, u32, u32)| candidate_text(x))
        })),
{
    let counts = detect_counts(bytes);
    let ghost c = counts@;
    let ghost first = if c.len() > 5 { c.take(5) } else { c };
    let n = if counts.len() > 5 { 5 } else { counts.len() };
    let mut out: Vec<String> = Vec::new();
    let mut i: usize = 0;
    while i < n
        invariant
            i <= n,
            n == first.len(),
            counts@ == c,
            first == (if c.len() > 5 { c.take(5) } else { c }),
            strings_match(out@, first.take(i as int).map_values(|x: (usize, u32, u32)| candidate_text(x))),
        decreases n - i,
    {
        let (off, p, t) = counts[i];
        let mut s = SECTION_PREFIX.to_owned();
        push_hex_padded(&mut s, off as u64, 8);
        push_str(&mut s, ": places=");
        push_decimal(&mut s, p as u64);
        push_str(&mut s, ", transitions=");
        push_decimal(&mut s, t as u64);
        proof {
            assert(first[i as int] == (off, p, t));
            assert(first.take(i + 1).map_values(|x: (usize, u32, u32)| candidate_text(x)) =~= first.take(
                i as int,
            ).map_values(|x: (usize, u32, u32)| candidate_text(x)).push(candidate_text((off, p, t))));
        }
        push_text(&mut out, s, Ghost(first.take(i as int).map_values(|x: (usize, u32, u32)| candidate_text(x))));
        i = i + 1;
    }
    proof {
        assert(first.take(n as int) == first);
    }
    out
}

fn layout_note(l: LegacyLayout) -> (s: String)
    ensures
        s@ == layout_text(l),
{
    let mut s = "layout: header=".to_owned();
    push_decimal(&mut s, l.place_header_size as u64);
    push_str(&mut s, ", places@0x");
    push_hex_padded(&mut s, l.places_offset as u64, 0);
    push_str(&mut s, ", transitions@0x");
    push_hex_padded(&mut s, l.transitions_offset as u64, 0);
    push_str(&mut s, ", arcs@0x");
    push_hex_padded(&mut s, l.arcs_offset as u64, 0);
    s
}

/// What `PetriNetModel::new` followed by `set_counts(places, transitions)`
/// gives: a new net with default nodes on the grid, numbered from 1.
pub open spec fn fresh_net(m: PetriNetModel, places: nat, transitions: nat) -> bool {
    &&& m.format_version == crate::model::GPN2_FORMAT_VERSION
    &&& m.meta.name@ == "Без названия"@
    &&& m.meta.author@.len() == 0
    &&& m.meta.description@.len() == 0
    &&& m.ui.language == crate::model::Language::Ru
    &&& !m.ui.hide_grid
    &&& m.ui.snap_to_grid
    &&& !m.ui.colored_petri_nets
    &&& m.ui.fix_time_step
    &&& m.ui.marker_count_stats
    &&& m.ui.light_theme
    &&& m.ui.text_blocks@.len() == 0
    &&& m.ui.decorative_frames@.len() == 0
    &&& m.ui.next_text_id == 1
    &&& m.ui.next_frame_id == 1
    &&& m.places@.len() == places
    &&& forall|i: int| 0 <= i < places ==> place_slot_ok(#[trigger] m.places@[i], Seq::empty(), i, m.pids().take(i))
    &&& m.transitions@.len() == transitions
    &&& forall|i: int| 0 <= i < transitions ==> transition_slot_ok(
        #[trigger] m.transitions@[i],
        Seq::empty(),
        i,
        m.tids().take(i),
        m.tids(),
    )
    &&& m.tables.m0@ == Seq::new(places, |i: int| 0u32)
    &&& m.tables.mo@ == Seq::new(places, |i: int| Some(1u32))
    &&& m.tables.mz@ == Seq::new(places, |i: int| 0u64)
    &&& m.tables.mpr@ == Seq::new(transitions, |i: int| 0i32)
    &&& m.tables.has_shape(places, transitions)
    &&& m.matrices_match_arcs()
    &&& m.arcs@.len() == 0
    &&& m.inhibitor_arcs@.len() == 0
}

fn fresh_legacy_net(places: usize, transitions: usize) -> (m: PetriNetModel)
    ensures
        fresh_net(m, places as nat, transitions as nat),
{
    let mut m = PetriNetModel::new();
    let ghost m0 = m;
    m.set_counts(places, transitions);
    proof {
        assert(m.tables.m0@ =~= Seq::new(places as nat, |i: int| 0u32));
        assert(m.tables.mo@ =~= Seq::new(places as nat, |i: int| Some(1u32)));
        assert(m.tables.mz@ =~= Seq::new(places as nat, |i: int| 0u64));
        assert(m.tables.mpr@ =~= Seq::new(transitions as nat, |i: int| 0i32));
        assert(m.arcs@ =~= Seq::<Arc>::empty());
        assert(m.inhibitor_arcs@ =~= Seq::<InhibitorArc>::empty());
        assert(m0.places@ =~= Seq::<Place>::empty());
        assert(m0.transitions@ =~= Seq::<Transition>::empty());
    }
    m
}

/// The integer points of the places after reading the records: the
/// record's point for a valid record, the grid slot otherwise.
pub open spec fn place_points(nodes: Seq<LegacyPlaceNode>, n: nat) -> Seq<(i64, i64)> {
    Seq::new(
        n,
        |i: int|
            if valid_node_at(nodes, i) {
                (nodes[i].x as i64, nodes[i].y as i64)
            } else {
                ((40 + 140 * (i % 8)) as i64, (40 + 140 * (i / 8)) as i64)
            },
    )
}

/// The integer top-left corners of the transitions after reading the records.
pub open spec fn transition_points(nodes: Seq<LegacyTransitionNode>, n: nat) -> Seq<(i64, i64)> {
    Seq::new(
        n,
        |i: int|
            if valid_transition_node_at(nodes, i) {
                ((nodes[i].x - 6) as i64, (nodes[i].y - 14) as i64)
            } else {
                ((110 + 140 * (i % 8)) as i64, (40 + 140 * (i / 8)) as i64)
            },
    )
}

/// The place records as `parse_place_nodes_from_layout` reads them.
pub open spec fn place_nodes_read(nodes: Seq<LegacyPlaceNode>, b: Seq<u8>, needed: nat, l: LegacyLayout) -> bool {
    &&& leading_records(b.len() as int, l.places_offset as int, 231, nodes.len() as int, needed as int)
    &&& forall|i: int| 0 <= i < nodes.len() ==> !crate::model::bad_delay(#[trigger] nodes[i].delay_sec)
    &&& forall|i: int| 0 <= i < nodes.len() ==> place_node_ok(
        #[trigger] nodes[i],
        b,
        l.places_offset + i * 231,
        capacity_offset(b, l.places_offset as int, needed) as int,
        use_marker12(valid_marker_pairs(nodes, b, l.places_offset as int)),
    )
}

/// The transition records as `parse_transition_nodes_from_layout` reads them.
pub open spec fn transition_nodes_read(nodes: Seq<LegacyTransitionNode>, b: Seq<u8>, needed: nat, l: LegacyLayout) -> bool {
    &&& leading_records(b.len() as int, l.transitions_offset as int, 105, nodes.len() as int, needed as int)
    &&& forall|i: int| 0 <= i < nodes.len() ==> transition_node_ok(#[trigger] nodes[i], b, l.transitions_offset + i * 105)
}

/// `m` is `old` with its arcs replaced by those of the grouped records,
/// the matrices rebuilt, the ghost nodes pruned and the read-arc heuristic
/// applied.
pub open spec fn legacy_arcs_cleaned(
    m: PetriNetModel,
    old: PetriNetModel,
    recs: Seq<LegacyArcRecord>,
    place_xy: Seq<(i64, i64)>,
    transition_xy: Seq<(i64, i64)>,
) -> bool {
    exists|m1: PetriNetModel, m2: PetriNetModel|
        {
            &&& #[trigger] rebuilt_with(
                m1,
                old,
                legacy_arcs_written(recs, old.pids(), old.tids()).0,
                legacy_arcs_written(recs, old.pids(), old.tids()).1,
            )
            &&& #[trigger] ghosts_pruned(m2, m1, place_xy, transition_xy)
            &&& read_arcs_applied(m, m2)
        }
}

/// The arc phase of an import: the arc section's records when it has any,
/// else those found by scanning, else no change.
pub open spec fn legacy_arc_phase(
    m: PetriNetModel,
    old: PetriNetModel,
    b: Seq<u8>,
    places: usize,
    transitions: usize,
    l: LegacyLayout,
    place_xy: Seq<(i64, i64)>,
    transition_xy: Seq<(i64, i64)>,
) -> bool {
    if section_found(b, l.arcs_offset as int, places, transitions) {
        exists|v: Seq<LegacyArcRecord>|
            #[trigger] is_tally(v, section_keys(
                b,
                l.arcs_offset + 6,
                section_record_count(b, i32_at(b, l.arcs_offset as int)->0, l.arcs_offset + 6),
                places,
                transitions,
            )) && legacy_arcs_cleaned(m, old, v, place_xy, transition_xy)
    } else if signature_found(b, places, transitions) {
        exists|v: Seq<LegacyArcRecord>|
            #[trigger] is_tally(v, signature_keys(b, (b.len() - 64) as nat, places, transitions))
                && legacy_arcs_cleaned(m, old, v, place_xy, transition_xy)
    } else {
        m == old
    }
}

/// `m2` is `m0` with the place records `pn` and the transition records `tn`
/// read into it (through `m1`, after the places).
pub open spec fn nodes_read_into(
    m2: PetriNetModel,
    m1: PetriNetModel,
    m0: PetriNetModel,
    pn: Seq<LegacyPlaceNode>,
    tn: Seq<LegacyTransitionNode>,
    b: Seq<u8>,
    pc: nat,
    tc: nat,
    l: LegacyLayout,
) -> bool {
    &&& place_nodes_read(pn, b, pc, l)
    &&& transition_nodes_read(tn, b, tc, l)
    &&& m1.places@.len() == m0.places@.len()
    &&& forall|i: int| 0 <= i < pc ==> #[trigger] place_row_read(m1, m0, pn, i)
    &&& m1.transitions == m0.transitions
    &&& m2.transitions@.len() == m1.transitions@.len()
    &&& forall|i: int| 0 <= i < tc ==> #[trigger] transition_col_read(m2, m1, tn, i)
    &&& m2.places == m1.places
    &&& m2.format_version == m0.format_version
    &&& m2.meta == m0.meta
    &&& m2.ui == m0.ui
    &&& m2.arcs == m0.arcs
    &&& m2.inhibitor_arcs == m0.inhibitor_arcs
    &&& m2.tables.pre == m0.tables.pre
    &&& m2.tables.post == m0.tables.post
    &&& m2.tables.inhibitor == m0.tables.inhibitor
    &&& m2.tables.mz == m1.tables.mz
    &&& m2.tables.mo == m1.tables.mo
    &&& m2.tables.m0 == m1.tables.m0
    &&& m2.tables.has_shape(pc, tc)
}

/// The net that importing the bytes `b` gives: a fresh net of the counts,
/// then, when the layout is found, the node records read into it and the
/// arc phase.
pub open spec fn legacy_model(m: PetriNetModel, b: Seq<u8>) -> bool {
    let (pc, tc) = legacy_counts(b);
    exists|m0: PetriNetModel|
        #[trigger] fresh_net(m0, pc as nat, tc as nat) && match detected_layout(b, pc as nat, tc as nat) {
            None => m == m0,
            Some(l) => exists|pn: Seq<LegacyPlaceNode>, tn: Seq<LegacyTransitionNode>, m1: PetriNetModel, m2: PetriNetModel|
                #[trigger] nodes_read_into(m2, m1, m0, pn, tn, b, pc as nat, tc as nat, l) && legacy_arc_phase(
                    m,
                    m2,
                    b,
                    pc,
                    tc,
                    l,
                    place_points(pn, pc as nat),
                    transition_points(tn, tc as nat),
                ),
        }
}

fn place_point_vec(pn: &Vec<LegacyPlaceNode>, n: usize) -> (v: Vec<(i64, i64)>)
    requires
        n <= 10_000,
    ensures
        v@ == place_points(pn@, n as nat),
{
    let mut v: Vec<(i64, i64)> = Vec::new();
    let mut i: usize = 0;
    while i < n
        invariant
            i <= n <= 10_000,
            v@ == place_points(pn@, n as nat).take(i as int),
        decreases n - i,
    {
        let pt = if i < pn.len() && pn[i].valid {
            (pn[i].x as i64, pn[i].y as i64)
        } else {
            ((40 + 140 * (i % 8)) as i64, (40 + 140 * (i / 8)) as i64)
        };
        proof {
            assert(place_points(pn@, n as nat).take(i + 1) == place_points(pn@, n as nat).take(i as int).push(pt));
        }
        v.push(pt);
        i = i + 1;
    }
    proof {
        assert(place_points(pn@, n as nat).take(n as int) == place_points(pn@, n as nat));
    }
    v
}

fn transition_point_vec(tn: &Vec<LegacyTransitionNode>, n: usize) -> (v: Vec<(i64, i64)>)
    requires
        n <= 10_000,
    ensures
        v@ == transition_points(tn@, n as nat),
{
    let mut v: Vec<(i64, i64)> = Vec::new();
    let mut i: usize = 0;
    while i < n
        invariant
            i <= n <= 10_000,
            v@ == transition_points(tn@, n as nat).take(i as int),
        decreases n - i,
    {
        let pt = if i < tn.len() && tn[i].valid {
            (tn[i].x as i64 - 6, tn[i].y as i64 - 14)
        } else {
            ((110 + 140 * (i % 8)) as i64, (40 + 140 * (i / 8)) as i64)
        };
        proof {
            assert(transition_points(tn@, n as nat).take(i + 1) == transition_points(tn@, n as nat).take(i as int).push(pt));
        }
        v.push(pt);
        i = i + 1;
    }
    proof {
        assert(transition_points(tn@, n as nat).take(n as int) == transition_points(tn@, n as nat));
    }
    v
}

proof fn lemma_shape_covers(m: Seq<Vec<u32>>, rows: nat, cols: nat)
    requires
        crate::model::matrix_has_shape(m, rows, cols),
    ensures
        crate::model::covers(m, rows, cols),
{
    assert forall|p: int| 0 <= p < rows implies cols <= (#[trigger] m[p])@.len() by {}
}

fn counts_and_warnings(bytes: &[u8], candidates: &Vec<(usize, u32, u32)>) -> (r: (usize, usize, Vec<String>))
    requires
        candidates@ == detected_counts(bytes@),
    ensures
        (r.0, r.1) == legacy_counts(bytes@),
        strings_match(r.2@, count_warnings(bytes@)),
        1 <= r.0 <= 10_000,
        1 <= r.1 <= 10_000,
{
    let mut warnings: Vec<String> = Vec::new();
    match header_counts_from_prefix(bytes) {
        Some((p, t)) => (p, t, warnings),
        None => {
            if candidates.len() > 0 {
                let (_, p, t) = candidates[0];
                push_text(&mut warnings, WARN_HEURISTIC_COUNTS.to_owned(), Ghost(Seq::empty()));
                proof {
                    assert(Seq::<Seq<char>>::empty().push(WARN_HEURISTIC_COUNTS@) =~= count_warnings(bytes@));
                }
                let p2 = if p < 1 { 1 } else if p > 2000 { 2000 } else { p };
                let t2 = if t < 1 { 1 } else if t > 2000 { 2000 } else { t };
                (p2 as usize, t2 as usize, warnings)
            } else {
                push_text(&mut warnings, WARN_DEFAULT_COUNTS.to_owned(), Ghost(Seq::empty()));
                proof {
                    assert(Seq::<Seq<char>>::empty().push(WARN_DEFAULT_COUNTS@) =~= count_warnings(bytes@));
                }
                (1usize, 1usize, warnings)
            }
        },
    }
}

/// The arc phase of an import on a net whose node positions are the
/// integer points `pxy` and `txy`; returns the warning it gives, if any.
fn legacy_arc_step(
    model: &mut PetriNetModel,
    bytes: &[u8],
    pc: usize,
    tc: usize,
    l: LegacyLayout,
    pxy: &Vec<(i64, i64)>,
    txy: &Vec<(i64, i64)>,
) -> (w: Option<String>)
    requires
        bytes@.len() <= u32::MAX,
        old(model).places@.len() == pc,
        old(model).transitions@.len() == tc,
        old(model).tables.has_shape(pc as nat, tc as nat),
        pxy@.len() == pc,
        txy@.len() == tc,
        forall|i: int| 0 <= i < pc ==> {
            &&& f32_denotes_int((#[trigger] old(model).places@[i]).pos[0], pxy@[i].0 as int)
            &&& f32_denotes_int(old(model).places@[i].pos[1], pxy@[i].1 as int)
        },
        forall|i: int| 0 <= i < tc ==> {
            &&& f32_denotes_int((#[trigger] old(model).transitions@[i]).pos[0], txy@[i].0 as int)
            &&& f32_denotes_int(old(model).transitions@[i].pos[1], txy@[i].1 as int)
        },
    ensures
        legacy_arc_phase(*final(model), *old(model), bytes@, pc, tc, l, pxy@, txy@),
        w matches Some(t) ==> t@ == (if signature_found(bytes@, pc, tc) { WARN_SIGNATURE_ARCS@ } else { WARN_NO_ARCS@ }),
        (w is None) == section_found(bytes@, l.arcs_offset as int, pc, tc),
{
    let ghost m2 = *model;
    let section = parse_arcs_from_section(bytes, pc, tc, l);
    let mut warning: Option<String> = None;
    let found = match section {
        Some(v) => Some(v),
        None => match parse_arcs_by_signature(bytes, pc, tc) {
            Some(v) => {
                warning = Some(WARN_SIGNATURE_ARCS.to_owned());
                Some(v)
            },
            None => {
                warning = Some(WARN_NO_ARCS.to_owned());
                None
            },
        },
    };
    match found {
        Some(v) => {
            apply_legacy_arcs(model, v.as_slice());
            let ghost m3 = *model;
            prune_legacy_ghost_nodes(model, pxy, txy);
            let ghost m4 = *model;
            proof {
                lemma_shape_covers(m4.tables.pre@, m4.places@.len(), m4.transitions@.len());
                lemma_shape_covers(m4.tables.post@, m4.places@.len(), m4.transitions@.len());
                lemma_shape_covers(m4.tables.inhibitor@, m4.places@.len(), m4.transitions@.len());
            }
            apply_legacy_read_arc_heuristics(model);
            proof {
                assert(rebuilt_with(
                    m3,
                    m2,
                    legacy_arcs_written(v@, m2.pids(), m2.tids()).0,
                    legacy_arcs_written(v@, m2.pids(), m2.tids()).1,
                ));
                assert(ghosts_pruned(m4, m3, pxy@, txy@));
                assert(legacy_arcs_cleaned(*model, m2, v@, pxy@, txy@));
            }
        },
        None => {},
    }
    warning
}

/// The node phase of an import: a fresh net of the counts with the node
/// records of layout `l` read into it, and the integer points of its nodes.
fn read_legacy_nodes(bytes: &[u8], pc: usize, tc: usize, l: LegacyLayout) -> (r: (PetriNetModel, Vec<(i64, i64)>, Vec<(i64, i64)>))
    requires
        1 <= pc <= 10_000,
        1 <= tc <= 10_000,
        l == layout_for(16, pc as int, tc as int) || l == layout_for(247, pc as int, tc as int),
    ensures
        exists|m0: PetriNetModel, m1: PetriNetModel, pn: Seq<LegacyPlaceNode>, tn: Seq<LegacyTransitionNode>|
            #[trigger] fresh_net(m0, pc as nat, tc as nat) && #[trigger] nodes_read_into(r.0, m1, m0, pn, tn, bytes@, pc as nat, tc as nat, l)
                && r.1@ == place_points(pn, pc as nat) && r.2@ == transition_points(tn, tc as nat),
        r.0.places@.len() == pc,
        r.0.transitions@.len() == tc,
        r.0.tables.has_shape(pc as nat, tc as nat),
        r.1@.len() == pc,
        r.2@.len() == tc,
        forall|i: int| 0 <= i < pc ==> {
            &&& f32_denotes_int((#[trigger] r.0.places@[i]).pos[0], r.1@[i].0 as int)
            &&& f32_denotes_int(r.0.places@[i].pos[1], r.1@[i].1 as int)
        },
        forall|i: int| 0 <= i < tc ==> {
            &&& f32_denotes_int((#[trigger] r.0.transitions@[i]).pos[0], r.2@[i].0 as int)
            &&& f32_denotes_int(r.0.transitions@[i].pos[1], r.2@[i].1 as int)
        },
{
    let mut model = fresh_legacy_net(pc, tc);
    let ghost m0 = model;
    let pn = parse_place_nodes_from_layout(bytes, pc, l);
    let tn = parse_transition_nodes_from_layout(bytes, tc, l);
    apply_place_nodes(&mut model, &pn);
    let ghost m1 = model;
    apply_transition_nodes(&mut model, &tn);
    let ghost m2 = model;
    let pxy = place_point_vec(&pn, pc);
    let txy = transition_point_vec(&tn, tc);
    proof {
        assert(nodes_read_into(m2, m1, m0, pn@, tn@, bytes@, pc as nat, tc as nat, l));
        assert forall|i: int| 0 <= i < pc implies {
            &&& f32_denotes_int((#[trigger] m2.places@[i]).pos[0], pxy@[i].0 as int)
            &&& f32_denotes_int(m2.places@[i].pos[1], pxy@[i].1 as int)
        } by {
            assert(place_row_read(m1, m0, pn@, i));
            if !valid_node_at(pn@, i) {
                assert(place_slot_ok(m0.places@[i], Seq::empty(), i, m0.pids().take(i)));
                crate::model::lemma_grid_row_exact(i as nat);
            }
        }
        assert forall|i: int| 0 <= i < tc implies {
            &&& f32_denotes_int((#[trigger] m2.transitions@[i]).pos[0], txy@[i].0 as int)
            &&& f32_denotes_int(m2.transitions@[i].pos[1], txy@[i].1 as int)
        } by {
            assert(transition_col_read(m2, m1, tn@, i));
            if !valid_transition_node_at(tn@, i) {
                assert(transition_slot_ok(m0.transitions@[i], Seq::empty(), i, m0.tids().take(i), m0.tids()));
                crate::model::lemma_grid_row_exact(i as nat);
            }
        }
    }
    (model, pxy, txy)
}

/// The net of an import and the warning of its arc phase (or of a missing
/// layout), given the counts.
#[verifier::rlimit(40)]
fn legacy_net(bytes: &[u8], pc: usize, tc: usize) -> (r: (PetriNetModel, Option<String>, Option<LegacyLayout>))
    requires
        bytes@.len() <= u32::MAX,
        (pc, tc) == legacy_counts(bytes@),
        1 <= pc <= 10_000,
        1 <= tc <= 10_000,
    ensures
        legacy_model(r.0, bytes@),
        r.2 == detected_layout(bytes@, pc as nat, tc as nat),
        r.1 matches Some(t) ==> t@ == (match r.2 {
            None => WARN_NO_LAYOUT@,
            Some(l) => if signature_found(bytes@, pc, tc) { WARN_SIGNATURE_ARCS@ } else { WARN_NO_ARCS@ },
        }),
        (r.1 is None) == (r.2 matches Some(l) && section_found(bytes@, l.arcs_offset as int, pc, tc)),
{
    let layout = detect_legacy_layout(bytes, pc, tc);
    match layout {
        Some(l) => {
            let (mut model, pxy, txy) = read_legacy_nodes(bytes, pc, tc, l);
            let ghost m2 = model;
            let w = legacy_arc_step(&mut model, bytes, pc, tc, l, &pxy, &txy);
            proof {
                let (m0, m1, pn, tn) = choose|m0: PetriNetModel, m1: PetriNetModel, pn: Seq<LegacyPlaceNode>, tn: Seq<LegacyTransitionNode>|
                    #[trigger] fresh_net(m0, pc as nat, tc as nat) && #[trigger] nodes_read_into(m2, m1, m0, pn, tn, bytes@, pc as nat, tc as nat, l)
                        && pxy@ == place_points(pn, pc as nat) && txy@ == transition_points(tn, tc as nat);
                assert(legacy_arc_phase(model, m2, bytes@, pc, tc, l, place_points(pn, pc as nat), transition_points(tn, tc as nat)));
                assert(nodes_read_into(m2, m1, m0, pn, tn, bytes@, pc as nat, tc as nat, l));
                assert(fresh_net(m0, pc as nat, tc as nat));
            }
            (model, w, layout)
        },
        None => {
            let model = fresh_legacy_net(pc, tc);
            proof {
                assert(fresh_net(model, pc as nat, tc as nat));
            }
            (model, Some(WARN_NO_LAYOUT.to_owned()), layout)
        },
    }
}

/// Imports a legacy file from its bytes: counts from the header (or a
/// guess), the section layout, node records, arcs (from their section or
/// by scanning), ghost-node pruning and the read-arc heuristic, with
/// warnings for every guess and debug information about the file.
#[verifier::rlimit(40)]
pub fn import_legacy_gpn(bytes: &[u8]) -> (r: Result<LegacyImportResult, LegacyImportError>)
    requires
        bytes@.len() <= u32::MAX,
        bytes@.len() <= isize::MAX,
    ensures
        (bytes@.len() == 0) == (r is Err),
        r matches Err(e) ==> (e matches LegacyImportError::Invalid(msg) && msg@ == EMPTY_FILE@),
        r matches Ok(res) ==> {
            &&& legacy_model(res.model, bytes@)
            &&& crate::model::model_problem(res.model) is None
            &&& strings_match(res.warnings@, legacy_warnings(bytes@))
            &&& res.debug.file_size == bytes@.len()
            &&& res.debug.candidate_counts@ == detected_counts(bytes@)
            &&& strings_match(res.debug.discovered_sections@, legacy_sections(bytes@))
            &&& texts_match(res.debug.ascii_strings@, ascii_runs_from(bytes@, 4, 0, None))
            &&& texts_match(res.debug.utf16le_strings@, utf16_runs_from(bytes@, 4, 0))
            &&& res.debug.candidate_float64_pairs@ == float_pairs_from(bytes@, 256, 0, 0)
        },
{
    if bytes.len() == 0 {
        return Err(LegacyImportError::Invalid(EMPTY_FILE.to_owned()));
    }
    let ghost b = bytes@;
    let candidate_counts = detect_counts(bytes);
    let ascii_strings = extract_ascii_strings(bytes, 4);
    let utf16le_strings = extract_utf16le_strings(bytes, 4);
    let candidate_float64_pairs = extract_float64_pairs(bytes, 256);
    let (pc, tc, mut warnings) = counts_and_warnings(bytes, &candidate_counts);
    let ghost mut expect: Seq<Seq<char>> = count_warnings(b);
    let (model, w, layout) = legacy_net(bytes, pc, tc);
    match w {
        Some(t) => {
            let ghost tv = t@;
            push_text(&mut warnings, t, Ghost(expect));
            proof {
                expect = expect.push(tv);
            }
            push_text(&mut warnings, WARN_BEST_EFFORT.to_owned(), Ghost(expect));
            proof {
                expect = expect.push(WARN_BEST_EFFORT@);
            }
        },
        None => {},
    }
    proof {
        assert(expect =~= legacy_warnings(b));
    }
    let mut discovered_sections = detect_section_boundaries(bytes);
    match layout {
        Some(l) => {
            let ghost before = discovered_sections@;
            let note = layout_note(l);
            let ghost nv = note@;
            push_text(&mut discovered_sections, note, Ghost(({
                let c = detected_counts(b);
                let first = if c.len() > 5 { c.take(5) } else { c };
                first.map_values(|x: (usize, u32, u32)| candidate_text(x))
            })));
        },
        None => {},
    }
    let debug = LegacyDebugInfo {
        file_size: bytes.len(),
        candidate_counts,
        discovered_sections,
        ascii_strings,
        utf16le_strings,
        candidate_float64_pairs,
    };
    proof {
        lemma_imported_model_is_valid(b, model);
    }
    Ok(LegacyImportResult { model, warnings, debug })
}

/// An arc record of an exported file: inhibitor flag, direction (-1 from a
/// place, 1 from a transition), 1-based source and target rows, and the
/// nodes it joins.
#[derive(Clone, Copy, Debug, PartialEq, Eq, Structural)]
pub struct LegacyArcOut {
    pub inhibitor: bool,
    pub direction: i32,
    pub source_idx: usize,
    pub target_idx: usize,
    pub from: NodeRef,
    pub to: NodeRef,
}

/// Order of exported arc records: by inhibitor flag (ordinary arcs first),
/// direction, source row and target row.
pub open spec fn out_le(a: LegacyArcOut, b: LegacyArcOut) -> bool {
    ||| bool_lt(a.inhibitor, b.inhibitor)
    ||| (a.inhibitor == b.inhibitor && a.direction < b.direction)
    ||| (a.inhibitor == b.inhibitor && a.direction == b.direction && a.source_idx < b.source_idx)
    ||| (a.inhibitor == b.inhibitor && a.direction == b.direction && a.source_idx == b.source_idx
        && a.target_idx <= b.target_idx)
}

/// The exported records of one arc: as many as its weight (at least one),
/// when it joins a present place and a present transition; rows are the
/// 1-based last rows of the ids.
pub open spec fn arc_out_records(a: Arc, pids: Seq<u64>, tids: Seq<u64>) -> Seq<LegacyArcOut> {
    match arc_link(a) {
        Some((p, t, p2t)) => if pids.contains(p) && tids.contains(t) {
            let pi = (last_index(pids, p) + 1) as usize;
            let ti = (last_index(tids, t) + 1) as usize;
            Seq::new(
                at_least_one(a.weight) as nat,
                |k: int|
                    if p2t {
                        LegacyArcOut {
                            inhibitor: false,
                            direction: -1i32,
                            source_idx: pi,
                            target_idx: ti,
                            from: NodeRef::Place(p),
                            to: NodeRef::Transition(t),
                        }
                    } else {
                        LegacyArcOut {
                            inhibitor: false,
                            direction: 1i32,
                            source_idx: ti,
                            target_idx: pi,
                            from: NodeRef::Transition(t),
                            to: NodeRef::Place(p),
                        }
                    },
            )
        } else {
            Seq::empty()
        },
        None => Seq::empty(),
    }
}

/// The exported records of one inhibitor arc: as many as its threshold
/// (at least one), when both ends are present.
pub open spec fn inhibitor_out_records(a: InhibitorArc, pids: Seq<u64>, tids: Seq<u64>) -> Seq<LegacyArcOut> {
    if pids.contains(a.place_id) && tids.contains(a.transition_id) {
        let pi = (last_index(pids, a.place_id) + 1) as usize;
        let ti = (last_index(tids, a.transition_id) + 1) as usize;
        Seq::new(
            at_least_one(a.threshold) as nat,
            |k: int|
                LegacyArcOut {
                    inhibitor: true,
                    direction: -1i32,
                    source_idx: pi,
                    target_idx: ti,
                    from: NodeRef::Place(a.place_id),
                    to: NodeRef::Transition(a.transition_id),
                },
        )
    } else {
        Seq::empty()
    }
}

/// The exported records of the arcs, in order.
pub open spec fn arcs_out(arcs: Seq<Arc>, pids: Seq<u64>, tids: Seq<u64>) -> Seq<LegacyArcOut>
    decreases arcs.len(),
{
    if arcs.len() == 0 {
        Seq::empty()
    } else {
        arcs_out(arcs.drop_last(), pids, tids) + arc_out_records(arcs.last(), pids, tids)
    }
}

/// The exported records of the inhibitor arcs, in order.
pub open spec fn inhibitors_out(inhs: Seq<InhibitorArc>, pids: Seq<u64>, tids: Seq<u64>) -> Seq<LegacyArcOut>
    decreases inhs.len(),
{
    if inhs.len() == 0 {
        Seq::empty()
    } else {
        inhibitors_out(inhs.drop_last(), pids, tids) + inhibitor_out_records(inhs.last(), pids, tids)
    }
}

/// All exported arc records of a net, before sorting.
pub open spec fn legacy_out_records(m: PetriNetModel) -> Seq<LegacyArcOut> {
    arcs_out(m.arcs@, m.pids(), m.tids()) + inhibitors_out(m.inhibitor_arcs@, m.pids(), m.tids())
}

fn push_copies(out: &mut Vec<LegacyArcOut>, rec: LegacyArcOut, n: u32)
    ensures
        final(out)@ == old(out)@ + Seq::new(n as nat, |k: int| rec),
{
    let ghost start = out@;
    let mut k: u32 = 0;
    while k < n
        invariant
            k <= n,
            out@ == start + Seq::new(k as nat, |j: int| rec),
        decreases n - k,
    {
        out.push(rec);
        proof {
            assert(start + Seq::new((k + 1) as nat, |j: int| rec) =~= (start + Seq::new(k as nat, |j: int| rec)).push(rec));
        }
        k = k + 1;
    }
}

fn out_less_eq(a: &LegacyArcOut, b: &LegacyArcOut) -> (r: bool)
    ensures
        r == out_le(*a, *b),
{
    (!a.inhibitor && b.inhibitor) || (a.inhibitor == b.inhibitor && a.direction < b.direction) || (a.inhibitor
        == b.inhibitor && a.direction == b.direction && a.source_idx < b.source_idx) || (a.inhibitor == b.inhibitor
        && a.direction == b.direction && a.source_idx == b.source_idx && a.target_idx <= b.target_idx)
}

proof fn lemma_out_order(a: LegacyArcOut, b: LegacyArcOut, c: LegacyArcOut)
    ensures
        out_le(a, b) && out_le(b, c) ==> out_le(a, c),
        out_le(a, b) || out_le(b, a),
{
}

/// The unsorted exported records of a net.
fn raw_arc_records(model: &PetriNetModel) -> (out: Vec<LegacyArcOut>)
    ensures
        out@ == legacy_out_records(*model),
{
    let pid_vec = place_id_vec(&model.places);
    let tid_vec = transition_id_vec(&model.transitions);
    let ghost pids = pid_vec@;
    let ghost tids = tid_vec@;
    let pmap = last_index_map(&pid_vec);
    let tmap = last_index_map(&tid_vec);
    let np = pid_vec.len();
    let nt = tid_vec.len();
    let mut out: Vec<LegacyArcOut> = Vec::new();
    let mut k: usize = 0;
    while k < model.arcs.len()
        invariant
            k <= model.arcs@.len(),
            np == pids.len(),
            nt == tids.len(),
            pids == model.pids(),
            tids == model.tids(),
            is_last_index_map(pmap@, pids),
            is_last_index_map(tmap@, tids),
            out@ == arcs_out(model.arcs@.take(k as int), pids, tids),
        decreases model.arcs@.len() - k,
    {
        let a = model.arcs[k];
        proof {
            assert(model.arcs@.take(k + 1).drop_last() == model.arcs@.take(k as int));
            assert(model.arcs@.take(k + 1).last() == a);
        }
        let w = if a.weight == 0 { 1 } else { a.weight };
        let ghost start = out@;
        match (a.from, a.to) {
            (NodeRef::Place(p), NodeRef::Transition(t)) => {
                proof {
                    lemma_last_index(pids, p);
                    lemma_last_index(tids, t);
                }
                match (pmap.get(&p), tmap.get(&t)) {
                    (Some(pi), Some(ti)) => {
                        let rec = LegacyArcOut {
                            inhibitor: false,
                            direction: -1,
                            source_idx: *pi + 1,
                            target_idx: *ti + 1,
                            from: NodeRef::Place(p),
                            to: NodeRef::Transition(t),
                        };
                        push_copies(&mut out, rec, w);
                        proof {
                            assert(Seq::new(w as nat, |j: int| rec) =~= arc_out_records(a, pids, tids));
                        }
                    },
                    _ => {
                        proof {
                            assert(start + arc_out_records(a, pids, tids) =~= start);
                        }
                    },
                }
            },
            (NodeRef::Transition(t), NodeRef::Place(p)) => {
                proof {
                    lemma_last_index(pids, p);
                    lemma_last_index(tids, t);
                }
                match (pmap.get(&p), tmap.get(&t)) {
                    (Some(pi), Some(ti)) => {
                        let rec = LegacyArcOut {
                            inhibitor: false,
                            direction: 1,
                            source_idx: *ti + 1,
                            target_idx: *pi + 1,
                            from: NodeRef::Transition(t),
                            to: NodeRef::Place(p),
                        };
                        push_copies(&mut out, rec, w);
                        proof {
                            assert(Seq::new(w as nat, |j: int| rec) =~= arc_out_records(a, pids, tids));
                        }
                    },
                    _ => {
                        proof {
                            assert(start + arc_out_records(a, pids, tids) =~= start);
                        }
                    },
                }
            },
            _ => {
                proof {
                    assert(start + arc_out_records(a, pids, tids) =~= start);
                }
            },
        }
        k = k + 1;
    }
    proof {
        assert(model.arcs@.take(model.arcs@.len() as int) == model.arcs@);
    }
    let ghost arcs_part = out@;
    let mut j: usize = 0;
    while j < model.inhibitor_arcs.len()
        invariant
            j <= model.inhibitor_arcs@.len(),
            np == pids.len(),
            nt == tids.len(),
            pids == model.pids(),
            tids == model.tids(),
            is_last_index_map(pmap@, pids),
            is_last_index_map(tmap@, tids),
            arcs_part == arcs_out(model.arcs@, pids, tids),
            out@ == arcs_part + inhibitors_out(model.inhibitor_arcs@.take(j as int), pids, tids),
        decreases model.inhibitor_arcs@.len() - j,
    {
        let a = model.inhibitor_arcs[j];
        proof {
            assert(model.inhibitor_arcs@.take(j + 1).drop_last() == model.inhibitor_arcs@.take(j as int));
            assert(model.inhibitor_arcs@.take(j + 1).last() == a);
            lemma_last_index(pids, a.place_id);
            lemma_last_index(tids, a.transition_id);
        }
        let w = if a.threshold == 0 { 1 } else { a.threshold };
        let ghost start = out@;
        match (pmap.get(&a.place_id), tmap.get(&a.transition_id)) {
            (Some(pi), Some(ti)) => {
                let rec = LegacyArcOut {
                    inhibitor: true,
                    direction: -1,
                    source_idx: *pi + 1,
                    target_idx: *ti + 1,
                    from: NodeRef::Place(a.place_id),
                    to: NodeRef::Transition(a.transition_id),
                };
                push_copies(&mut out, rec, w);
                proof {
                    assert(Seq::new(w as nat, |k: int| rec) =~= inhibitor_out_records(a, pids, tids));
                }
            },
            _ => {
                proof {
                    assert(start + inhibitor_out_records(a, pids, tids) =~= start);
                }
            },
        }
        j = j + 1;
    }
    proof {
        assert(model.inhibitor_arcs@.take(model.inhibitor_arcs@.len() as int) == model.inhibitor_arcs@);
    }
    out
}

/// The exported arc records of a net, sorted by inhibitor flag, direction,
/// source and target (records with equal keys join the same nodes).
pub fn legacy_arc_records(model: &PetriNetModel) -> (out: Vec<LegacyArcOut>)
    ensures
        forall|i: int, j: int| 0 <= i < j < out@.len() ==> out_le(#[trigger] out@[i], #[trigger] out@[j]),
        out@.to_multiset() == legacy_out_records(*model).to_multiset(),
        forall|k: int| 0 <= k < out@.len() ==> record_reads_right(#[trigger] out@[k], model.pids(), model.tids()),
{
    let raw = raw_arc_records(model);
    let mut out: Vec<LegacyArcOut> = Vec::new();
    proof {
        assert(out@ =~= raw@.take(0));
    }
    let mut k: usize = 0;
    while k < raw.len()
        invariant
            k <= raw@.len(),
            raw@ == legacy_out_records(*model),
            forall|i: int, j: int| 0 <= i < j < out@.len() ==> out_le(#[trigger] out@[i], #[trigger] out@[j]),
            out@.to_multiset() == raw@.take(k as int).to_multiset(),
        decreases raw@.len() - k,
    {
        let r = raw[k];
        let mut pos: usize = 0;
        while pos < out.len() && out_less_eq(&out[pos], &r)
            invariant
                pos <= out@.len(),
                forall|i: int| 0 <= i < pos ==> out_le(#[trigger] out@[i], r),
            decreases out@.len() - pos,
        {
            pos = pos + 1;
        }
        let ghost before = out@;
        out.insert(pos, r);
        proof {
            assert(raw@.take(k + 1) == raw@.take(k as int).push(r));
            vstd::seq_lib::to_multiset_insert(before, pos as int, r);
            vstd::seq_lib::to_multiset_build(raw@.take(k as int), r);
            assert forall|a: int, b: int| 0 <= a < b < out@.len() implies out_le(#[trigger] out@[a], #[trigger] out@[b]) by {
                if pos < before.len() {
                    lemma_out_order(before[pos as int], r, r);
                }
                if a < pos && b == pos {
                } else if a < pos && b > pos {
                    assert(out_le(before[a], before[b - 1]));
                } else if a == pos {
                    if b - 1 >= pos {
                        assert(!out_le(before[pos as int], r));
                        lemma_out_order(before[pos as int], r, r);
                        if b - 1 > pos {
                            assert(out_le(before[pos as int], before[b - 1]));
                            lemma_out_order(r, before[pos as int], before[b - 1]);
                        }
                    }
                } else if b <= pos {
                    assert(out_le(before[a], before[b]));
                } else {
                    assert(out_le(before[a - 1], before[b - 1]));
                }
            }
        }
        k = k + 1;
    }
    proof {
        assert(raw@.take(raw@.len() as int) == raw@);
        let all = legacy_out_records(*model);
        lemma_export_records_read_right(*model);
        out@.to_multiset_ensures();
        all.to_multiset_ensures();
        assert forall|k: int| 0 <= k < out@.len() implies record_reads_right(#[trigger] out@[k], model.pids(), model.tids()) by {
            assert(out@.contains(out@[k]));
            assert(out@.to_multiset().count(out@[k]) > 0);
            assert(all.contains(out@[k]));
            let j = choose|j: int| 0 <= j < all.len() && all[j] == out@[k];
            assert(record_reads_right(all[j], model.pids(), model.tids()));
        }
    }
    out
}

/// `n` zero bytes.
pub open spec fn zero_bytes(n: nat) -> Seq<u8> {
    Seq::new(n, |i: int| 0u8)
}

/// `s` with the little-endian `v` written at `off`.
pub open spec fn put_i32(s: Seq<u8>, off: int, v: i32) -> Seq<u8> {
    overwrite(s, off, le_bytes_u32(v as u32))
}

/// `s` with the little-endian `v` written at `off`.
pub open spec fn put_u16(s: Seq<u8>, off: int, v: u16) -> Seq<u8> {
    overwrite(s, off, le_bytes_u16(v))
}

/// Prefixes of automatic place names (Latin and Cyrillic P).
pub open spec fn place_prefixes() -> Seq<char> {
    seq!['P', 'p', 'Р', 'р']
}

/// The label exported for a place: its note when its name is automatic
/// (`P1`, `P2`, ...) and the note is not blank, else its name.
pub open spec fn place_label(p: Place) -> Seq<char> {
    if is_auto_name_spec(p.name@, place_prefixes()) && trimmed(p.note@, false).len() > 0 {
        p.note@
    } else {
        p.name@
    }
}

/// The label exported for a transition: its note unless blank, else its name.
pub open spec fn transition_label(t: Transition) -> Seq<char> {
    if trimmed(t.note@, false).len() == 0 {
        t.name@
    } else {
        t.note@
    }
}

/// The delay exported: NaN, values below zero and `-0.0` become `+0.0`.
pub open spec fn exported_delay(d: u64) -> u64 {
    if crate::ieee::f64_is_nan(d) || crate::ieee::f64_is_negative(d) || d == 0x8000_0000_0000_0000 {
        0
    } else {
        d
    }
}

/// The exported record of place `i` whose rounded position is `xy`.
#[verifier::opaque]
pub open spec fn place_record(m: PetriNetModel, i: int, xy: (i32, i32)) -> Seq<u8> {
    let p = m.places@[i];
    let m0 = if i < m.tables.m0@.len() { m.tables.m0@[i] } else { 0 };
    let mo: u32 = if i < m.tables.mo@.len() {
        match m.tables.mo@[i] {
            Some(v) => v,
            None => 0,
        }
    } else {
        0
    };
    let mz = if i < m.tables.mz@.len() { m.tables.mz@[i] } else { 0 };
    let r = put_i32(zero_bytes(231), 0, xy.0);
    let r = put_i32(r, 4, xy.1);
    let r = put_i32(r, 8, 10);
    let r = put_i32(r, 12, m0 as i32);
    let r = put_i32(r, 16, mo as i32);
    let r = put_i32(r, 20, legacy_color_value(p.color));
    let r = overwrite(r, 77, le_bytes_u64(exported_delay(mz)));
    overwrite(r, 26, legacy_name_field(231, 26, place_label(p))->0)
}

/// The exported record of transition `i` whose rounded centre is `xy`.
#[verifier::opaque]
pub open spec fn transition_record(m: PetriNetModel, i: int, xy: (i32, i32)) -> Seq<u8> {
    let t = m.transitions@[i];
    let prio = if i < m.tables.mpr@.len() { m.tables.mpr@[i] } else { 1 };
    let r = put_i32(zero_bytes(105), 0, xy.0);
    let r = put_i32(r, 4, xy.1);
    let r = put_i32(r, 8, if prio < 0 { 0 } else { prio });
    let r = put_i32(r, 12, clamp_i32(t.angle_deg, -360i32, 360i32));
    let r = put_i32(r, 16, -131072i32);
    let r = put_i32(r, 20, -589825i32);
    let r = put_i32(r, 24, 196607);
    let r = put_i32(r, 28, -655360i32);
    let r = put_i32(r, 32, 196607);
    let r = put_i32(r, 36, 655360);
    let r = put_i32(r, 40, -131072i32);
    let r = put_i32(r, 44, 720895);
    let r = put_i32(r, 52, legacy_color_value(t.color));
    overwrite(r, 54, legacy_name_field(105, 54, transition_label(t))->0)
}

/// The exported record of an arc whose polyline points are `pts`
/// (x1, y1, x2, y2, x3, y3).
#[verifier::opaque]
pub open spec fn arc_record(a: LegacyArcOut, pts: [u16; 6]) -> Seq<u8> {
    let r = put_u16(zero_bytes(46), 2, pts[1]);
    let r = put_u16(r, 6, pts[3]);
    let r = put_u16(r, 10, pts[0]);
    let r = put_u16(r, 14, pts[5]);
    let r = put_i32(r, 24, if a.inhibitor { 0 } else { 1 });
    let r = put_i32(r, 28, a.direction);
    let r = put_i32(r, 32, a.source_idx as i32);
    let r = put_i32(r, 36, a.target_idx as i32);
    let r = put_i32(r, 40, pts[4] as i32);
    put_u16(r, 44, pts[2])
}

/// The records of the first `n` places, one after the other.
pub open spec fn place_records(m: PetriNetModel, xy: Seq<(i32, i32)>, n: nat) -> Seq<u8>
    decreases n,
{
    if n == 0 {
        Seq::empty()
    } else {
        place_records(m, xy, (n - 1) as nat) + place_record(m, n - 1, xy[n - 1])
    }
}

/// The records of the first `n` transitions, one after the other.
pub open spec fn transition_records(m: PetriNetModel, xy: Seq<(i32, i32)>, n: nat) -> Seq<u8>
    decreases n,
{
    if n == 0 {
        Seq::empty()
    } else {
        transition_records(m, xy, (n - 1) as nat) + transition_record(m, n - 1, xy[n - 1])
    }
}

/// The records of the first `n` arcs, one after the other.
pub open spec fn arc_records_bytes(recs: Seq<LegacyArcOut>, pts: Seq<[u16; 6]>, n: nat) -> Seq<u8>
    decreases n,
{
    if n == 0 {
        Seq::empty()
    } else {
        arc_records_bytes(recs, pts, (n - 1) as nat) + arc_record(recs[n - 1], pts[n - 1])
    }
}

/// A legacy file: the counts, 0x20 and 0, the place records, the
/// transition records, the arc section (highest index, two zero bytes,
/// records) and the trailer.
pub open spec fn legacy_file(
    m: PetriNetModel,
    place_xy: Seq<(i32, i32)>,
    transition_xy: Seq<(i32, i32)>,
    recs: Seq<LegacyArcOut>,
    pts: Seq<[u16; 6]>,
) -> Seq<u8> {
    let np = m.places@.len();
    let nt = m.transitions@.len();
    le_bytes_u32((np as i32) as u32) + le_bytes_u32((nt as i32) as u32) + le_bytes_u32(0x20) + le_bytes_u32(0)
        + place_records(m, place_xy, np) + transition_records(m, transition_xy, nt) + le_bytes_u32(
        ((recs.len() as int - 1) as i32) as u32,
    ) + seq![0u8, 0u8] + arc_records_bytes(recs, pts, recs.len()) + footer_bytes()
}

fn zero_vec(n: usize) -> (v: Vec<u8>)
    ensures
        v@ == zero_bytes(n as nat),
{
    let mut v: Vec<u8> = Vec::new();
    while v.len() < n
        invariant
            v@.len() <= n,
            v@ == zero_bytes(v@.len()),
        decreases n - v@.len(),
    {
        v.push(0);
        proof {
            assert(v@ =~= zero_bytes(v@.len()));
        }
    }
    v
}

fn exported_delay_bits(d: u64) -> (r: u64)
    ensures
        r == exported_delay(d),
{
    if crate::ieee::f64_bits_is_nan(d) || crate::ieee::f64_bits_is_negative(d) || d == 0x8000_0000_0000_0000 {
        0
    } else {
        d
    }
}

#[verifier::rlimit(50)]
fn place_record_vec(m: &PetriNetModel, i: usize, xy: (i32, i32)) -> (r: Vec<u8>)
    requires
        i < m.places@.len(),
    ensures
        r@ == place_record(*m, i as int, xy),
{
    reveal(place_record);
    let p = &m.places[i];
    let m0 = if i < m.tables.m0.len() { m.tables.m0[i] } else { 0 };
    let mo: u32 = if i < m.tables.mo.len() {
        match m.tables.mo[i] {
            Some(v) => v,
            None => 0,
        }
    } else {
        0
    };
    let mz = if i < m.tables.mz.len() { m.tables.mz[i] } else { 0 };
    let mut r = zero_vec(231);
    write_i32(&mut r, 0, xy.0);
    write_i32(&mut r, 4, xy.1);
    write_i32(&mut r, 8, 10);
    write_i32(&mut r, 12, m0 as i32);
    write_i32(&mut r, 16, mo as i32);
    write_i32(&mut r, 20, map_color_to_legacy(p.color));
    write_f64(&mut r, 77, exported_delay_bits(mz));
    let prefixes: [char; 4] = ['P', 'p', 'Р', 'р'];
    proof {
        assert(prefixes@ == place_prefixes());
    }
    let note_cs = crate::text::chars_of(p.note.as_str());
    let note_blank = crate::text::trim_chars(&note_cs, false).len() == 0;
    let label = if crate::text::is_auto_name(p.name.as_str(), prefixes.as_slice()) && !note_blank {
        p.note.as_str()
    } else {
        p.name.as_str()
    };
    write_legacy_name(&mut r, 26, label);
    r
}

#[verifier::rlimit(50)]
#[verifier::rlimit(40)]
fn transition_record_vec(m: &PetriNetModel, i: usize, xy: (i32, i32)) -> (r: Vec<u8>)
    requires
        i < m.transitions@.len(),
    ensures
        r@ == transition_record(*m, i as int, xy),
{
    reveal(transition_record);
    let t = &m.transitions[i];
    let prio = if i < m.tables.mpr.len() { m.tables.mpr[i] } else { 1 };
    let mut r = zero_vec(105);
    write_i32(&mut r, 0, xy.0);
    write_i32(&mut r, 4, xy.1);
    write_i32(&mut r, 8, if prio < 0 { 0 } else { prio });
    write_i32(&mut r, 12, clamp_to(t.angle_deg, -360, 360));
    write_i32(&mut r, 16, -131072);
    write_i32(&mut r, 20, -589825);
    write_i32(&mut r, 24, 196607);
    write_i32(&mut r, 28, -655360);
    write_i32(&mut r, 32, 196607);
    write_i32(&mut r, 36, 655360);
    write_i32(&mut r, 40, -131072);
    write_i32(&mut r, 44, 720895);
    write_i32(&mut r, 52, map_color_to_legacy(t.color));
    let note_cs = crate::text::chars_of(t.note.as_str());
    let note_blank = crate::text::trim_chars(&note_cs, false).len() == 0;
    let label = if note_blank { t.name.as_str() } else { t.note.as_str() };
    write_legacy_name(&mut r, 54, label);
    r
}

#[verifier::rlimit(50)]
fn arc_record_vec(a: &LegacyArcOut, pts: &[u16; 6]) -> (r: Vec<u8>)
    ensures
        r@ == arc_record(*a, *pts),
{
    reveal(arc_record);
    let mut r = zero_vec(46);
    write_u16(&mut r, 2, pts[1]);
    write_u16(&mut r, 6, pts[3]);
    write_u16(&mut r, 10, pts[0]);
    write_u16(&mut r, 14, pts[5]);
    write_i32(&mut r, 24, if a.inhibitor { 0 } else { 1 });
    write_i32(&mut r, 28, a.direction);
    write_i32(&mut r, 32, a.source_idx as i32);
    write_i32(&mut r, 36, a.target_idx as i32);
    write_i32(&mut r, 40, pts[4] as i32);
    write_u16(&mut r, 44, pts[2]);
    r
}

/// Encodes a net as a legacy file, given the rounded positions of the
/// places, the rounded centres of the transitions, the sorted arc records
/// and their polyline points.
#[verifier::rlimit(50)]
pub fn encode_legacy_gpn(
    model: &PetriNetModel,
    place_xy: &Vec<(i32, i32)>,
    transition_xy: &Vec<(i32, i32)>,
    records: &Vec<LegacyArcOut>,
    points: &Vec<[u16; 6]>,
) -> (bytes: Vec<u8>)
    requires
        place_xy@.len() == model.places@.len(),
        transition_xy@.len() == model.transitions@.len(),
        points@.len() == records@.len(),
    ensures
        bytes@ == legacy_file(*model, place_xy@, transition_xy@, records@, points@),
{
    let np = model.places.len();
    let nt = model.transitions.len();
    let mut bytes: Vec<u8> = Vec::new();
    push_i32(&mut bytes, np as i32);
    push_i32(&mut bytes, nt as i32);
    push_i32(&mut bytes, 0x20);
    push_i32(&mut bytes, 0);
    let ghost head = bytes@;
    let mut i: usize = 0;
    while i < np
        invariant
            i <= np,
            np == model.places@.len(),
            place_xy@.len() == np,
            bytes@ == head + place_records(*model, place_xy@, i as nat),
        decreases np - i,
    {
        let mut rec = place_record_vec(model, i, place_xy[i]);
        bytes.append(&mut rec);
        proof {
            assert(head + place_records(*model, place_xy@, (i + 1) as nat) == head + place_records(*model, place_xy@, i as nat)
                + place_record(*model, i as int, place_xy@[i as int]));
        }
        i = i + 1;
    }
    let ghost head2 = bytes@;
    let mut j: usize = 0;
    while j < nt
        invariant
            j <= nt,
            nt == model.transitions@.len(),
            transition_xy@.len() == nt,
            bytes@ == head2 + transition_records(*model, transition_xy@, j as nat),
        decreases nt - j,
    {
        let mut rec = transition_record_vec(model, j, transition_xy[j]);
        bytes.append(&mut rec);
        proof {
            assert(head2 + transition_records(*model, transition_xy@, (j + 1) as nat) == head2 + transition_records(
                *model,
                transition_xy@,
                j as nat,
            ) + transition_record(*model, j as int, transition_xy@[j as int]));
        }
        j = j + 1;
    }
    let n = records.len();
    let max_index: i32 = if n == 0 { -1 } else { (n - 1) as i32 };
    proof {
        assert(max_index == ((n as int - 1) as i32));
    }
    push_i32(&mut bytes, max_index);
    bytes.push(0);
    bytes.push(0);
    let ghost head3 = bytes@;
    let mut k: usize = 0;
    while k < n
        invariant
            k <= n,
            n == records@.len(),
            points@.len() == n,
            bytes@ == head3 + arc_records_bytes(records@, points@, k as nat),
        decreases n - k,
    {
        let mut rec = arc_record_vec(&records[k], &points[k]);
        bytes.append(&mut rec);
        proof {
            assert(head3 + arc_records_bytes(records@, points@, (k + 1) as nat) == head3 + arc_records_bytes(
                records@,
                points@,
                k as nat,
            ) + arc_record(records@[k as int], points@[k as int]));
        }
        k = k + 1;
    }
    let mut footer = legacy_footer_template();
    bytes.append(&mut footer);
    proof {
        assert(bytes@ =~= legacy_file(*model, place_xy@, transition_xy@, records@, points@));
    }
    bytes
}

/// `norm` is `model` with its matrices rebuilt from its arcs, and `recs`
/// are the exported arc records of `norm` in their sorted order.
pub open spec fn export_records_of(norm: PetriNetModel, recs: Seq<LegacyArcOut>, model: PetriNetModel) -> bool {
    &&& rebuilt_with(norm, model, model.arcs@, model.inhibitor_arcs@)
    &&& forall|i: int, j: int| 0 <= i < j < recs.len() ==> out_le(#[trigger] recs[i], #[trigger] recs[j])
    &&& recs.to_multiset() == legacy_out_records(norm).to_multiset()
}

/// Encodes a net as a legacy file the way the export does: the matrices
/// rebuilt from the arcs, the arc records sorted, with the given rounded
/// node positions and one polyline per record; `None` when the number of
/// polylines is not the number of records.
pub fn export_legacy_bytes(
    model: PetriNetModel,
    place_xy: &Vec<(i32, i32)>,
    transition_xy: &Vec<(i32, i32)>,
    points: &Vec<[u16; 6]>,
) -> (r: Option<Vec<u8>>)
    requires
        place_xy@.len() == model.places@.len(),
        transition_xy@.len() == model.transitions@.len(),
    ensures
        exists|norm: PetriNetModel, recs: Seq<LegacyArcOut>|
            {
                &&& #[trigger] export_records_of(norm, recs, model)
                &&& (r is None <==> points@.len() != recs.len())
                &&& (r matches Some(b) ==> b@ == legacy_file(norm, place_xy@, transition_xy@, recs, points@))
            },
{
    let ghost before = model;
    let mut norm = model;
    norm.rebuild_matrices_from_arcs();
    let records = legacy_arc_records(&norm);
    let r = if records.len() != points.len() {
        None
    } else {
        Some(encode_legacy_gpn(&norm, place_xy, transition_xy, &records, points))
    };
    proof {
        assert(export_records_of(norm, records@, before));
    }
    r
}


/// The kept entries all come from the sequence.
proof fn lemma_select_contains<T>(s: Seq<T>, keep: Seq<bool>)
    ensures
        forall|i: int| 0 <= i < select(s, keep).len() ==> s.contains(#[trigger] select(s, keep)[i]),
    decreases s.len(),
{
    if s.len() > 0 {
        let d = s.drop_last();
        lemma_select_contains(d, keep);
        let prev = select(d, keep);
        let r = select(s, keep);
        assert forall|i: int| 0 <= i < r.len() implies s.contains(#[trigger] r[i]) by {
            if i < prev.len() {
                assert(r[i] == prev[i]);
                assert(d.contains(prev[i]));
                let k = choose|k: int| 0 <= k < d.len() && d[k] == prev[i];
                assert(s[k] == d[k]);
            } else {
                assert(r[i] == s[s.len() - 1]);
            }
        }
    }
}

/// Keeping entries of a sequence with distinct keys keeps the keys distinct.
proof fn lemma_select_distinct<T>(s: Seq<T>, keep: Seq<bool>, key: spec_fn(T) -> u64)
    requires
        forall|i: int, j: int| 0 <= i < j < s.len() ==> key(#[trigger] s[i]) != key(#[trigger] s[j]),
    ensures
        forall|i: int, j: int|
            0 <= i < j < select(s, keep).len() ==> key(#[trigger] select(s, keep)[i]) != key(#[trigger] select(s, keep)[j]),
    decreases s.len(),
{
    lemma_select_contains(s, keep);
    if s.len() > 0 {
        let d = s.drop_last();
        assert forall|i: int, j: int| 0 <= i < j < d.len() implies key(#[trigger] d[i]) != key(#[trigger] d[j]) by {
            assert(d[i] == s[i] && d[j] == s[j]);
        }
        lemma_select_distinct(d, keep, key);
        lemma_select_contains(d, keep);
        let prev = select(d, keep);
        let r = select(s, keep);
        assert forall|i: int, j: int| 0 <= i < j < r.len() implies key(#[trigger] r[i]) != key(#[trigger] r[j]) by {
            if j < prev.len() {
                assert(r[i] == prev[i] && r[j] == prev[j]);
            } else {
                assert(r[i] == prev[i]);
                assert(r[j] == s[s.len() - 1]);
                assert(d.contains(prev[i]));
                let k = choose|k: int| 0 <= k < d.len() && d[k] == prev[i];
                assert(s[k] == d[k]);
            }
        }
    }
}

/// A binary32 pattern that denotes an integer is finite.
proof fn lemma_int_pos_finite(b: u32, n: int)
    requires
        f32_denotes_int(b, n),
    ensures
        crate::ieee::f32_is_finite(b),
{
}

/// A fresh net passes every check.
proof fn lemma_fresh_sound(m: PetriNetModel, pc: nat, tc: nat)
    requires
        fresh_net(m, pc, tc),
        pc <= usize::MAX,
        tc <= usize::MAX,
    ensures
        crate::model::model_sound(m),
{
    let e: Seq<u64> = Seq::empty();
    let ps = m.pids();
    assert forall|i: int| 0 <= i < ps.len() implies #[trigger] ps[i] == crate::model::fixed_id(
        if i < e.len() { e[i] } else { 0u64 },
        i,
        ps.take(i),
    ) by {
        assert(place_slot_ok(m.places@[i], Seq::empty(), i, m.pids().take(i)));
    }
    crate::model::lemma_fixed_ids(e, ps);
    assert forall|i: int, j: int| 0 <= i < j < m.places@.len() implies #[trigger] m.places@[i].id != #[trigger] m.places@[j].id by {
        assert(ps[i] == m.places@[i].id && ps[j] == m.places@[j].id);
    }
    assert forall|i: int| 0 <= i < m.places@.len() implies crate::ieee::f32_is_finite((#[trigger] m.places@[i]).pos[0])
        && crate::ieee::f32_is_finite(m.places@[i].pos[1]) by {
        assert(place_slot_ok(m.places@[i], Seq::empty(), i, m.pids().take(i)));
        lemma_int_pos_finite(m.places@[i].pos[0], (40 + (i % 8) * 140) as int);
        lemma_int_pos_finite(m.places@[i].pos[1], crate::model::grid_row_y(i as nat) as int);
    }
    let ts = m.tids();
    assert forall|i: int| 0 <= i < ts.len() implies #[trigger] ts[i] == crate::model::fixed_id(
        if i < e.len() { e[i] } else { 0u64 },
        i,
        ts.take(i),
    ) by {
        assert(transition_slot_ok(m.transitions@[i], Seq::empty(), i, m.tids().take(i), m.tids()));
    }
    crate::model::lemma_fixed_ids(e, ts);
    assert forall|i: int, j: int|
        0 <= i < j < m.transitions@.len() implies #[trigger] m.transitions@[i].id != #[trigger] m.transitions@[j].id by {
        assert(ts[i] == m.transitions@[i].id && ts[j] == m.transitions@[j].id);
    }
    assert forall|i: int| 0 <= i < m.transitions@.len() implies crate::ieee::f32_is_finite(
        (#[trigger] m.transitions@[i]).pos[0],
    ) && crate::ieee::f32_is_finite(m.transitions@[i].pos[1]) by {
        assert(transition_slot_ok(m.transitions@[i], Seq::empty(), i, m.tids().take(i), m.tids()));
        lemma_int_pos_finite(m.transitions@[i].pos[0], (110 + (i % 8) * 140) as int);
        lemma_int_pos_finite(m.transitions@[i].pos[1], crate::model::grid_row_y(i as nat) as int);
    }
    assert forall|i: int| 0 <= i < m.tables.mz@.len() implies !crate::model::bad_delay(#[trigger] m.tables.mz@[i]) by {
        assert(m.tables.mz@[i] == 0u64);
    }
}

/// Reading the node records into a fresh net keeps every check passing.
proof fn lemma_nodes_sound(
    m2: PetriNetModel,
    m1: PetriNetModel,
    m0: PetriNetModel,
    pn: Seq<LegacyPlaceNode>,
    tn: Seq<LegacyTransitionNode>,
    b: Seq<u8>,
    pc: nat,
    tc: nat,
    l: LegacyLayout,
)
    requires
        fresh_net(m0, pc, tc),
        crate::model::model_sound(m0),
        nodes_read_into(m2, m1, m0, pn, tn, b, pc, tc, l),
    ensures
        crate::model::model_sound(m2),
{
    assert forall|i: int| 0 <= i < pc implies (#[trigger] m2.places@[i]).id == m0.places@[i].id && crate::ieee::f32_is_finite(
        m2.places@[i].pos[0],
    ) && crate::ieee::f32_is_finite(m2.places@[i].pos[1]) && !crate::model::bad_delay(m2.tables.mz@[i]) by {
        assert(place_row_read(m1, m0, pn, i));
        if valid_node_at(pn, i) {
            lemma_int_pos_finite(m1.places@[i].pos[0], pn[i].x as int);
            lemma_int_pos_finite(m1.places@[i].pos[1], pn[i].y as int);
            assert(!crate::model::bad_delay(pn[i].delay_sec));
        }
    }
    assert forall|i: int| 0 <= i < tc implies (#[trigger] m2.transitions@[i]).id == m0.transitions@[i].id
        && crate::ieee::f32_is_finite(m2.transitions@[i].pos[0]) && crate::ieee::f32_is_finite(m2.transitions@[i].pos[1]) by {
        assert(transition_col_read(m2, m1, tn, i));
        if valid_transition_node_at(tn, i) {
            lemma_int_pos_finite(m2.transitions@[i].pos[0], tn[i].x - 6);
            lemma_int_pos_finite(m2.transitions@[i].pos[1], tn[i].y - 14);
        }
    }
    assert forall|i: int, j: int| 0 <= i < j < m2.places@.len() implies #[trigger] m2.places@[i].id != #[trigger] m2.places@[j].id by {
        assert(m2.places@[i].id == m0.places@[i].id);
        assert(m2.places@[j].id == m0.places@[j].id);
    }
    assert forall|i: int, j: int|
        0 <= i < j < m2.transitions@.len() implies #[trigger] m2.transitions@[i].id != #[trigger] m2.transitions@[j].id by {
        assert(m2.transitions@[i].id == m0.transitions@[i].id);
        assert(m2.transitions@[j].id == m0.transitions@[j].id);
    }
    assert forall|i: int| 0 <= i < m2.tables.mz@.len() implies !crate::model::bad_delay(#[trigger] m2.tables.mz@[i]) by {
        assert(m2.places@[i].id == m0.places@[i].id);
    }
}

/// The arcs written for legacy records all have a weight, the inhibitor
/// arcs a threshold.
proof fn lemma_written_weights(recs: Seq<LegacyArcRecord>, pids: Seq<u64>, tids: Seq<u64>)
    ensures
        forall|i: int| 0 <= i < legacy_arcs_written(recs, pids, tids).0.len() ==> (#[trigger] legacy_arcs_written(recs, pids, tids).0[i]).weight != 0,
        forall|i: int|
            0 <= i < legacy_arcs_written(recs, pids, tids).1.len() ==> (#[trigger] legacy_arcs_written(recs, pids, tids).1[i]).threshold != 0,
    decreases recs.len(),
{
    if recs.len() > 0 {
        lemma_written_weights(recs.drop_last(), pids, tids);
        let prev = legacy_arcs_written(recs.drop_last(), pids, tids);
        let r = legacy_arcs_written(recs, pids, tids);
        assert forall|i: int| 0 <= i < r.0.len() implies (#[trigger] r.0[i]).weight != 0 by {
            if i < prev.0.len() {
                assert(prev.0[i].weight != 0);
            }
        }
        assert forall|i: int| 0 <= i < r.1.len() implies (#[trigger] r.1[i]).threshold != 0 by {
            if i < prev.1.len() {
                assert(prev.1[i].threshold != 0);
            }
        }
    }
}

/// Writing the legacy arcs, pruning ghost nodes and the read-arc heuristic
/// keep every check passing.
#[verifier::rlimit(40)]
proof fn lemma_arcs_cleaned_sound(
    m: PetriNetModel,
    old: PetriNetModel,
    recs: Seq<LegacyArcRecord>,
    place_xy: Seq<(i64, i64)>,
    transition_xy: Seq<(i64, i64)>,
)
    requires
        crate::model::model_sound(old),
        legacy_arcs_cleaned(m, old, recs, place_xy, transition_xy),
    ensures
        crate::model::model_sound(m),
{
    let (m1, m3) = choose|m1: PetriNetModel, m3: PetriNetModel|
        {
            &&& #[trigger] rebuilt_with(
                m1,
                old,
                legacy_arcs_written(recs, old.pids(), old.tids()).0,
                legacy_arcs_written(recs, old.pids(), old.tids()).1,
            )
            &&& #[trigger] ghosts_pruned(m3, m1, place_xy, transition_xy)
            &&& read_arcs_applied(m, m3)
        };
    let w = legacy_arcs_written(recs, old.pids(), old.tids());
    lemma_written_weights(recs, old.pids(), old.tids());
    // the rebuilt net
    let pa = |a: Arc| crate::model::arc_is_linked(a, old.pids(), old.tids());
    let pi = |a: InhibitorArc| crate::model::inhibitor_is_linked(a, old.pids(), old.tids());
    w.0.filter_lemma(pa);
    w.1.filter_lemma(pi);
    assert forall|i: int| 0 <= i < m1.arcs@.len() implies crate::model::arc_sound(#[trigger] m1.arcs@[i], m1.pids(), m1.tids()) by {
        assert(pa(m1.arcs@[i]));
        w.0.lemma_filter_contains_rev(pa, m1.arcs@[i]);
        let k = choose|k: int| 0 <= k < w.0.len() && w.0[k] == m1.arcs@[i];
        assert(w.0[k].weight != 0);
    }
    assert forall|i: int| 0 <= i < m1.inhibitor_arcs@.len() implies crate::model::inhibitor_sound(
        #[trigger] m1.inhibitor_arcs@[i],
        m1.pids(),
        m1.tids(),
    ) by {
        assert(pi(m1.inhibitor_arcs@[i]));
        w.1.lemma_filter_contains_rev(pi, m1.inhibitor_arcs@[i]);
        let k = choose|k: int| 0 <= k < w.1.len() && w.1[k] == m1.inhibitor_arcs@[i];
        assert(w.1[k].threshold != 0);
    }
    assert forall|i: int| 0 <= i < m1.tables.mz@.len() implies !crate::model::bad_delay(#[trigger] m1.tables.mz@[i]) by {
        assert(m1.tables.mz@[i] == old.tables.mz@[i]);
    }
    assert(crate::model::model_sound(m1));
    // the pruned net
    let kp = kept_places(m1, place_xy);
    let kt = kept_transitions(m1, transition_xy);
    if !(m1.places@.len() == 0 || m1.transitions@.len() == 0 || (all_set(kp) && all_set(kt))) {
        assert(pruned_from(m3, m1, kp, kt));
        let np = m1.places@.len();
        let nt = m1.transitions@.len();
        lemma_select_distinct(m1.places@, kp, |p: Place| p.id);
        lemma_select_contains(m1.places@, kp);
        lemma_select_distinct(m1.transitions@, kt, |t: Transition| t.id);
        lemma_select_contains(m1.transitions@, kt);
        assert forall|i: int, j: int| 0 <= i < j < m3.places@.len() implies #[trigger] m3.places@[i].id != #[trigger] m3.places@[j].id by {
            assert((|p: Place| p.id)(m3.places@[i]) != (|p: Place| p.id)(m3.places@[j]));
        }
        assert forall|i: int, j: int|
            0 <= i < j < m3.transitions@.len() implies #[trigger] m3.transitions@[i].id != #[trigger] m3.transitions@[j].id by {
            assert((|t: Transition| t.id)(m3.transitions@[i]) != (|t: Transition| t.id)(m3.transitions@[j]));
        }
        assert forall|i: int| 0 <= i < m3.places@.len() implies crate::ieee::f32_is_finite((#[trigger] m3.places@[i]).pos[0])
            && crate::ieee::f32_is_finite(m3.places@[i].pos[1]) by {
            assert(m1.places@.contains(m3.places@[i]));
            let k = choose|k: int| 0 <= k < m1.places@.len() && m1.places@[k] == m3.places@[i];
            assert(crate::ieee::f32_is_finite(m1.places@[k].pos[0]));
        }
        assert forall|i: int| 0 <= i < m3.transitions@.len() implies crate::ieee::f32_is_finite(
            (#[trigger] m3.transitions@[i]).pos[0],
        ) && crate::ieee::f32_is_finite(m3.transitions@[i].pos[1]) by {
            assert(m1.transitions@.contains(m3.transitions@[i]));
            let k = choose|k: int| 0 <= k < m1.transitions@.len() && m1.transitions@[k] == m3.transitions@[i];
            assert(crate::ieee::f32_is_finite(m1.transitions@[k].pos[0]));
        }
        let rz = crate::model::resized(m1.tables.mz@, np, 0u64);
        lemma_select_contains(rz, kp);
        assert forall|i: int| 0 <= i < m3.tables.mz@.len() implies !crate::model::bad_delay(#[trigger] m3.tables.mz@[i]) by {
            assert(rz.contains(m3.tables.mz@[i]));
            let k = choose|k: int| 0 <= k < rz.len() && rz[k] == m3.tables.mz@[i];
            assert(rz[k] == m1.tables.mz@[k]);
        }
        let qa = |a: Arc| crate::model::arc_is_linked(a, m3.pids(), m3.tids());
        let qi = |a: InhibitorArc| crate::model::inhibitor_is_linked(a, m3.pids(), m3.tids());
        m1.arcs@.filter_lemma(qa);
        m1.inhibitor_arcs@.filter_lemma(qi);
        assert forall|i: int| 0 <= i < m3.arcs@.len() implies crate::model::arc_sound(#[trigger] m3.arcs@[i], m3.pids(), m3.tids()) by {
            assert(qa(m3.arcs@[i]));
            m1.arcs@.lemma_filter_contains_rev(qa, m3.arcs@[i]);
            let k = choose|k: int| 0 <= k < m1.arcs@.len() && m1.arcs@[k] == m3.arcs@[i];
            assert(crate::model::arc_sound(m1.arcs@[k], m1.pids(), m1.tids()));
        }
        assert forall|i: int| 0 <= i < m3.inhibitor_arcs@.len() implies crate::model::inhibitor_sound(
            #[trigger] m3.inhibitor_arcs@[i],
            m3.pids(),
            m3.tids(),
        ) by {
            assert(qi(m3.inhibitor_arcs@[i]));
            m1.inhibitor_arcs@.lemma_filter_contains_rev(qi, m3.inhibitor_arcs@[i]);
            let k = choose|k: int| 0 <= k < m1.inhibitor_arcs@.len() && m1.inhibitor_arcs@[k] == m3.inhibitor_arcs@[i];
            assert(crate::model::inhibitor_sound(m1.inhibitor_arcs@[k], m1.pids(), m1.tids()));
        }
    }
    assert(crate::model::model_sound(m3));
    // the read-arc heuristic
    if m3.places@.len() > 0 && m3.transitions@.len() > 0 && read_arcs_needed(m3) {
        crate::model::lemma_table_arcs_sound(m.tables, m3.pids(), m3.tids(), m3.places@.len());
        assert(m.pids() == m3.pids());
        assert(m.tids() == m3.tids());
        assert forall|i: int| 0 <= i < m.tables.post@.len() implies #[trigger] m.tables.post@[i]@.len() == m.transitions@.len() by {
            assert(m3.tables.post@[i]@.len() == m3.transitions@.len());
        }
    }
}

/// Every net that importing a legacy file gives passes validation.
pub proof fn lemma_imported_model_is_valid(bytes: Seq<u8>, m: PetriNetModel)
    requires
        legacy_model(m, bytes),
    ensures
        crate::model::model_problem(m) is None,
{
    let (pc, tc) = legacy_counts(bytes);
    let m0 = choose|m0: PetriNetModel|
        #[trigger] fresh_net(m0, pc as nat, tc as nat) && match detected_layout(bytes, pc as nat, tc as nat) {
            None => m == m0,
            Some(l) => exists|pn: Seq<LegacyPlaceNode>, tn: Seq<LegacyTransitionNode>, m1: PetriNetModel, m2: PetriNetModel|
                #[trigger] nodes_read_into(m2, m1, m0, pn, tn, bytes, pc as nat, tc as nat, l) && legacy_arc_phase(
                    m,
                    m2,
                    bytes,
                    pc,
                    tc,
                    l,
                    place_points(pn, pc as nat),
                    transition_points(tn, tc as nat),
                ),
        };
    lemma_fresh_sound(m0, pc as nat, tc as nat);
    match detected_layout(bytes, pc as nat, tc as nat) {
        None => {},
        Some(l) => {
            let (pn, tn, m1, m2) = choose|pn: Seq<LegacyPlaceNode>, tn: Seq<LegacyTransitionNode>, m1: PetriNetModel, m2: PetriNetModel|
                #[trigger] nodes_read_into(m2, m1, m0, pn, tn, bytes, pc as nat, tc as nat, l) && legacy_arc_phase(
                    m,
                    m2,
                    bytes,
                    pc,
                    tc,
                    l,
                    place_points(pn, pc as nat),
                    transition_points(tn, tc as nat),
                );
            lemma_nodes_sound(m2, m1, m0, pn, tn, bytes, pc as nat, tc as nat, l);
            let pxy = place_points(pn, pc as nat);
            let txy = transition_points(tn, tc as nat);
            if section_found(bytes, l.arcs_offset as int, pc, tc) {
                let v = choose|v: Seq<LegacyArcRecord>|
                    #[trigger] is_tally(v, section_keys(
                        bytes,
                        l.arcs_offset + 6,
                        section_record_count(bytes, i32_at(bytes, l.arcs_offset as int)->0, l.arcs_offset + 6),
                        pc,
                        tc,
                    )) && legacy_arcs_cleaned(m, m2, v, pxy, txy);
                lemma_arcs_cleaned_sound(m, m2, v, pxy, txy);
            } else if signature_found(bytes, pc, tc) {
                let v = choose|v: Seq<LegacyArcRecord>|
                    #[trigger] is_tally(v, signature_keys(bytes, (bytes.len() - 64) as nat, pc, tc))
                        && legacy_arcs_cleaned(m, m2, v, pxy, txy);
                lemma_arcs_cleaned_sound(m, m2, v, pxy, txy);
            }
        },
    }
    crate::model::lemma_sound_validates(m);
}

/// Bytes before the place where a part is written stay.
proof fn lemma_overwrite_prefix(s: Seq<u8>, off: int, part: Seq<u8>)
    requires
        0 <= off <= s.len(),
    ensures
        overwrite(s, off, part).len() >= off,
        forall|k: int| 0 <= k < off ==> #[trigger] overwrite(s, off, part)[k] == s[k],
{
}

/// A part written inside the sequence keeps its length.
proof fn lemma_overwrite_len(s: Seq<u8>, off: int, part: Seq<u8>)
    requires
        0 <= off,
        off + part.len() <= s.len(),
    ensures
        overwrite(s, off, part).len() == s.len(),
{
}

/// The first four bytes decide the `i32` read there.
proof fn lemma_le_i32_same(a: Seq<u8>, ao: int, c: Seq<u8>, co: int)
    requires
        0 <= ao,
        ao + 4 <= a.len(),
        0 <= co,
        co + 4 <= c.len(),
        a[ao] == c[co],
        a[ao + 1] == c[co + 1],
        a[ao + 2] == c[co + 2],
        a[ao + 3] == c[co + 3],
    ensures
        le_i32(a, ao) == le_i32(c, co),
{
}

/// The name field written into a record fits after its offset.
proof fn lemma_name_field_fits(record_len: int, field_offset: int, value: Seq<char>)
    requires
        0 <= field_offset,
        field_offset + 1 < record_len,
    ensures
        legacy_name_field(record_len, field_offset, value) is Some,
        field_offset + legacy_name_field(record_len, field_offset, value)->0.len() <= record_len,
{
}

/// An exported place record has 231 bytes and starts with its x and y.
proof fn lemma_place_record_head(m: PetriNetModel, i: int, xy: (i32, i32))
    ensures
        place_record(m, i, xy).len() == 231,
        le_i32(place_record(m, i, xy), 0) == xy.0,
        le_i32(place_record(m, i, xy), 4) == xy.1,
{
    reveal(place_record);
    let p = m.places@[i];
    let m0 = if i < m.tables.m0@.len() { m.tables.m0@[i] } else { 0 };
    let mo: u32 = if i < m.tables.mo@.len() {
        match m.tables.mo@[i] {
            Some(v) => v,
            None => 0,
        }
    } else {
        0
    };
    let mz = if i < m.tables.mz@.len() { m.tables.mz@[i] } else { 0 };
    let z = zero_bytes(231);
    let r1 = put_i32(z, 0, xy.0);
    lemma_i32_write_read(z, 0, xy.0);
    lemma_overwrite_len(z, 0, le_bytes_u32(xy.0 as u32));
    let r2 = put_i32(r1, 4, xy.1);
    lemma_i32_write_read(r1, 4, xy.1);
    lemma_overwrite_len(r1, 4, le_bytes_u32(xy.1 as u32));
    lemma_overwrite_prefix(r1, 4, le_bytes_u32(xy.1 as u32));
    lemma_le_i32_same(r2, 0, r1, 0);
    let r3 = put_i32(r2, 8, 10);
    lemma_overwrite_len(r2, 8, le_bytes_u32(10i32 as u32));
    lemma_overwrite_prefix(r2, 8, le_bytes_u32(10i32 as u32));
    let r4 = put_i32(r3, 12, m0 as i32);
    lemma_overwrite_len(r3, 12, le_bytes_u32((m0 as i32) as u32));
    lemma_overwrite_prefix(r3, 12, le_bytes_u32((m0 as i32) as u32));
    let r5 = put_i32(r4, 16, mo as i32);
    lemma_overwrite_len(r4, 16, le_bytes_u32((mo as i32) as u32));
    lemma_overwrite_prefix(r4, 16, le_bytes_u32((mo as i32) as u32));
    let r6 = put_i32(r5, 20, legacy_color_value(p.color));
    lemma_overwrite_len(r5, 20, le_bytes_u32(legacy_color_value(p.color) as u32));
    lemma_overwrite_prefix(r5, 20, le_bytes_u32(legacy_color_value(p.color) as u32));
    let d = le_bytes_u64(exported_delay(mz));
    let r7 = overwrite(r6, 77, d);
    lemma_overwrite_len(r6, 77, d);
    lemma_overwrite_prefix(r6, 77, d);
    lemma_name_field_fits(231, 26, place_label(p));
    let f = legacy_name_field(231, 26, place_label(p))->0;
    let r8 = overwrite(r7, 26, f);
    lemma_overwrite_len(r7, 26, f);
    lemma_overwrite_prefix(r7, 26, f);
    assert(r8 == place_record(m, i, xy));
    assert forall|k: int| 0 <= k < 8 implies #[trigger] r8[k] == r2[k] by {
        assert(r8[k] == r7[k]);
        assert(r7[k] == r6[k]);
        assert(r6[k] == r5[k]);
        assert(r5[k] == r4[k]);
        assert(r4[k] == r3[k]);
        assert(r3[k] == r2[k]);
    }
    lemma_le_i32_same(r8, 0, r2, 0);
    lemma_le_i32_same(r8, 4, r2, 4);
}

/// Writing an `i32` after the first eight bytes keeps them and the length.
proof fn lemma_put_keeps_head(r: Seq<u8>, off: int, v: i32)
    requires
        8 <= off,
        off + 4 <= r.len(),
    ensures
        put_i32(r, off, v).len() == r.len(),
        forall|k: int| 0 <= k < 8 ==> #[trigger] put_i32(r, off, v)[k] == r[k],
{
    lemma_overwrite_len(r, off, le_bytes_u32(v as u32));
    lemma_overwrite_prefix(r, off, le_bytes_u32(v as u32));
}

/// An exported transition record has 105 bytes and starts with its x and y.
proof fn lemma_transition_record_head(m: PetriNetModel, i: int, xy: (i32, i32))
    ensures
        transition_record(m, i, xy).len() == 105,
        le_i32(transition_record(m, i, xy), 0) == xy.0,
        le_i32(transition_record(m, i, xy), 4) == xy.1,
{
    reveal(transition_record);
    let t = m.transitions@[i];
    let prio = if i < m.tables.mpr@.len() { m.tables.mpr@[i] } else { 1 };
    let z = zero_bytes(105);
    let r1 = put_i32(z, 0, xy.0);
    lemma_i32_write_read(z, 0, xy.0);
    lemma_overwrite_len(z, 0, le_bytes_u32(xy.0 as u32));
    let r2 = put_i32(r1, 4, xy.1);
    lemma_i32_write_read(r1, 4, xy.1);
    lemma_overwrite_len(r1, 4, le_bytes_u32(xy.1 as u32));
    lemma_overwrite_prefix(r1, 4, le_bytes_u32(xy.1 as u32));
    lemma_le_i32_same(r2, 0, r1, 0);
    let v0 = if prio < 0 { 0 } else { prio };
    let v1 = clamp_i32(t.angle_deg, -360i32, 360i32);
    let q1 = put_i32(r2, 8, v0);
    lemma_put_keeps_head(r2, 8, v0);
    let q2 = put_i32(q1, 12, v1);
    lemma_put_keeps_head(q1, 12, v1);
    let q3 = put_i32(q2, 16, -131072i32);
    lemma_put_keeps_head(q2, 16, -131072i32);
    let q4 = put_i32(q3, 20, -589825i32);
    lemma_put_keeps_head(q3, 20, -589825i32);
    let q5 = put_i32(q4, 24, 196607i32);
    lemma_put_keeps_head(q4, 24, 196607i32);
    let q6 = put_i32(q5, 28, -655360i32);
    lemma_put_keeps_head(q5, 28, -655360i32);
    let q7 = put_i32(q6, 32, 196607i32);
    lemma_put_keeps_head(q6, 32, 196607i32);
    let q8 = put_i32(q7, 36, 655360i32);
    lemma_put_keeps_head(q7, 36, 655360i32);
    let q9 = put_i32(q8, 40, -131072i32);
    lemma_put_keeps_head(q8, 40, -131072i32);
    let q10 = put_i32(q9, 44, 720895i32);
    lemma_put_keeps_head(q9, 44, 720895i32);
    let r = put_i32(q10, 52, legacy_color_value(t.color));
    lemma_put_keeps_head(q10, 52, legacy_color_value(t.color));
    lemma_name_field_fits(105, 54, transition_label(t));
    let f = legacy_name_field(105, 54, transition_label(t))->0;
    let rf = overwrite(r, 54, f);
    lemma_overwrite_len(r, 54, f);
    lemma_overwrite_prefix(r, 54, f);
    assert(rf == transition_record(m, i, xy));
    assert forall|k: int| 0 <= k < 8 implies #[trigger] rf[k] == r2[k] by {
        assert(rf[k] == r[k]);
        assert(r[k] == q10[k]);
        assert(q10[k] == q9[k]);
        assert(q9[k] == q8[k]);
        assert(q8[k] == q7[k]);
        assert(q7[k] == q6[k]);
        assert(q6[k] == q5[k]);
        assert(q5[k] == q4[k]);
        assert(q4[k] == q3[k]);
        assert(q3[k] == q2[k]);
        assert(q2[k] == q1[k]);
        assert(q1[k] == r2[k]);
    }
    lemma_le_i32_same(rf, 0, r2, 0);
    lemma_le_i32_same(rf, 4, r2, 4);
}

/// The place records laid one after the other hold each position at the
/// start of its record.
proof fn lemma_place_records_heads(m: PetriNetModel, xy: Seq<(i32, i32)>, n: nat)
    requires
        n <= xy.len(),
    ensures
        place_records(m, xy, n).len() == n * 231,
        forall|i: int|
            0 <= i < n ==> le_i32(place_records(m, xy, n), i * 231) == (#[trigger] xy[i]).0 && le_i32(
                place_records(m, xy, n),
                i * 231 + 4,
            ) == xy[i].1,
    decreases n,
{
    if n > 0 {
        let k = (n - 1) as nat;
        lemma_place_records_heads(m, xy, k);
        let prev = place_records(m, xy, k);
        let rec = place_record(m, k as int, xy[k as int]);
        lemma_place_record_head(m, k as int, xy[k as int]);
        let all = place_records(m, xy, n);
        assert(all == prev + rec);
        assert(all.len() == n * 231) by (nonlinear_arith)
            requires
                all.len() == prev.len() + rec.len(),
                prev.len() == k * 231,
                rec.len() == 231,
                n == k + 1,
        ;
        assert forall|i: int| 0 <= i < n implies le_i32(all, i * 231) == (#[trigger] xy[i]).0 && le_i32(all, i * 231 + 4)
            == xy[i].1 by {
            if i < k {
                assert(i * 231 + 8 <= k * 231) by (nonlinear_arith)
                    requires
                        0 <= i < k,
                ;
                assert(0 <= i * 231) by (nonlinear_arith)
                    requires
                        0 <= i,
                ;
                let o = i * 231;
                assert(all[o] == prev[o] && all[o + 1] == prev[o + 1] && all[o + 2] == prev[o + 2] && all[o + 3] == prev[o + 3]);
                assert(all[o + 4] == prev[o + 4] && all[o + 5] == prev[o + 5] && all[o + 6] == prev[o + 6] && all[o + 7]
                    == prev[o + 7]);
                lemma_le_i32_same(all, o, prev, o);
                lemma_le_i32_same(all, o + 4, prev, o + 4);
            } else {
                let o = i * 231;
                assert(o == prev.len());
                assert(all[o] == rec[0] && all[o + 1] == rec[1] && all[o + 2] == rec[2] && all[o + 3] == rec[3]);
                assert(all[o + 4] == rec[4] && all[o + 5] == rec[5] && all[o + 6] == rec[6] && all[o + 7] == rec[7]);
                lemma_le_i32_same(all, o, rec, 0);
                lemma_le_i32_same(all, o + 4, rec, 4);
            }
        }
    }
}

/// The transition records laid one after the other hold each centre at the
/// start of its record.
proof fn lemma_transition_records_heads(m: PetriNetModel, xy: Seq<(i32, i32)>, n: nat)
    requires
        n <= xy.len(),
    ensures
        transition_records(m, xy, n).len() == n * 105,
        forall|i: int|
            0 <= i < n ==> le_i32(transition_records(m, xy, n), i * 105) == (#[trigger] xy[i]).0 && le_i32(
                transition_records(m, xy, n),
                i * 105 + 4,
            ) == xy[i].1,
    decreases n,
{
    if n > 0 {
        let k = (n - 1) as nat;
        lemma_transition_records_heads(m, xy, k);
        let prev = transition_records(m, xy, k);
        let rec = transition_record(m, k as int, xy[k as int]);
        lemma_transition_record_head(m, k as int, xy[k as int]);
        let all = transition_records(m, xy, n);
        assert(all == prev + rec);
        assert(all.len() == n * 105) by (nonlinear_arith)
            requires
                all.len() == prev.len() + rec.len(),
                prev.len() == k * 105,
                rec.len() == 105,
                n == k + 1,
        ;
        assert forall|i: int| 0 <= i < n implies le_i32(all, i * 105) == (#[trigger] xy[i]).0 && le_i32(all, i * 105 + 4)
            == xy[i].1 by {
            if i < k {
                assert(i * 105 + 8 <= k * 105) by (nonlinear_arith)
                    requires
                        0 <= i < k,
                ;
                assert(0 <= i * 105) by (nonlinear_arith)
                    requires
                        0 <= i,
                ;
                let o = i * 105;
                assert(all[o] == prev[o] && all[o + 1] == prev[o + 1] && all[o + 2] == prev[o + 2] && all[o + 3] == prev[o + 3]);
                assert(all[o + 4] == prev[o + 4] && all[o + 5] == prev[o + 5] && all[o + 6] == prev[o + 6] && all[o + 7]
                    == prev[o + 7]);
                lemma_le_i32_same(all, o, prev, o);
                lemma_le_i32_same(all, o + 4, prev, o + 4);
            } else {
                let o = i * 105;
                assert(o == prev.len());
                assert(all[o] == rec[0] && all[o + 1] == rec[1] && all[o + 2] == rec[2] && all[o + 3] == rec[3]);
                assert(all[o + 4] == rec[4] && all[o + 5] == rec[5] && all[o + 6] == rec[6] && all[o + 7] == rec[7]);
                lemma_le_i32_same(all, o, rec, 0);
                lemma_le_i32_same(all, o + 4, rec, 4);
            }
        }
    }
}

/// At most `n` records are counted.
proof fn lemma_records_in_range_bound(b: Seq<u8>, off: int, size: int, n: nat, lo: int, hi: int)
    ensures
        records_in_range(b, off, size, n, lo, hi) <= n,
    decreases n,
{
    if n > 0 {
        lemma_records_in_range_bound(b, off, size, (n - 1) as nat, lo, hi);
    }
}

/// The header of an exported file reads back as its place and transition
/// counts when both lie in `1..=10000`.
pub proof fn lemma_exported_counts(
    m: PetriNetModel,
    place_xy: Seq<(i32, i32)>,
    transition_xy: Seq<(i32, i32)>,
    recs: Seq<LegacyArcOut>,
    pts: Seq<[u16; 6]>,
)
    requires
        1 <= m.places@.len() <= 10_000,
        1 <= m.transitions@.len() <= 10_000,
    ensures
        legacy_counts(legacy_file(m, place_xy, transition_xy, recs, pts)) == (
            m.places@.len() as usize,
            m.transitions@.len() as usize,
        ),
{
    let np = m.places@.len();
    let nt = m.transitions@.len();
    let f = legacy_file(m, place_xy, transition_xy, recs, pts);
    let h1 = le_bytes_u32((np as i32) as u32);
    let h2 = le_bytes_u32((nt as i32) as u32);
    assert((np as i32) as u32 == np);
    assert((nt as i32) as u32 == nt);
    lemma_le_u32_roundtrip(np as u32);
    lemma_le_u32_roundtrip(nt as u32);
    assert(f[0] == h1[0] && f[1] == h1[1] && f[2] == h1[2] && f[3] == h1[3]);
    assert(f[4] == h2[0] && f[5] == h2[1] && f[6] == h2[2] && f[7] == h2[3]);
    lemma_le_i32_same(f, 0, h1, 0);
    lemma_le_i32_same(f, 4, h2, 0);
    assert(le_i32(h1, 0) == np);
    assert(le_i32(h2, 0) == nt);
}

/// For an exported file whose node counts lie in `1..=10000`, whose rounded
/// place positions lie in `0..=50000` and whose rounded transition centres
/// lie in `-50000..=50000`, the import finds the node sections where the
/// export wrote them: right after the 16-byte header.
#[verifier::spinoff_prover]
#[verifier::rlimit(40)]
pub proof fn lemma_exported_layout(
    m: PetriNetModel,
    place_xy: Seq<(i32, i32)>,
    transition_xy: Seq<(i32, i32)>,
    recs: Seq<LegacyArcOut>,
    pts: Seq<[u16; 6]>,
)
    requires
        1 <= m.places@.len() <= 10_000,
        1 <= m.transitions@.len() <= 10_000,
        place_xy.len() == m.places@.len(),
        transition_xy.len() == m.transitions@.len(),
        forall|i: int| 0 <= i < place_xy.len() ==> 0 <= (#[trigger] place_xy[i]).0 <= 50_000 && 0 <= place_xy[i].1 <= 50_000,
        forall|i: int|
            0 <= i < transition_xy.len() ==> -50_000 <= (#[trigger] transition_xy[i]).0 <= 50_000 && -50_000
                <= transition_xy[i].1 <= 50_000,
    ensures
        detected_layout(
            legacy_file(m, place_xy, transition_xy, recs, pts),
            m.places@.len(),
            m.transitions@.len(),
        ) == Some(layout_for(16, m.places@.len() as int, m.transitions@.len() as int)),
{
    let np = m.places@.len();
    let nt = m.transitions@.len();
    let f = legacy_file(m, place_xy, transition_xy, recs, pts);
    let head = le_bytes_u32((np as i32) as u32) + le_bytes_u32((nt as i32) as u32) + le_bytes_u32(0x20) + le_bytes_u32(0);
    let pr = place_records(m, place_xy, np);
    let tr = transition_records(m, transition_xy, nt);
    lemma_place_records_heads(m, place_xy, np);
    lemma_transition_records_heads(m, transition_xy, nt);
    let rest = le_bytes_u32(((recs.len() as int - 1) as i32) as u32) + seq![0u8, 0u8] + arc_records_bytes(recs, pts, recs.len())
        + footer_bytes();
    assert(head.len() == 16);
    assert(f == head + pr + tr + le_bytes_u32(((recs.len() as int - 1) as i32) as u32) + seq![0u8, 0u8] + arc_records_bytes(
        recs,
        pts,
        recs.len(),
    ) + footer_bytes());
    assert(f.len() >= 16 + pr.len() + tr.len() + 4);
    let a = layout_for(16, np as int, nt as int);
    assert(pr.len() == np * 231);
    assert(tr.len() == nt * 105);
    assert(a.places_offset == 16);
    assert(a.transitions_offset == 16 + np * 231);
    assert(a.arcs_offset == 16 + np * 231 + nt * 105);
    assert(layout_fits(f, a));
    // every place record of layout `a` is in range
    assert forall|n: nat| n <= np implies #[trigger] records_in_range(f, 16, 231, n, 0, 50_000) == n by {
        lemma_places_counted(f, head, pr, tr, m, place_xy, n);
    }
    assert forall|n: nat| n <= nt implies #[trigger] records_in_range(
        f,
        (16 + np * 231) as int,
        105,
        n,
        -50_000,
        50_000,
    ) == n by {
        lemma_transitions_counted(f, head, pr, tr, m, transition_xy, n);
    }
    assert(records_in_range(f, 16, 231, np, 0, 50_000) == np);
    assert(records_in_range(f, (16 + np * 231) as int, 105, nt, -50_000, 50_000) == nt);
    assert(layout_score(f, a, np, nt) == np + nt);
    let c = layout_for(247, np as int, nt as int);
    lemma_records_in_range_bound(f, c.places_offset as int, 231, np, 0, 50_000);
    lemma_records_in_range_bound(f, c.transitions_offset as int, 105, nt, -50_000, 50_000);
}

/// Counting the in-range place records of an exported file.
proof fn lemma_places_counted(
    f: Seq<u8>,
    head: Seq<u8>,
    pr: Seq<u8>,
    tr: Seq<u8>,
    m: PetriNetModel,
    place_xy: Seq<(i32, i32)>,
    n: nat,
)
    requires
        head.len() == 16,
        pr == place_records(m, place_xy, place_xy.len()),
        pr.len() == place_xy.len() * 231,
        forall|i: int|
            0 <= i < place_xy.len() ==> le_i32(pr, i * 231) == (#[trigger] place_xy[i]).0 && le_i32(pr, i * 231 + 4)
                == place_xy[i].1,
        forall|i: int| 0 <= i < place_xy.len() ==> 0 <= (#[trigger] place_xy[i]).0 <= 50_000 && 0 <= place_xy[i].1 <= 50_000,
        f.len() >= head.len() + pr.len(),
        forall|q: int| 0 <= q < pr.len() ==> f[16 + q] == #[trigger] pr[q],
        n <= place_xy.len(),
    ensures
        records_in_range(f, 16, 231, n, 0, 50_000) == n,
    decreases n,
{
    if n > 0 {
        lemma_places_counted(f, head, pr, tr, m, place_xy, (n - 1) as nat);
        let i = n - 1;
        let o = i * 231;
        assert(0 <= o && o + 8 <= pr.len()) by (nonlinear_arith)
            requires
                o == i * 231,
                0 <= i < place_xy.len(),
                pr.len() == place_xy.len() * 231,
        ;
        assert(f[16 + o] == pr[o] && f[16 + o + 1] == pr[o + 1] && f[16 + o + 2] == pr[o + 2] && f[16 + o + 3] == pr[o + 3]);
        assert(f[16 + o + 4] == pr[o + 4] && f[16 + o + 5] == pr[o + 5] && f[16 + o + 6] == pr[o + 6] && f[16 + o + 7]
            == pr[o + 7]);
        lemma_le_i32_same(f, 16 + o, pr, o);
        lemma_le_i32_same(f, 16 + o + 4, pr, o + 4);
        assert(place_xy[i].0 == le_i32(pr, o));
    }
}

/// Counting the in-range transition records of an exported file.
proof fn lemma_transitions_counted(
    f: Seq<u8>,
    head: Seq<u8>,
    pr: Seq<u8>,
    tr: Seq<u8>,
    m: PetriNetModel,
    transition_xy: Seq<(i32, i32)>,
    n: nat,
)
    requires
        head.len() == 16,
        tr.len() == transition_xy.len() * 105,
        forall|i: int|
            0 <= i < transition_xy.len() ==> le_i32(tr, i * 105) == (#[trigger] transition_xy[i]).0 && le_i32(
                tr,
                i * 105 + 4,
            ) == transition_xy[i].1,
        forall|i: int|
            0 <= i < transition_xy.len() ==> -50_000 <= (#[trigger] transition_xy[i]).0 <= 50_000 && -50_000
                <= transition_xy[i].1 <= 50_000,
        f.len() >= head.len() + pr.len() + tr.len(),
        forall|q: int| 0 <= q < tr.len() ==> f[16 + pr.len() + q] == #[trigger] tr[q],
        n <= transition_xy.len(),
    ensures
        records_in_range(f, (16 + pr.len()) as int, 105, n, -50_000, 50_000) == n,
    decreases n,
{
    if n > 0 {
        lemma_transitions_counted(f, head, pr, tr, m, transition_xy, (n - 1) as nat);
        let i = n - 1;
        let o = i * 105;
        let base = 16 + pr.len();
        assert(0 <= o && o + 8 <= tr.len()) by (nonlinear_arith)
            requires
                o == i * 105,
                0 <= i < transition_xy.len(),
                tr.len() == transition_xy.len() * 105,
        ;
        assert(f[base + o] == tr[o] && f[base + o + 1] == tr[o + 1] && f[base + o + 2] == tr[o + 2] && f[base + o + 3]
            == tr[o + 3]);
        assert(f[base + o + 4] == tr[o + 4] && f[base + o + 5] == tr[o + 5] && f[base + o + 6] == tr[o + 6] && f[base + o
            + 7] == tr[o + 7]);
        lemma_le_i32_same(f, base + o, tr, o);
        lemma_le_i32_same(f, base + o + 4, tr, o + 4);
        assert(transition_xy[i].0 == le_i32(tr, o));
    }
}

/// The `i32` read inside a part laid at `base` of a longer sequence is the
/// one read in the part.
proof fn lemma_le_i32_shift(all: Seq<u8>, base: int, part: Seq<u8>, o: int)
    requires
        0 <= base,
        base + part.len() <= all.len(),
        0 <= o,
        o + 4 <= part.len(),
        forall|j: int| 0 <= j < part.len() ==> all[base + j] == #[trigger] part[j],
    ensures
        le_i32(all, base + o) == le_i32(part, o),
{
    assert(all[base + o] == part[o]);
    assert(all[base + (o + 1)] == part[o + 1]);
    assert(all[base + (o + 2)] == part[o + 2]);
    assert(all[base + (o + 3)] == part[o + 3]);
    lemma_le_i32_same(all, base + o, part, o);
}

/// The initial marking of an exported place (0 past the table's end).
pub open spec fn exported_marking(m: PetriNetModel, i: int) -> u32 {
    if i < m.tables.m0@.len() {
        m.tables.m0@[i]
    } else {
        0
    }
}

/// The capacity of an exported place: its bound, 0 for none (and past the
/// table's end).
pub open spec fn exported_capacity(m: PetriNetModel, i: int) -> u32 {
    if i < m.tables.mo@.len() {
        match m.tables.mo@[i] {
            Some(v) => v,
            None => 0,
        }
    } else {
        0
    }
}

/// An exported place record holds the initial marking at offset 12 and the
/// capacity (0 for none) at offset 16.
proof fn lemma_place_record_counts(m: PetriNetModel, i: int, xy: (i32, i32))
    ensures
        le_i32(place_record(m, i, xy), 12) == exported_marking(m, i) as i32,
        le_i32(place_record(m, i, xy), 16) == exported_capacity(m, i) as i32,
{
    reveal(place_record);
    let p = m.places@[i];
    let m0 = exported_marking(m, i);
    let mo = exported_capacity(m, i);
    let mz = if i < m.tables.mz@.len() { m.tables.mz@[i] } else { 0 };
    let z = zero_bytes(231);
    let r1 = put_i32(z, 0, xy.0);
    lemma_overwrite_len(z, 0, le_bytes_u32(xy.0 as u32));
    let r2 = put_i32(r1, 4, xy.1);
    lemma_overwrite_len(r1, 4, le_bytes_u32(xy.1 as u32));
    let r3 = put_i32(r2, 8, 10);
    lemma_overwrite_len(r2, 8, le_bytes_u32(10i32 as u32));
    let r4 = put_i32(r3, 12, m0 as i32);
    lemma_overwrite_len(r3, 12, le_bytes_u32((m0 as i32) as u32));
    lemma_i32_write_read(r3, 12, m0 as i32);
    let r5 = put_i32(r4, 16, mo as i32);
    lemma_overwrite_len(r4, 16, le_bytes_u32((mo as i32) as u32));
    lemma_overwrite_prefix(r4, 16, le_bytes_u32((mo as i32) as u32));
    lemma_i32_write_read(r4, 16, mo as i32);
    lemma_le_i32_same(r5, 12, r4, 12);
    let r6 = put_i32(r5, 20, legacy_color_value(p.color));
    lemma_overwrite_len(r5, 20, le_bytes_u32(legacy_color_value(p.color) as u32));
    lemma_overwrite_prefix(r5, 20, le_bytes_u32(legacy_color_value(p.color) as u32));
    let d = le_bytes_u64(exported_delay(mz));
    let r7 = overwrite(r6, 77, d);
    lemma_overwrite_len(r6, 77, d);
    lemma_overwrite_prefix(r6, 77, d);
    lemma_name_field_fits(231, 26, place_label(p));
    let f = legacy_name_field(231, 26, place_label(p))->0;
    let r8 = overwrite(r7, 26, f);
    lemma_overwrite_len(r7, 26, f);
    lemma_overwrite_prefix(r7, 26, f);
    assert(r8 == place_record(m, i, xy));
    assert forall|k: int| 12 <= k < 20 implies #[trigger] r8[k] == r5[k] by {
        assert(r8[k] == r7[k]);
        assert(r7[k] == r6[k]);
        assert(r6[k] == r5[k]);
    }
    lemma_le_i32_same(r8, 12, r5, 12);
    lemma_le_i32_same(r8, 16, r5, 16);
}

/// Inside the place records laid one after the other, every `i32` of
/// record `i` reads as in that record.
proof fn lemma_place_records_fields(m: PetriNetModel, xy: Seq<(i32, i32)>, n: nat)
    requires
        n <= xy.len(),
    ensures
        place_records(m, xy, n).len() == n * 231,
        forall|i: int, o: int|
            0 <= i < n && 0 <= o <= 227 ==> le_i32(place_records(m, xy, n), i * 231 + o) == #[trigger] le_i32(
                place_record(m, i, xy[i]),
                o,
            ),
    decreases n,
{
    if n > 0 {
        let k = (n - 1) as nat;
        lemma_place_records_fields(m, xy, k);
        let prev = place_records(m, xy, k);
        let rec = place_record(m, k as int, xy[k as int]);
        lemma_place_record_head(m, k as int, xy[k as int]);
        let all = place_records(m, xy, n);
        assert(all == prev + rec);
        assert(all.len() == n * 231) by (nonlinear_arith)
            requires
                all.len() == prev.len() + rec.len(),
                prev.len() == k * 231,
                rec.len() == 231,
                n == k + 1,
        ;
        assert forall|j: int| 0 <= j < prev.len() implies all[0 + j] == #[trigger] prev[j] by {}
        assert forall|j: int| 0 <= j < rec.len() implies all[prev.len() + j] == #[trigger] rec[j] by {}
        assert forall|i: int, o: int| 0 <= i < n && 0 <= o <= 227 implies le_i32(all, i * 231 + o) == #[trigger] le_i32(
            place_record(m, i, xy[i]),
            o,
        ) by {
            if i < k {
                assert(i * 231 + 231 <= k * 231) by (nonlinear_arith)
                    requires
                        0 <= i < k,
                ;
                assert(0 <= i * 231) by (nonlinear_arith)
                    requires
                        0 <= i,
                ;
                lemma_le_i32_shift(all, 0, prev, i * 231 + o);
            } else {
                assert(i * 231 == prev.len());
                lemma_le_i32_shift(all, prev.len() as int, rec, o);
            }
        }
    }
}

/// Every place record of an exported file holds the place's initial
/// marking at record offset 12 and its capacity (0 for none) at offset 16:
/// the place records start right after the 16-byte header, 231 bytes each.
pub proof fn lemma_exported_place_counts(
    m: PetriNetModel,
    place_xy: Seq<(i32, i32)>,
    transition_xy: Seq<(i32, i32)>,
    recs: Seq<LegacyArcOut>,
    pts: Seq<[u16; 6]>,
    i: int,
)
    requires
        place_xy.len() == m.places@.len(),
        0 <= i < m.places@.len(),
    ensures
        le_i32(legacy_file(m, place_xy, transition_xy, recs, pts), 16 + 231 * i + 12) == exported_marking(m, i) as i32,
        le_i32(legacy_file(m, place_xy, transition_xy, recs, pts), 16 + 231 * i + 16) == exported_capacity(m, i)
            as i32,
        i < m.tables.m0@.len() ==> le_i32(legacy_file(m, place_xy, transition_xy, recs, pts), 16 + 231 * i + 12)
            == m.tables.m0@[i] as i32,
        i < m.tables.mo@.len() && m.tables.mo@[i] is None ==> le_i32(
            legacy_file(m, place_xy, transition_xy, recs, pts),
            16 + 231 * i + 16,
        ) == 0,
        i < m.tables.mo@.len() && m.tables.mo@[i] is Some ==> le_i32(
            legacy_file(m, place_xy, transition_xy, recs, pts),
            16 + 231 * i + 16,
        ) == m.tables.mo@[i]->0 as i32,
{
    let np = m.places@.len();
    let nt = m.transitions@.len();
    let f = legacy_file(m, place_xy, transition_xy, recs, pts);
    let head = le_bytes_u32((np as i32) as u32) + le_bytes_u32((nt as i32) as u32) + le_bytes_u32(0x20) + le_bytes_u32(0);
    let pr = place_records(m, place_xy, np);
    lemma_place_records_fields(m, place_xy, np);
    lemma_place_record_counts(m, i, place_xy[i]);
    assert(head.len() == 16);
    assert(f == head + pr + transition_records(m, transition_xy, nt) + le_bytes_u32(
        ((recs.len() as int - 1) as i32) as u32,
    ) + seq![0u8, 0u8] + arc_records_bytes(recs, pts, recs.len()) + footer_bytes());
    assert forall|j: int| 0 <= j < pr.len() implies f[16 + j] == #[trigger] pr[j] by {}
    assert(i * 231 + 231 <= np * 231) by (nonlinear_arith)
        requires
            0 <= i < np,
    ;
    assert(0 <= i * 231) by (nonlinear_arith)
        requires
            0 <= i,
    ;
    assert(le_i32(pr, i * 231 + 12) == le_i32(place_record(m, i, place_xy[i]), 12));
    assert(le_i32(pr, i * 231 + 16) == le_i32(place_record(m, i, place_xy[i]), 16));
    lemma_le_i32_shift(f, 16, pr, i * 231 + 12);
    lemma_le_i32_shift(f, 16, pr, i * 231 + 16);
    assert(16 + 231 * i + 12 == 16 + (i * 231 + 12));
    assert(16 + 231 * i + 16 == 16 + (i * 231 + 16));
}

/// Every exported record of an arc reads in the arc's direction: a record
/// of an arc from a place (an input arc or an inhibitor arc) has direction
/// -1 and runs from the place's row to the transition's; a record of an arc
/// from a transition (an output arc) is an ordinary arc record with
/// direction 1 running from the transition's row to the place's.
pub open spec fn record_reads_right(r: LegacyArcOut, pids: Seq<u64>, tids: Seq<u64>) -> bool {
    match (r.from, r.to) {
        (NodeRef::Place(p), NodeRef::Transition(t)) => {
            &&& r.direction == -1
            &&& r.source_idx == (last_index(pids, p) + 1) as usize
            &&& r.target_idx == (last_index(tids, t) + 1) as usize
        },
        (NodeRef::Transition(t), NodeRef::Place(p)) => {
            &&& r.direction == 1
            &&& !r.inhibitor
            &&& r.source_idx == (last_index(tids, t) + 1) as usize
            &&& r.target_idx == (last_index(pids, p) + 1) as usize
        },
        _ => false,
    }
}

proof fn lemma_arcs_out_read_right(arcs: Seq<Arc>, pids: Seq<u64>, tids: Seq<u64>)
    ensures
        forall|k: int| 0 <= k < arcs_out(arcs, pids, tids).len() ==> record_reads_right(
            #[trigger] arcs_out(arcs, pids, tids)[k],
            pids,
            tids,
        ),
    decreases arcs.len(),
{
    if arcs.len() > 0 {
        lemma_arcs_out_read_right(arcs.drop_last(), pids, tids);
        let prev = arcs_out(arcs.drop_last(), pids, tids);
        let last = arc_out_records(arcs.last(), pids, tids);
        assert forall|k: int| 0 <= k < arcs_out(arcs, pids, tids).len() implies record_reads_right(
            #[trigger] arcs_out(arcs, pids, tids)[k],
            pids,
            tids,
        ) by {
            if k < prev.len() {
                assert(arcs_out(arcs, pids, tids)[k] == prev[k]);
            } else {
                assert(arcs_out(arcs, pids, tids)[k] == last[k - prev.len()]);
            }
        }
    }
}

proof fn lemma_inhibitors_out_read_right(inhs: Seq<InhibitorArc>, pids: Seq<u64>, tids: Seq<u64>)
    ensures
        forall|k: int| 0 <= k < inhibitors_out(inhs, pids, tids).len() ==> record_reads_right(
            #[trigger] inhibitors_out(inhs, pids, tids)[k],
            pids,
            tids,
        ),
    decreases inhs.len(),
{
    if inhs.len() > 0 {
        lemma_inhibitors_out_read_right(inhs.drop_last(), pids, tids);
        let prev = inhibitors_out(inhs.drop_last(), pids, tids);
        let last = inhibitor_out_records(inhs.last(), pids, tids);
        assert forall|k: int| 0 <= k < inhibitors_out(inhs, pids, tids).len() implies record_reads_right(
            #[trigger] inhibitors_out(inhs, pids, tids)[k],
            pids,
            tids,
        ) by {
            if k < prev.len() {
                assert(inhibitors_out(inhs, pids, tids)[k] == prev[k]);
            } else {
                assert(inhibitors_out(inhs, pids, tids)[k] == last[k - prev.len()]);
            }
        }
    }
}

/// Every exported arc record of a net reads in its arc's direction.
pub proof fn lemma_export_records_read_right(m: PetriNetModel)
    ensures
        forall|k: int| 0 <= k < legacy_out_records(m).len() ==> record_reads_right(
            #[trigger] legacy_out_records(m)[k],
            m.pids(),
            m.tids(),
        ),
{
    let a = arcs_out(m.arcs@, m.pids(), m.tids());
    let b = inhibitors_out(m.inhibitor_arcs@, m.pids(), m.tids());
    lemma_arcs_out_read_right(m.arcs@, m.pids(), m.tids());
    lemma_inhibitors_out_read_right(m.inhibitor_arcs@, m.pids(), m.tids());
    assert forall|k: int| 0 <= k < legacy_out_records(m).len() implies record_reads_right(
        #[trigger] legacy_out_records(m)[k],
        m.pids(),
        m.tids(),
    ) by {
        if k < a.len() {
            assert(legacy_out_records(m)[k] == a[k]);
        } else {
            assert(legacy_out_records(m)[k] == b[k - a.len()]);
        }
    }
}

proof fn lemma_ascii_run_to_end(b: Seq<u8>, min_len: nat, i: int)
    requires
        1 <= i <= b.len(),
        b.len() >= min_len,
        forall|k: int| 0 <= k < b.len() ==> 0x20 <= #[trigger] b[k] <= 0x7E,
    ensures
        ascii_runs_from(b, min_len, i, Some(0)) == seq![(0usize, ascii_text(b, 0, b.len() as int))],
    decreases b.len() - i,
{
    if i < b.len() {
        assert(printable(b[i]));
        lemma_ascii_run_to_end(b, min_len, i + 1);
    }
}

/// Bytes that are all printable ASCII, the space (0x20) included, up to
/// `~` (0x7E), and at least `min_len` long (and not empty) are one printable
/// run: the whole input, at offset 0.
pub proof fn lemma_ascii_text_is_one_run(b: Seq<u8>, min_len: nat)
    requires
        b.len() >= 1,
        b.len() >= min_len,
        forall|k: int| 0 <= k < b.len() ==> 0x20 <= #[trigger] b[k] <= 0x7E,
    ensures
        ascii_runs_from(b, min_len, 0, None) == seq![(0usize, b.map_values(|c: u8| c as char))],
{
    assert(printable(b[0]));
    lemma_ascii_run_to_end(b, min_len, 1);
    assert(b.subrange(0, b.len() as int) == b);
    assert(ascii_text(b, 0, b.len() as int) == b.map_values(|c: u8| c as char));
}

proof fn lemma_utf16_run_to_end(b: Seq<u8>, j: int)
    requires
        b.len() % 2 == 0,
        0 <= j <= b.len() / 2,
        forall|k: int| 0 <= k < b.len() ==> (k % 2 == 0 ==> 0x20 <= #[trigger] b[k] <= 0x7E) && (k % 2 == 1 ==> b[k] == 0),
    ensures
        utf16_run(b, 2 * j) == b.len() / 2 - j,
    decreases b.len() / 2 - j,
{
    if j < b.len() / 2 {
        assert((2 * j) % 2 == 0);
        assert((2 * j + 1) % 2 == 1);
        assert(0x20 <= b[2 * j] <= 0x7E);
        assert(b[2 * j + 1] == 0);
        assert(printable(b[2 * j]));
        lemma_utf16_run_to_end(b, j + 1);
        assert(2 * j + 2 == 2 * (j + 1));
    }
}

/// UTF-16LE text whose units are all printable ASCII, the space (0x20)
/// included, up to `~` (0x7E), with at least `min_len` units (and not empty)
/// is one run: all its units, at offset 0.
pub proof fn lemma_utf16_text_is_one_run(b: Seq<u8>, min_len: nat)
    requires
        b.len() >= 2,
        b.len() % 2 == 0,
        b.len() / 2 >= min_len,
        forall|k: int| 0 <= k < b.len() ==> (k % 2 == 0 ==> 0x20 <= #[trigger] b[k] <= 0x7E) && (k % 2 == 1 ==> b[k] == 0),
    ensures
        utf16_runs_from(b, min_len, 0) == seq![(0usize, Seq::new(b.len() / 2, |k: int| b[2 * k] as char))],
{
    lemma_utf16_run_to_end(b, 0);
    let n = utf16_run(b, 0);
    assert(n == b.len() / 2);
    let next: int = (2 * n + 2) as int;
    assert(utf16_runs_from(b, min_len, next) == Seq::<(usize, Seq<char>)>::empty());
    assert(utf16_text(b, 0, n) =~= Seq::new(b.len() / 2, |k: int| b[2 * k] as char));
    assert(utf16_runs_from(b, min_len, 0) =~= seq![(0usize, utf16_text(b, 0, n))] + utf16_runs_from(b, min_len, next));
}

/// Importing reads each valid place record's capacity field into the
/// place's capacity: a positive field bounds the place by exactly that many
/// tokens, any other leaves it unbounded. The field is the `i32` at the
/// capacity offset found for the file within the place's 231-byte record.
pub proof fn lemma_imported_capacities(
    m2: PetriNetModel,
    m1: PetriNetModel,
    m0: PetriNetModel,
    pn: Seq<LegacyPlaceNode>,
    tn: Seq<LegacyTransitionNode>,
    b: Seq<u8>,
    pc: nat,
    tc: nat,
    l: LegacyLayout,
    i: int,
)
    requires
        nodes_read_into(m2, m1, m0, pn, tn, b, pc, tc, l),
        0 <= i < pc,
        i < pn.len(),
        pn[i].valid,
    ensures
        pn[i].capacity == (match i32_at(
            b,
            l.places_offset + i * 231 + capacity_offset(b, l.places_offset as int, pc),
        ) {
            Some(v) => v,
            None => 0,
        }),
        pn[i].capacity > 0 ==> m2.tables.mo@[i] == Some(pn[i].capacity as u32),
        pn[i].capacity <= 0 ==> m2.tables.mo@[i] is None,
{
    assert(place_row_read(m1, m0, pn, i));
    assert(valid_node_at(pn, i));
    assert(place_node_ok(
        pn[i],
        b,
        l.places_offset + i * 231,
        capacity_offset(b, l.places_offset as int, pc) as int,
        use_marker12(valid_marker_pairs(pn, b, l.places_offset as int)),
    ));
}
} // verus!
