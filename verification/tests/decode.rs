use nbt::reader::NbtReader;
use nbt::tag::NbtTag;
use nbt::wire::{Endian, NbtError};

fn big() -> NbtReader {
    NbtReader::new(Endian::Big)
}

fn little() -> NbtReader {
    NbtReader::new(Endian::Little)
}

#[test]
fn scalar_round_trip_byte() {
    let r = big();
    let (t, p) = r.read_byte(&[0xAB], 0).unwrap();
    assert_eq!(t, NbtTag::Byte(0xAB));
    assert_eq!(p, 1);
}

#[test]
fn scalar_round_trip_short() {
    let r = big();
    let (t, _) = r.read_short(&1234i16.to_be_bytes(), 0).unwrap();
    assert_eq!(t, NbtTag::Short(1234));
    let (t, _) = r.read_short(&(-2i16).to_be_bytes(), 0).unwrap();
    assert_eq!(t, NbtTag::Short(-2));
    let (t, _) = little().read_short(&(-12345i16).to_le_bytes(), 0).unwrap();
    assert_eq!(t, NbtTag::Short(-12345));
}

#[test]
fn scalar_round_trip_int() {
    let r = big();
    let (t, _) = r.read_int(&42i32.to_be_bytes(), 0).unwrap();
    assert_eq!(t, NbtTag::Int(42));
    let (t, _) = r.read_int(&i32::MIN.to_be_bytes(), 0).unwrap();
    assert_eq!(t, NbtTag::Int(i32::MIN));
    let (t, _) = little().read_int(&(-7i32).to_le_bytes(), 0).unwrap();
    assert_eq!(t, NbtTag::Int(-7));
}

#[test]
fn scalar_round_trip_long() {
    let r = big();
    let v: i64 = -9_876_543_210;
    let (t, _) = r.read_long(&v.to_be_bytes(), 0).unwrap();
    assert_eq!(t, NbtTag::Long(v));
    let (t, _) = little().read_long(&v.to_le_bytes(), 0).unwrap();
    assert_eq!(t, NbtTag::Long(v));
}

#[test]
fn scalar_round_trip_float() {
    let r = big();
    let v: f32 = 3.5;
    let (t, _) = r.read_float(&v.to_be_bytes(), 0).unwrap();
    match t {
        NbtTag::Float(bits) => assert_eq!(f32::from_bits(bits), 3.5),
        _ => panic!("not a float"),
    }
}

#[test]
fn scalar_round_trip_double() {
    let r = big();
    let v: f64 = -2.25;
    let (t, _) = r.read_double(&v.to_be_bytes(), 0).unwrap();
    match t {
        NbtTag::Double(bits) => assert_eq!(f64::from_bits(bits), -2.25),
        _ => panic!("not a double"),
    }
}

#[test]
fn string_decodes_utf8() {
    let r = big();
    let d = [0x00, 0x05, b'h', b'e', b'l', b'l', b'o'];
    let (s, p) = r.read_utf8_string(&d, 0).unwrap();
    assert_eq!(s, "hello");
    assert_eq!(p, 7);
}

#[test]
fn string_invalid_utf8_is_an_error() {
    let r = big();
    let d = [0x00, 0x02, 0xFF, 0xFE];
    assert_eq!(r.read_utf8_string(&d, 0).unwrap_err(), NbtError::InvalidUtf8);
}

#[test]
fn empty_length_string() {
    let r = big();
    let d = [0x00, 0x00, 0xAA];
    let (s, p) = r.read_utf8_string(&d, 0).unwrap();
    assert_eq!(s, "");
    assert_eq!(p, 2);
    // negative length also gives an empty string without consuming more
    let d = [0xFF, 0xFF, 0xAA];
    let (s, p) = r.read_utf8_string(&d, 0).unwrap();
    assert_eq!(s, "");
    assert_eq!(p, 2);
}

#[test]
fn empty_length_byte_array() {
    let r = big();
    let (t, p) = r.read_byte_array(&[0, 0, 0, 0, 0xAA], 0).unwrap();
    assert_eq!(t, NbtTag::ByteArray(vec![]));
    assert_eq!(p, 4);
    let (t, p) = r.read_byte_array(&[0xFF, 0xFF, 0xFF, 0xFE], 0).unwrap();
    assert_eq!(t, NbtTag::ByteArray(vec![]));
    assert_eq!(p, 4);
}

#[test]
fn empty_length_int_and_long_array() {
    let r = big();
    let (t, p) = r.read_int_array(&[0, 0, 0, 0], 0).unwrap();
    assert_eq!(t, NbtTag::IntArray(vec![]));
    assert_eq!(p, 4);
    let (t, p) = r.read_long_array(&[0xFF, 0xFF, 0xFF, 0xFF], 0).unwrap();
    assert_eq!(t, NbtTag::LongArray(vec![]));
    assert_eq!(p, 4);
}

#[test]
fn empty_length_list_ignores_element_type() {
    let r = big();
    // declared element type 0x63 is not a valid tag, but the count is 0
    let (t, p) = r.read_list(&[0x63, 0, 0, 0, 0], 0).unwrap();
    assert_eq!(t, NbtTag::List(vec![]));
    assert_eq!(p, 5);
    // negative count likewise
    let (t, _) = r.read_list(&[0x63, 0xFF, 0xFF, 0xFF, 0xFF], 0).unwrap();
    assert_eq!(t, NbtTag::List(vec![]));
}

#[test]
fn int_array_prefix_counts_bytes_not_elements() {
    let r = big();
    // prefix 8 on an IntArray yields exactly 8 / 4 = 2 elements
    let d = [0, 0, 0, 8, 0, 0, 0, 1, 0, 0, 0, 2];
    let (t, p) = r.read_int_array(&d, 0).unwrap();
    assert_eq!(t, NbtTag::IntArray(vec![1, 2]));
    assert_eq!(p, 12);
}

#[test]
fn long_array_prefix_counts_bytes_not_elements() {
    let r = big();
    // prefix 8 on a LongArray yields exactly 8 / 8 = 1 element
    let d = [0, 0, 0, 8, 0, 0, 0, 0, 0, 0, 0, 3];
    let (t, p) = r.read_long_array(&d, 0).unwrap();
    assert_eq!(t, NbtTag::LongArray(vec![3]));
    assert_eq!(p, 12);
}

#[test]
fn truncated_fixed_width_reads() {
    let r = big();
    assert_eq!(r.read_short(&[0x01], 0).unwrap_err(), NbtError::Truncated);
    assert_eq!(r.read_int(&[0, 0, 0], 0).unwrap_err(), NbtError::Truncated);
    assert_eq!(r.read_long(&[0; 7], 0).unwrap_err(), NbtError::Truncated);
    assert_eq!(r.read_double(&[0; 7], 0).unwrap_err(), NbtError::Truncated);
}

#[test]
fn truncated_string_payload() {
    let r = big();
    // declares 5 bytes of text but only 3 follow
    let d = [0x00, 0x05, b'h', b'e', b'l'];
    assert_eq!(r.read_utf8_string(&d, 0).unwrap_err(), NbtError::Truncated);
}

#[test]
fn truncated_array_payloads() {
    let r = big();
    let d = [0, 0, 0, 4, 1, 2];
    assert_eq!(r.read_byte_array(&d, 0).unwrap_err(), NbtError::Truncated);
    let d = [0, 0, 0, 8, 0, 0, 0, 1];
    assert_eq!(r.read_int_array(&d, 0).unwrap_err(), NbtError::Truncated);
    let d = [0, 0, 0, 8, 0];
    assert_eq!(r.read_long_array(&d, 0).unwrap_err(), NbtError::Truncated);
}

#[test]
fn list_of_ints_decodes_in_order() {
    let r = big();
    let d = [0x03, 0, 0, 0, 3, 0, 0, 0, 1, 0, 0, 0, 2, 0, 0, 0, 3];
    let (t, p) = r.read_list(&d, 0).unwrap();
    assert_eq!(
        t,
        NbtTag::List(vec![NbtTag::Int(1), NbtTag::Int(2), NbtTag::Int(3)])
    );
    assert_eq!(p, 17);
}

#[test]
fn list_with_invalid_declared_type_fails() {
    let r = big();
    // a positive count with an element type byte outside the known kinds
    let d = [0x0D, 0, 0, 0, 1, 0, 0, 0, 1];
    assert_eq!(r.read_list(&d, 0).unwrap_err(), NbtError::InvalidTag);
    // the End sentinel is not a value kind either
    let d = [0x00, 0, 0, 0, 1];
    assert_eq!(r.read_list(&d, 0).unwrap_err(), NbtError::InvalidTag);
}

#[test]
fn list_element_type_disagreement_fails() {
    let r = big();
    // a List declared to hold one Compound, whose element bytes hold an
    // entry with an unknown type byte: the compound rule rejects it
    let d = [0x0A, 0, 0, 0, 1, 0x7F, 0, 0];
    assert_eq!(r.read_list(&d, 0).unwrap_err(), NbtError::InvalidTag);
}

#[test]
fn end_to_end_hello_compound() {
    let r = big();
    let d = [
        0x0A, 0x00, 0x00, 0x03, 0x00, 0x05, 0x68, 0x65, 0x6C, 0x6C, 0x6F, 0x00, 0x00, 0x00,
        0x2A, 0x00,
    ];
    let t = r.decode_root(&d).unwrap();
    let name = String::from("hello");
    let inner = t.get(&name).unwrap();
    assert_eq!(inner.as_int(), Some(&42));
}

#[test]
fn end_to_end_nums_list() {
    let r = big();
    let mut d: Vec<u8> = vec![0x0A, 0x00, 0x00];
    d.extend([0x09, 0x00, 0x04]);
    d.extend(*b"nums");
    d.extend([0x03, 0x00, 0x00, 0x00, 0x03]);
    d.extend([0, 0, 0, 1, 0, 0, 0, 2, 0, 0, 0, 3]);
    d.push(0x00);
    let t = r.decode_root(&d).unwrap();
    let name = String::from("nums");
    let list = t.get(&name).unwrap().as_list().unwrap();
    let got: Vec<i32> = list.iter().map(|e| *e.as_int().unwrap()).collect();
    assert_eq!(got, vec![1, 2, 3]);
}

#[test]
fn duplicate_keys_resolve_to_the_later_value() {
    let r = big();
    let mut d: Vec<u8> = vec![0x0A, 0x00, 0x00];
    d.extend([0x03, 0x00, 0x01, b'a', 0x00, 0x00, 0x00, 0x01]);
    d.extend([0x03, 0x00, 0x01, b'a', 0x00, 0x00, 0x00, 0x02]);
    d.push(0x00);
    let t = r.decode_root(&d).unwrap();
    let name = String::from("a");
    assert_eq!(t.get(&name).unwrap().as_int(), Some(&2));
    // the mapping holds one entry, not two
    assert_eq!(t.as_compound().unwrap().len(), 1);
}

#[test]
fn non_compound_root_is_rejected() {
    let r = big();
    let d = [0x03, 0, 0, 0, 42];
    assert_eq!(r.decode_root(&d).unwrap_err(), NbtError::InvalidRoot);
}

#[test]
fn empty_input_is_truncated() {
    let r = big();
    assert_eq!(r.decode_root(&[]).unwrap_err(), NbtError::Truncated);
}

#[test]
fn unterminated_compound_is_an_error() {
    let r = big();
    // a root compound with one entry and no End sentinel
    let d = [
        0x0A, 0x00, 0x00, 0x03, 0x00, 0x01, b'x', 0x00, 0x00, 0x00, 0x07,
    ];
    assert_eq!(
        r.decode_root(&d).unwrap_err(),
        NbtError::UnterminatedCompound
    );
}

#[test]
fn unknown_entry_type_byte_is_invalid() {
    let r = big();
    let d = [0x0A, 0x00, 0x00, 0x0D, 0x00, 0x01, b'x', 0x00];
    assert_eq!(r.decode_root(&d).unwrap_err(), NbtError::InvalidTag);
}

#[test]
fn little_endian_document() {
    let r = little();
    let d = [
        0x0A, 0x00, 0x00, 0x03, 0x05, 0x00, 0x68, 0x65, 0x6C, 0x6C, 0x6F, 0x2A, 0x00, 0x00,
        0x00, 0x00,
    ];
    let t = r.decode_root(&d).unwrap();
    let name = String::from("hello");
    assert_eq!(t.get(&name).unwrap().as_int(), Some(&42));
}

#[test]
fn root_name_is_read() {
    let r = big();
    let mut d: Vec<u8> = vec![0x0A, 0x00, 0x04];
    d.extend(*b"root");
    d.extend([0x01, 0x00, 0x01, b'b', 0x09]);
    d.push(0x00);
    let (name, t) = r.decode_root_named(&d).unwrap();
    assert_eq!(name, "root");
    let key = String::from("b");
    assert_eq!(t.get(&key).unwrap().as_byte(), Some(&9));
}

#[test]
fn nested_compounds_decode() {
    let r = big();
    let mut d: Vec<u8> = vec![0x0A, 0x00, 0x00];
    // outer entry "inner" of type Compound
    d.extend([0x0A, 0x00, 0x05]);
    d.extend(*b"inner");
    // inner entry "v" of type Short, then inner End
    d.extend([0x02, 0x00, 0x01, b'v', 0x01, 0x00, 0x00]);
    // outer End
    d.push(0x00);
    let t = r.decode_root(&d).unwrap();
    let inner_name = String::from("inner");
    let v_name = String::from("v");
    let inner = t.get(&inner_name).unwrap();
    assert_eq!(inner.get(&v_name).unwrap().as_short(), Some(&256));
}

#[test]
fn read_dispatches_on_type_byte() {
    let r = big();
    let d = [0x02, 0x00, 0x07];
    let (t, p) = r.read(&d, 0).unwrap();
    assert_eq!(t, NbtTag::Short(7));
    assert_eq!(p, 3);
    assert_eq!(r.read(&[0x0D], 0).unwrap_err(), NbtError::InvalidTag);
}

#[test]
fn read_slice_appends_exactly() {
    let r = big();
    let d = [1, 2, 3, 4, 5];
    let mut buf = vec![9];
    let p = r.read_slice(&d, 1, &mut buf, 3).unwrap();
    assert_eq!(buf, vec![9, 2, 3, 4]);
    assert_eq!(p, 4);
    assert_eq!(
        r.read_slice(&d, 3, &mut buf, 3).unwrap_err(),
        NbtError::Truncated
    );
}

#[test]
fn trailing_bytes_are_left_alone() {
    let r = big();
    // a complete document followed by unrelated bytes still decodes:
    // the decoder consumes exactly one value
    let d = [0x0A, 0x00, 0x00, 0x00, 0xDE, 0xAD];
    let t = r.decode_root(&d).unwrap();
    assert_eq!(t.as_compound().unwrap().len(), 0);
}

#[test]
fn int_array_leaves_partial_element_bytes() {
    let r = big();
    // a prefix of 7 bytes holds only one whole 4-byte element; the
    // trailing 3 bytes are not consumed
    let d = [0, 0, 0, 7, 0, 0, 0, 5, 9, 9, 9];
    let (t, p) = r.read_int_array(&d, 0).unwrap();
    assert_eq!(t, NbtTag::IntArray(vec![5]));
    assert_eq!(p, 8);
}

#[test]
fn mixed_compound_document() {
    let r = big();
    let mut d: Vec<u8> = vec![0x0A, 0x00, 0x00];
    // "s": String "ab"
    d.extend([0x08, 0x00, 0x01, b's', 0x00, 0x02, b'a', b'b']);
    // "ba": ByteArray [1, 2]
    d.extend([0x07, 0x00, 0x02, b'b', b'a', 0x00, 0x00, 0x00, 0x02, 1, 2]);
    // "d": Double 1.5
    d.extend([0x06, 0x00, 0x01, b'd']);
    d.extend(1.5f64.to_be_bytes());
    d.push(0x00);
    let t = r.decode_root(&d).unwrap();
    assert_eq!(
        t.get(&String::from("s")).unwrap().as_string(),
        Some(&String::from("ab"))
    );
    assert_eq!(
        t.get(&String::from("ba")).unwrap().as_byte_arr(),
        Some(&vec![1u8, 2])
    );
    let bits = *t.get(&String::from("d")).unwrap().as_double().unwrap();
    assert_eq!(f64::from_bits(bits), 1.5);
}
