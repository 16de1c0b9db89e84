use nbt::builder::NbtBuilder;
use nbt::tag::NbtTag;
use nbt::Compression;

#[test]
fn accessors_match_their_variant() {
    assert_eq!(NbtTag::Byte(1).as_byte(), Some(&1));
    assert_eq!(NbtTag::Short(2).as_short(), Some(&2));
    assert_eq!(NbtTag::Int(3).as_int(), Some(&3));
    assert_eq!(NbtTag::Long(4).as_long(), Some(&4));
    assert_eq!(NbtTag::Float(5).as_float(), Some(&5));
    assert_eq!(NbtTag::Double(6).as_double(), Some(&6));
    let s = NbtTag::String(String::from("x"));
    assert_eq!(s.as_string(), Some(&String::from("x")));
    let b = NbtTag::ByteArray(vec![7]);
    assert_eq!(b.as_byte_arr(), Some(&vec![7]));
    let ia = NbtTag::IntArray(vec![8]);
    assert_eq!(ia.as_int_arr(), Some(&vec![8]));
    let la = NbtTag::LongArray(vec![9]);
    assert_eq!(la.as_long_arr(), Some(&vec![9]));
    let l = NbtTag::List(vec![NbtTag::Byte(1)]);
    assert_eq!(l.as_list(), Some(&vec![NbtTag::Byte(1)]));
    let c = NbtTag::Compound(vec![(String::from("k"), NbtTag::Byte(1))]);
    assert!(c.as_compound().is_some());
}

#[test]
fn accessors_reject_other_variants() {
    let t = NbtTag::Int(3);
    assert_eq!(t.as_byte(), None);
    assert_eq!(t.as_short(), None);
    assert_eq!(t.as_long(), None);
    assert_eq!(t.as_float(), None);
    assert_eq!(t.as_double(), None);
    assert_eq!(t.as_string(), None);
    assert_eq!(t.as_byte_arr(), None);
    assert_eq!(t.as_list(), None);
    assert!(t.as_compound().is_none());
    assert_eq!(t.as_int_arr(), None);
    assert_eq!(t.as_long_arr(), None);
    assert_eq!(NbtTag::Byte(0).as_int(), None);
}

#[test]
fn get_finds_entries_by_name() {
    let c = NbtTag::Compound(vec![
        (String::from("a"), NbtTag::Int(1)),
        (String::from("b"), NbtTag::Int(2)),
    ]);
    assert_eq!(c.get(&String::from("a")).unwrap().as_int(), Some(&1));
    assert_eq!(c.get(&String::from("b")).unwrap().as_int(), Some(&2));
    assert!(c.get(&String::from("c")).is_none());
    // a non-compound has no entries at all
    assert!(NbtTag::Int(1).get(&String::from("a")).is_none());
}

#[test]
fn builder_collects_values() {
    let t = NbtBuilder::new().add_i32("x", 1).add_i32("y", 2).build();
    assert_eq!(t.get(&String::from("x")).unwrap().as_int(), Some(&1));
    assert_eq!(t.get(&String::from("y")).unwrap().as_int(), Some(&2));
    assert_eq!(t.as_compound().unwrap().len(), 2);
}

#[test]
fn builder_overwrites_duplicate_keys() {
    let t = NbtBuilder::with_root_tag(String::from("root"))
        .add_i32("x", 1)
        .add_i32("x", 5)
        .build();
    assert_eq!(t.get(&String::from("x")).unwrap().as_int(), Some(&5));
    assert_eq!(t.as_compound().unwrap().len(), 1);
}

#[test]
fn compression_kinds_are_distinct() {
    assert_ne!(Compression::Gzip, Compression::Zlib);
    assert_ne!(Compression::Gzip, Compression::Uncompressed);
    assert_ne!(Compression::Zlib, Compression::Uncompressed);
}
