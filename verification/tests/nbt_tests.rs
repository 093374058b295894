use libmc::nbt::{write_compound_nbt, CompoundNbt, Nbt, NbtList};
use libmc::ProtoError;

fn bytes(s: &str) -> Vec<u8> {
    s.as_bytes().to_vec()
}

#[test]
fn compound_usage() {
    fn foo<'a>(x: &'a CompoundNbt) -> (Option<&'a Nbt>, Option<&'a Nbt>) {
        (x.get(&bytes("hello")), x.get(&bytes("goodbye")))
    }

    let mut c = CompoundNbt::new(bytes("hi"));
    c.set(bytes("hello"), Nbt::Byte(3));
    c.set(bytes("goodbye"), Nbt::Byte(12));

    assert!(matches!(
        foo(&c),
        (Some(&Nbt::Byte(3)), Some(&Nbt::Byte(12)))
    ));
}

#[test]
fn basic_nbt_serde() {
    let buf = vec![
        0x0a, 0x00, 0x0b, 0x68, 0x65, 0x6c, 0x6c, 0x6f, 0x20, 0x77, 0x6f, 0x72, 0x6c, 0x64,
        0x08, 0x00, 0x04, 0x6d, 0x65, 0x6d, 0x65, 0x00, 0x09, 0x42, 0x61, 0x6e, 0x61, 0x6e,
        0x72, 0x61, 0x6d, 0x61, 0x00,
    ];

    let (compound, consumed) = Nbt::read_compound(&buf, 0).unwrap();
    assert_eq!(consumed, buf.len());
    assert_eq!(compound.name(), &bytes("hello world"));
    let foo = compound.get(&bytes("meme")).unwrap();
    let Nbt::String(s) = foo else {
        panic!("expected string, got {foo:?}");
    };
    assert_eq!(s, &bytes("Bananrama"));

    let mut deserialized = Vec::with_capacity(buf.len());
    write_compound_nbt(&mut deserialized, &compound);
    assert_eq!(buf, deserialized);
}

#[test]
fn set_replaces_in_place() {
    let mut c = CompoundNbt::new(bytes("root"));
    c.set(bytes("a"), Nbt::Int(1));
    c.set(bytes("b"), Nbt::Int(2));
    c.set(bytes("a"), Nbt::Int(3));
    assert!(matches!(c.get(&bytes("a")), Some(&Nbt::Int(3))));
    assert!(matches!(c.get(&bytes("b")), Some(&Nbt::Int(2))));
    assert!(c.get(&bytes("c")).is_none());
    assert_eq!(c.props().len(), 2);
}

#[test]
fn nested_round_trip() {
    // A compound with every value kind, serialized then parsed back.
    let mut inner = CompoundNbt::new(bytes("child"));
    inner.set(bytes("depth"), Nbt::Short(-2));

    let mut c = CompoundNbt::new(bytes("root"));
    c.set(bytes("b"), Nbt::Byte(-1));
    c.set(bytes("s"), Nbt::Short(300));
    c.set(bytes("i"), Nbt::Int(-70000));
    c.set(bytes("l"), Nbt::Long(1 << 40));
    c.set(bytes("f"), Nbt::Float(0x3f80_0000)); // 1.0f32 bits
    c.set(bytes("d"), Nbt::Double(0x3ff0_0000_0000_0000)); // 1.0f64 bits
    c.set(bytes("ba"), Nbt::ByteArray(vec![1, -2, 3]));
    c.set(bytes("str"), Nbt::String(bytes("hello")));
    c.set(bytes("li"), Nbt::List(NbtList::Int(vec![7, 8, 9])));
    c.set(bytes("ls"), Nbt::List(NbtList::String(vec![bytes("x"), bytes("y")])));
    c.set(bytes("ia"), Nbt::IntArray(vec![-1, 0, 1]));
    c.set(bytes("la"), Nbt::LongArray(vec![i64::MIN, i64::MAX]));
    // The compound property is keyed by the child's own name.
    c.set(bytes("child"), Nbt::Compound(inner));

    let mut wire = Vec::new();
    write_compound_nbt(&mut wire, &c);

    let (back, consumed) = Nbt::read_compound(&wire, 0).unwrap();
    assert_eq!(consumed, wire.len());
    assert_eq!(back.name(), c.name());
    assert_eq!(back.props().len(), c.props().len());

    let mut rewire = Vec::new();
    write_compound_nbt(&mut rewire, &back);
    assert_eq!(wire, rewire);

    assert!(matches!(back.get(&bytes("i")), Some(&Nbt::Int(-70000))));
    let Some(Nbt::Compound(child)) = back.get(&bytes("child")) else {
        panic!("expected child compound");
    };
    assert_eq!(child.name(), &bytes("child"));
    assert!(matches!(child.get(&bytes("depth")), Some(&Nbt::Short(-2))));
}

#[test]
fn empty_list_keeps_element_tag() {
    let mut c = CompoundNbt::new(bytes(""));
    c.set(bytes("e"), Nbt::List(NbtList::Long(Vec::new())));
    let mut wire = Vec::new();
    write_compound_nbt(&mut wire, &c);
    // 0a: compound, empty name, 09: list tagged with prop name "e",
    // element tag 04 (Long), length 0, end.
    assert_eq!(
        wire,
        vec![0x0a, 0x00, 0x00, 0x09, 0x00, 0x01, 0x65, 0x04, 0x00, 0x00, 0x00, 0x00, 0x00]
    );
    let (back, _) = Nbt::read_compound(&wire, 0).unwrap();
    assert!(matches!(back.get(&bytes("e")), Some(Nbt::List(NbtList::Long(v))) if v.is_empty()));
}

#[test]
fn root_must_be_compound() {
    // A byte tag at the root is malformed.
    assert!(matches!(
        Nbt::read_compound(&vec![0x01, 0x05], 0),
        Err(ProtoError::MalformedFrame)
    ));
}

#[test]
fn bad_tag_is_malformed() {
    // Tag byte 13 inside a compound body.
    let buf = vec![0x0a, 0x00, 0x00, 0x0d];
    assert!(matches!(Nbt::read_compound(&buf, 0), Err(ProtoError::MalformedFrame)));
}

#[test]
fn truncated_nbt_is_transport_error() {
    let buf = vec![0x0a, 0x00, 0x04, 0x61];
    assert!(matches!(Nbt::read_compound(&buf, 0), Err(ProtoError::TransportError)));
}

#[test]
fn negative_array_length_is_malformed() {
    // Compound, empty name, byte array "a" with length -1.
    let buf = vec![
        0x0a, 0x00, 0x00, 0x07, 0x00, 0x01, 0x61, 0xff, 0xff, 0xff, 0xff, 0x00,
    ];
    assert!(matches!(Nbt::read_compound(&buf, 0), Err(ProtoError::MalformedFrame)));
}
