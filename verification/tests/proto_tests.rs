use libmc::nbt::CompoundNbt;
use libmc::proto::{
    read_bitset, read_position, write_block_entity, write_bitset, write_game_mode,
    write_position, BitSet, BlockEntity, GameMode, Position,
};

#[test]
fn test_bitset() {
    let mut bs = BitSet::with_num_bits(1);
    assert!(bs.num_longs() == 1);

    let set_bit_idxs = [12, 1, 0, 4];
    for i in set_bit_idxs.iter() {
        bs.set(*i);
    }

    for i in 0..64 {
        if set_bit_idxs.contains(&i) {
            assert!(bs.get(i), "Unexpected bit {i} = 0");
        } else {
            assert!(!bs.get(i), "Unexpected bit {i} = 1");
        }
    }
}

#[test]
fn bitset_sizes_round_up() {
    assert_eq!(BitSet::with_num_bits(0).num_longs(), 0);
    assert_eq!(BitSet::with_num_bits(64).num_longs(), 1);
    assert_eq!(BitSet::with_num_bits(65).num_longs(), 2);
}

#[test]
fn bitset_wire_form() {
    let mut bs = BitSet::with_num_bits(64);
    bs.set(0);
    bs.set(63);
    let mut out = Vec::new();
    write_bitset(&mut out, &bs);
    // VarInt word count 1, then the word big-endian.
    assert_eq!(out, vec![0x01, 0x80, 0x00, 0x00, 0x00, 0x00, 0x00, 0x00, 0x01]);
}

#[test]
fn position_pack() {
    let p = Position { x: 1, z: 2, y: 3 };
    let mut out = Vec::new();
    write_position(&mut out, &p);
    let packed: u64 = (1u64 << 38) | (2u64 << 12) | 3u64;
    assert_eq!(out, packed.to_be_bytes().to_vec());
}

#[test]
fn position_round_trip_with_negatives() {
    for &(x, z, y) in &[
        (1i32, 2i32, 3i16),
        (-1, -2, -3),
        (-(1 << 25), (1 << 25) - 1, -2048),
        (33554431, -33554432, 2047),
        (0, 0, 0),
    ] {
        let p = Position { x, z, y };
        let mut out = Vec::new();
        write_position(&mut out, &p);
        let (q, n) = read_position(&out, 0).unwrap();
        assert_eq!(n, 8);
        assert_eq!(q, p);
    }
}

#[test]
fn game_mode_bytes() {
    for (gm, b) in [
        (GameMode::Survival, 0u8),
        (GameMode::Creative, 1),
        (GameMode::Adventure, 2),
        (GameMode::Spectator, 3),
    ] {
        let mut out = Vec::new();
        write_game_mode(&mut out, gm);
        assert_eq!(out, vec![b]);
    }
}

#[test]
fn block_entity_wire_form() {
    let bent = BlockEntity {
        x: 5,
        z: 9,
        y: -1,
        tipe: 7,
        data: CompoundNbt::new(b"be".to_vec()),
    };
    let mut out = Vec::new();
    write_block_entity(&mut out, &bent);
    // Packed nibbles (5 << 4) | 9, y as big-endian i16, VarInt type,
    // then the embedded compound.
    assert_eq!(
        out,
        vec![0x59, 0xff, 0xff, 0x07, 0x0a, 0x00, 0x02, b'b', b'e', 0x00]
    );
}

#[test]
fn bitset_read_write_round_trip() {
    let mut bs = BitSet::with_num_bits(100);
    for i in [0, 5, 63, 64, 99] {
        bs.set(i);
    }
    let mut wire = Vec::new();
    write_bitset(&mut wire, &bs);
    let (back, n) = read_bitset(&wire, 0).unwrap();
    assert_eq!(n, wire.len());
    assert_eq!(back.num_longs(), 2);
    for i in 0..100 {
        assert_eq!(back.get(i), bs.get(i), "bit {i}");
    }
}

#[test]
fn bitset_negative_count_is_malformed() {
    // A VarInt count of -1.
    let wire = vec![0xff, 0xff, 0xff, 0xff, 0xff, 0xff, 0xff, 0xff, 0xff, 0x01];
    assert!(matches!(read_bitset(&wire, 0), Err(libmc::ProtoError::MalformedFrame)));
}
