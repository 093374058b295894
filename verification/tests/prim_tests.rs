use libmc::prim::{
    read_bool, read_int, read_long, read_short, read_ushort, read_ushort_string, read_uuid,
    read_varint, read_varint_string, read_varint_string_with_nread, read_varint_with_nread,
    write_bool, write_int, write_long, write_short, write_string, write_ushort,
    write_ushort_string, write_uuid, write_varint,
};
use libmc::ProtoError;

#[test]
fn varint_edges() {
    assert_eq!(read_varint(&vec![0x00], 0), Ok((0, 1)));
    assert_eq!(read_varint(&vec![0x01], 0), Ok((1, 1)));
    assert_eq!(read_varint(&vec![0x7f], 0), Ok((127, 1)));
    assert_eq!(read_varint(&vec![0x80, 0x01], 0), Ok((128, 2)));
    assert_eq!(
        read_varint(&vec![0xff, 0xff, 0xff, 0xff, 0x07], 0),
        Ok((2147483647, 5))
    );
    assert_eq!(
        read_varint(
            &vec![0xff, 0xff, 0xff, 0xff, 0xff, 0xff, 0xff, 0xff, 0xff, 0x01],
            0
        ),
        Ok((-1, 10))
    );
}

#[test]
fn varint_negative_takes_ten_bytes() {
    let mut out = Vec::new();
    write_varint(&mut out, -1);
    assert_eq!(
        out,
        vec![0xff, 0xff, 0xff, 0xff, 0xff, 0xff, 0xff, 0xff, 0xff, 0x01]
    );
    let mut out2 = Vec::new();
    write_varint(&mut out2, i64::MIN);
    assert_eq!(out2.len(), 10);
    assert_eq!(read_varint(&out2, 0), Ok((i64::MIN, 10)));
}

#[test]
fn varint_round_trip_samples() {
    for &x in &[0i64, 1, 127, 128, 300, 25565, 2147483647, -1, -300, i64::MAX, i64::MIN] {
        let mut out = Vec::new();
        write_varint(&mut out, x);
        assert!(out.len() <= 10);
        assert_eq!(read_varint(&out, 0), Ok((x, out.len())));
    }
}

#[test]
fn varint_overlong_is_malformed() {
    // Eleven continuation bytes never terminate within the limit.
    let buf = vec![0x80; 11];
    assert_eq!(read_varint(&buf, 0), Err(ProtoError::MalformedFrame));
}

#[test]
fn varint_truncated_is_transport_error() {
    assert_eq!(read_varint(&vec![0x80], 0), Err(ProtoError::TransportError));
}

#[test]
fn fixed_width_round_trips() {
    let mut out = Vec::new();
    write_ushort(&mut out, 0xbeef);
    write_short(&mut out, -2);
    write_int(&mut out, -70000);
    write_long(&mut out, 0x0123_4567_89ab_cdef);
    write_uuid(&mut out, 0xfeed_f00d_dead_beef_0123_4567_89ab_cdef_u128);
    write_bool(&mut out, true);

    let (a, p) = read_ushort(&out, 0).unwrap();
    assert_eq!(a, 0xbeef);
    let (b, p) = read_short(&out, p).unwrap();
    assert_eq!(b, -2);
    let (c, p) = read_int(&out, p).unwrap();
    assert_eq!(c, -70000);
    let (d, p) = read_long(&out, p).unwrap();
    assert_eq!(d, 0x0123_4567_89ab_cdef);
    let (e, p) = read_uuid(&out, p).unwrap();
    assert_eq!(e, 0xfeed_f00d_dead_beef_0123_4567_89ab_cdef_u128);
    let (f, p) = read_bool(&out, p).unwrap();
    assert!(f);
    assert_eq!(p, out.len());
}

#[test]
fn big_endian_layout() {
    let mut out = Vec::new();
    write_int(&mut out, 0x01020304);
    assert_eq!(out, vec![0x01, 0x02, 0x03, 0x04]);
}

#[test]
fn bad_bool_is_malformed() {
    assert_eq!(read_bool(&vec![0x02], 0), Err(ProtoError::MalformedFrame));
    assert_eq!(read_bool(&vec![], 0), Err(ProtoError::TransportError));
}

#[test]
fn short_read_is_transport_error() {
    assert_eq!(read_int(&vec![1, 2, 3], 0), Err(ProtoError::TransportError));
    assert_eq!(read_uuid(&vec![0; 15], 0), Err(ProtoError::TransportError));
}

#[test]
fn string_round_trips() {
    let mut out = Vec::new();
    write_string(&mut out, &b"localhost".to_vec());
    assert_eq!(out[0], 9);
    let (s, p) = read_varint_string(&out, 0).unwrap();
    assert_eq!(s, b"localhost".to_vec());
    assert_eq!(p, out.len());

    let mut out2 = Vec::new();
    write_ushort_string(&mut out2, &b"meme".to_vec());
    assert_eq!(&out2[..3], &[0x00, 0x04, b'm']);
    let (s2, p2) = read_ushort_string(&out2, 0).unwrap();
    assert_eq!(s2, b"meme".to_vec());
    assert_eq!(p2, out2.len());
}

#[test]
fn negative_string_length_is_malformed() {
    // A VarInt length decoding to -1.
    let mut buf = vec![0xff, 0xff, 0xff, 0xff, 0xff, 0xff, 0xff, 0xff, 0xff, 0x01];
    buf.push(b'x');
    assert_eq!(
        read_varint_string(&buf, 0),
        Err(ProtoError::MalformedFrame)
    );
}

#[test]
fn varint_with_nread_counts_bytes() {
    let buf = vec![0x00, 0x80, 0x01, 0x7f];
    assert_eq!(read_varint_with_nread(&buf, 1), Ok((128, 3, 2)));
    let mut sbuf = vec![0x03];
    sbuf.extend_from_slice(b"abc");
    let (s, p, nread) = read_varint_string_with_nread(&sbuf, 0).unwrap();
    assert_eq!(s, b"abc".to_vec());
    assert_eq!(p, 4);
    assert_eq!(nread, 4);
}
