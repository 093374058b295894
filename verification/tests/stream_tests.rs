use libmc::nbt::CompoundNbt;
use libmc::proto::{BitSet, GameMode, HandshakeNextState, LoginSuccessProp};
use libmc::stream::{InPacket, OutPacket, PacketStream, State};
use libmc::ProtoError;

fn handshake_frame(next_state: u8) -> Vec<u8> {
    let mut f = vec![0x10, 0x00, 0xfc, 0x05, 0x09];
    f.extend_from_slice(b"localhost");
    f.extend_from_slice(&[0x63, 0xdd, next_state]);
    f
}

fn login_start_frame() -> Vec<u8> {
    let mut f = vec![0x16, 0x00, 0x04];
    f.extend_from_slice(b"Alex");
    f.extend_from_slice(&[
        0x00, 0x01, 0x02, 0x03, 0x04, 0x05, 0x06, 0x07, 0x08, 0x09, 0x0a, 0x0b, 0x0c, 0x0d,
        0x0e, 0x0f,
    ]);
    f
}

fn client_info_frame() -> Vec<u8> {
    let mut f = vec![0x0e, 0x00, 0x05];
    f.extend_from_slice(b"en_US");
    f.extend_from_slice(&[0x0a, 0x00, 0x01, 0x7f, 0x01, 0x00, 0x01]);
    f
}

fn plugin_message_frame() -> Vec<u8> {
    let mut f = vec![0x0c, 0x01, 0x08];
    f.extend_from_slice(b"mc:brand");
    f.extend_from_slice(&[0xab, 0xcd]);
    f
}

#[test]
fn handshake_decode() {
    let mut ps = PacketStream::new(handshake_frame(0x02), Vec::new());
    assert_eq!(ps.state, State::Handshaking);
    let p = ps.next_packet().unwrap();
    match p {
        InPacket::Handshake { protocol_version, server_addr, server_port, next_state } => {
            assert_eq!(protocol_version, 764);
            assert_eq!(server_addr, b"localhost".to_vec());
            assert_eq!(server_port, 25565);
            assert!(matches!(next_state, HandshakeNextState::Login));
        }
        other => panic!("expected handshake, got {other:?}"),
    }
    assert_eq!(ps.state, State::Login);
}

#[test]
fn login_start_decode() {
    let mut ps = PacketStream::new(login_start_frame(), Vec::new());
    ps.state = State::Login;
    let p = ps.next_packet().unwrap();
    match p {
        InPacket::LoginStart { name, player_uuid } => {
            assert_eq!(name, b"Alex".to_vec());
            assert_eq!(player_uuid, 0x0001_0203_0405_0607_0809_0a0b_0c0d_0e0f_u128);
        }
        other => panic!("expected login start, got {other:?}"),
    }
    assert_eq!(ps.state, State::Login);
}

#[test]
fn plugin_message_decode() {
    let mut ps = PacketStream::new(plugin_message_frame(), Vec::new());
    ps.state = State::Config;
    let p = ps.next_packet().unwrap();
    match p {
        InPacket::PluginMessageConfig { channel, data } => {
            assert_eq!(channel, b"mc:brand".to_vec());
            assert_eq!(data, vec![0xab, 0xcd]);
        }
        other => panic!("expected plugin message, got {other:?}"),
    }
    assert_eq!(ps.state, State::Config);
}

#[test]
fn login_success_encode() {
    let mut ps = PacketStream::new(Vec::new(), Vec::new());
    ps.state = State::Login;
    ps.send(&OutPacket::LoginSuccess {
        uuid: 1,
        username: b"foobar".to_vec(),
        props: Vec::new(),
    })
    .unwrap();
    let out = ps.take_output();
    let mut expected = vec![0x19, 0x02];
    expected.extend_from_slice(&[
        0x00, 0x00, 0x00, 0x00, 0x00, 0x00, 0x00, 0x00, 0x00, 0x00, 0x00, 0x00, 0x00, 0x00,
        0x00, 0x01,
    ]);
    expected.push(0x06);
    expected.extend_from_slice(b"foobar");
    expected.push(0x00);
    assert_eq!(out, expected);
}

#[test]
fn login_success_with_signed_prop() {
    let mut ps = PacketStream::new(Vec::new(), Vec::new());
    ps.state = State::Login;
    ps.send(&OutPacket::LoginSuccess {
        uuid: 2,
        username: b"ab".to_vec(),
        props: vec![LoginSuccessProp {
            name: b"textures".to_vec(),
            value: b"v".to_vec(),
            signature: Some(b"sig".to_vec()),
        }],
    })
    .unwrap();
    let out = ps.take_output();
    // VarInt length prefix equals the number of bytes that follow.
    assert_eq!(out[0] as usize, out.len() - 1);
    // id, uuid, then the username.
    assert_eq!(out[1], 0x02);
    assert_eq!(out[17], 0x02); // low byte of the uuid
    assert_eq!(&out[19..21], b"ab");
    // One property: name, value, has-signature, signature.
    assert_eq!(out[21], 0x01);
    assert_eq!(out[22], 0x08);
    assert_eq!(&out[23..31], b"textures");
    assert_eq!(&out[31..33], &[0x01, b'v']);
    assert_eq!(out[33], 0x01);
    assert_eq!(out[34], 0x03);
    assert_eq!(&out[35..38], b"sig");
}

#[test]
fn disconnect_login_json_literal() {
    let mut ps = PacketStream::new(Vec::new(), Vec::new());
    ps.state = State::Login;
    ps.send(&OutPacket::DisconnectLogin { reason: b"bye".to_vec() }).unwrap();
    let out = ps.take_output();
    // Frame length, id 0, string length 12, then the JSON-text literal.
    let mut expected = vec![0x0e, 0x00, 0x0c];
    expected.extend_from_slice(b"{text:\"bye\"}");
    assert_eq!(out, expected);
}

#[test]
fn state_transitions_via_packets() {
    let mut input = Vec::new();
    input.extend_from_slice(&handshake_frame(0x02));
    input.extend_from_slice(&login_start_frame());
    input.extend_from_slice(&[0x01, 0x03]); // LoginAck
    input.extend_from_slice(&client_info_frame());
    input.extend_from_slice(&plugin_message_frame());
    input.extend_from_slice(&[0x01, 0x02]); // FinishConfig

    let mut ps = PacketStream::new(Vec::new(), Vec::new());
    ps.feed(input);
    let expected_states = [
        State::Login,
        State::Login,
        State::Config,
        State::Config,
        State::Config,
        State::Play,
    ];
    for (i, want) in expected_states.iter().enumerate() {
        let p = ps.next_packet().unwrap_or_else(|e| panic!("packet {i}: {e:?}"));
        match (i, &p) {
            (0, InPacket::Handshake { .. }) => {}
            (1, InPacket::LoginStart { .. }) => {}
            (2, InPacket::LoginAck) => {}
            (3, InPacket::ClientInfoConfig { locale, chat_mode, main_hand, .. }) => {
                assert_eq!(locale, &b"en_US".to_vec());
                assert!(matches!(chat_mode, libmc::proto::ChatMode::Enabled));
                assert!(matches!(main_hand, libmc::proto::MainHand::Right));
            }
            (4, InPacket::PluginMessageConfig { .. }) => {}
            (5, InPacket::FinishConfig) => {}
            _ => panic!("unexpected packet {i}: {p:?}"),
        }
        assert_eq!(ps.state, *want, "after packet {i}");
    }
    assert_eq!(ps.rpos, ps.input.len());
}

#[test]
fn partial_input_is_retryable() {
    let frame = handshake_frame(0x02);
    let mut ps = PacketStream::new(Vec::new(), Vec::new());
    ps.feed(frame[..7].to_vec());
    assert!(matches!(ps.next_packet(), Err(ProtoError::TransportError)));
    assert_eq!(ps.rpos, 0);
    assert_eq!(ps.state, State::Handshaking);
    ps.feed(frame[7..].to_vec());
    assert!(matches!(ps.next_packet(), Ok(InPacket::Handshake { .. })));
    assert_eq!(ps.state, State::Login);
}

#[test]
fn unknown_state_id_pair_is_malformed() {
    // Packet id 5 is not valid while handshaking.
    let mut ps = PacketStream::new(vec![0x01, 0x05], Vec::new());
    assert!(matches!(ps.next_packet(), Err(ProtoError::MalformedFrame)));
    assert_eq!(ps.state, State::Handshaking);
}

#[test]
fn bad_next_state_is_out_of_range() {
    let mut ps = PacketStream::new(handshake_frame(0x07), Vec::new());
    assert!(matches!(ps.next_packet(), Err(ProtoError::FieldOutOfRange)));
}

#[test]
fn send_in_wrong_state_is_protocol_violation() {
    let mut ps = PacketStream::new(Vec::new(), Vec::new());
    assert_eq!(
        ps.send(&OutPacket::FinishConfig),
        Err(ProtoError::ProtocolViolation)
    );
    assert!(ps.take_output().is_empty());
    ps.state = State::Config;
    assert_eq!(ps.send(&OutPacket::FinishConfig), Ok(()));
    assert_eq!(ps.take_output(), vec![0x01, 0x02]);
}

#[test]
fn login_play_encode() {
    let mut ps = PacketStream::new(Vec::new(), Vec::new());
    ps.state = State::Play;
    ps.send(&OutPacket::LoginPlay {
        entity_id: 1,
        is_hardcore: false,
        dimension_names: vec![b"foo:bar".to_vec()],
        max_players: 456,
        view_distance: 111,
        simulation_distance: 222,
        reduced_debug_info: false,
        enable_respawn_screen: true,
        do_limited_crafting: false,
        dimension_type: b"foo:baz".to_vec(),
        dimension_name: b"foo:bar".to_vec(),
        hashed_seed: 999,
        game_mode: GameMode::Spectator,
        prev_game_mode: None,
        is_debug: false,
        is_superflat: false,
        death_info: None,
        portal_cooldown: 5,
    })
    .unwrap();
    let out = ps.take_output();
    // The length prefix covers exactly the rest of the frame.
    assert_eq!(out[0] as usize, out.len() - 1);
    // id, entity id, hardcore flag, one dimension name.
    assert_eq!(out[1], 0x29);
    assert_eq!(&out[2..6], &[0x00, 0x00, 0x00, 0x01]);
    assert_eq!(out[6], 0x00);
    assert_eq!(out[7], 0x01);
    assert_eq!(out[8], 0x07);
    assert_eq!(&out[9..16], b"foo:bar");
    // max players 456 as a VarInt.
    assert_eq!(&out[16..18], &[0xc8, 0x03]);
    // The previous game mode byte is -1 and the trailing VarInt is 5.
    assert_eq!(out[out.len() - 1], 0x05);
    assert_eq!(out[out.len() - 5], 0xff);
}

#[test]
fn chunk_data_encode_empty() {
    let mut ps = PacketStream::new(Vec::new(), Vec::new());
    ps.state = State::Play;
    ps.send(&OutPacket::ChunkDataAndUpdateLight {
        chunk_x: 1,
        chunk_z: 2,
        heightmaps: CompoundNbt::new(Vec::new()),
        data: Vec::new(),
        block_entities: Vec::new(),
        sky_light_mask: BitSet::with_num_bits(0),
        block_light_mask: BitSet::with_num_bits(0),
        empty_sky_light_mask: BitSet::with_num_bits(0),
        empty_block_light_mask: BitSet::with_num_bits(0),
        sky_light_arrays: Vec::new(),
        block_light_arrays: Vec::new(),
    })
    .unwrap();
    let out = ps.take_output();
    let expected = vec![
        0x15, 0x25, 0x00, 0x00, 0x00, 0x01, 0x00, 0x00, 0x00, 0x02, 0x0a, 0x00, 0x00, 0x00,
        0x00, 0x00, 0x00, 0x00, 0x00, 0x00, 0x00, 0x00,
    ];
    assert_eq!(out, expected);
}
