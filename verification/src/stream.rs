//! Packet framing and the per-connection state machine.
//!
//! A frame on the wire is a VarInt total length followed by that many
//! bytes: a VarInt packet id and the payload.  The same numeric id means
//! different packets in different states, so decoding is dispatched on
//! the pair (state, id), and decoding or sending specific packets is the
//! only thing that advances the state.
//!
//! The stream works over in-memory buffers: the application appends
//! received bytes with `feed`, pulls decoded packets with `next_packet`,
//! and drains bytes to transmit with `take_output`.  A failed decode
//! leaves the stream untouched, so the application can feed more bytes
//! and try again.

use vstd::prelude::*;

use crate::err::ProtoError;
use crate::nbt::{compound_enc, compound_wf, i8s_bytes, CompoundNbt, write_compound_nbt};
use crate::prim::{
    bool_dec, bool_enc, i64_of_u64, lemma_varint_round_trip, read_bool, read_byte, read_bytes,
    read_ubyte, read_ushort, read_uuid, read_varint, read_varint_string, u128_be, u128_dec,
    u16_dec, u32_be, u32_of_i32, u64_be, u64_of_i64, u8_dec, u8_of_i8, varint_dec, varint_enc,
    varint_string_dec, varint_string_enc, write_bool, write_bytes, write_ibyte, write_int,
    lemma_append_assoc, write_long, write_string, write_ubyte, write_uuid, write_varint,
};
use crate::proto::{
    bitset_enc, block_entity_enc, game_mode_byte, position_in_range, position_packed,
    write_bitset, write_block_entity, write_game_mode, write_position, BitSet, BlockEntity,
    BlockEntityView, ChatMode, DeathInfo, DeathInfoView, GameMode, HandshakeNextState,
    LoginSuccessProp, LoginSuccessPropView, MainHand,
};

verus! {

/// The phase of the connection: which packet ids are valid and how they
/// are interpreted.
#[derive(Debug, Copy, Clone, PartialEq, Eq, Structural)]
pub enum State {
    Handshaking,
    Login,
    Config,
    Play,
}

/// The position of a state along the handshake, login, configuration,
/// play progression.
pub open spec fn state_rank(st: State) -> int {
    match st {
        State::Handshaking => 0,
        State::Login => 1,
        State::Config => 2,
        State::Play => 3,
    }
}

/// One decoded inbound packet.
#[derive(Debug)]
pub enum InPacket {
    Handshake {
        protocol_version: i64,
        server_addr: Vec<u8>,
        server_port: u16,
        next_state: HandshakeNextState,
    },
    LoginStart { name: Vec<u8>, player_uuid: u128 },
    LoginAck,
    PluginMessageConfig { channel: Vec<u8>, data: Vec<u8> },
    ClientInfoConfig {
        locale: Vec<u8>,
        view_distance: i8,
        chat_mode: ChatMode,
        chat_colors: bool,
        displayed_skin_parts: u8,
        main_hand: MainHand,
        enable_text_filtering: bool,
        allow_server_listings: bool,
    },
    FinishConfig,
}

/// The model of an inbound packet.
pub enum InPacketView {
    Handshake {
        protocol_version: i64,
        server_addr: Seq<u8>,
        server_port: u16,
        next_state: HandshakeNextState,
    },
    LoginStart { name: Seq<u8>, player_uuid: u128 },
    LoginAck,
    PluginMessageConfig { channel: Seq<u8>, data: Seq<u8> },
    ClientInfoConfig {
        locale: Seq<u8>,
        view_distance: i8,
        chat_mode: ChatMode,
        chat_colors: bool,
        displayed_skin_parts: u8,
        main_hand: MainHand,
        enable_text_filtering: bool,
        allow_server_listings: bool,
    },
    FinishConfig,
}

impl View for InPacket {
    type V = InPacketView;

    open spec fn view(&self) -> InPacketView {
        match self {
            InPacket::Handshake { protocol_version, server_addr, server_port, next_state } => {
                InPacketView::Handshake {
                    protocol_version: *protocol_version,
                    server_addr: server_addr@,
                    server_port: *server_port,
                    next_state: *next_state,
                }
            },
            InPacket::LoginStart { name, player_uuid } => InPacketView::LoginStart {
                name: name@,
                player_uuid: *player_uuid,
            },
            InPacket::LoginAck => InPacketView::LoginAck,
            InPacket::PluginMessageConfig { channel, data } => {
                InPacketView::PluginMessageConfig { channel: channel@, data: data@ }
            },
            InPacket::ClientInfoConfig {
                locale,
                view_distance,
                chat_mode,
                chat_colors,
                displayed_skin_parts,
                main_hand,
                enable_text_filtering,
                allow_server_listings,
            } => InPacketView::ClientInfoConfig {
                locale: locale@,
                view_distance: *view_distance,
                chat_mode: *chat_mode,
                chat_colors: *chat_colors,
                displayed_skin_parts: *displayed_skin_parts,
                main_hand: *main_hand,
                enable_text_filtering: *enable_text_filtering,
                allow_server_listings: *allow_server_listings,
            },
            InPacket::FinishConfig => InPacketView::FinishConfig,
        }
    }
}

// ---------------------------------------------------------------------
// Spec decoders for inbound payloads
// ---------------------------------------------------------------------

/// Decode a handshake payload: protocol version, server address, server
/// port, and the state to continue in (1 or 2; anything else is out of
/// range).
pub open spec fn handshake_dec(s: Seq<u8>) -> Result<(InPacketView, int), ProtoError> {
    match varint_dec(s) {
        Ok((pv, n1)) => match varint_string_dec(s.skip(n1)) {
            Ok((addr, n2)) => match u16_dec(s.skip(n1 + n2)) {
                Ok((port, _)) => match varint_dec(s.skip(n1 + n2 + 2)) {
                    Ok((nsv, n3)) => {
                        let ns = i64_of_u64(nsv);
                        if ns == 1 || ns == 2 {
                            Ok(
                                (
                                    InPacketView::Handshake {
                                        protocol_version: i64_of_u64(pv),
                                        server_addr: addr,
                                        server_port: port,
                                        next_state: if ns == 1 {
                                            HandshakeNextState::Status
                                        } else {
                                            HandshakeNextState::Login
                                        },
                                    },
                                    n1 + n2 + 2 + n3,
                                ),
                            )
                        } else {
                            Err(ProtoError::FieldOutOfRange)
                        }
                    },
                    Err(e) => Err(e),
                },
                Err(e) => Err(e),
            },
            Err(e) => Err(e),
        },
        Err(e) => Err(e),
    }
}

/// Decode a login start payload: player name and UUID.
pub open spec fn login_start_dec(s: Seq<u8>) -> Result<(InPacketView, int), ProtoError> {
    match varint_string_dec(s) {
        Ok((name, n1)) => match u128_dec(s.skip(n1)) {
            Ok((uuid, _)) => Ok(
                (InPacketView::LoginStart { name, player_uuid: uuid }, n1 + 16),
            ),
            Err(e) => Err(e),
        },
        Err(e) => Err(e),
    }
}

/// Decode a configuration-phase plugin message: a channel name, then
/// raw data filling the rest of the frame (`tail` is the frame length
/// minus the id bytes).
pub open spec fn plugin_message_dec(s: Seq<u8>, tail: int) -> Result<
    (InPacketView, int),
    ProtoError,
> {
    match varint_string_dec(s) {
        Ok((channel, n1)) => {
            let dlen = tail - n1;
            if dlen < 0 {
                Err(ProtoError::MalformedFrame)
            } else if n1 + dlen > s.len() {
                Err(ProtoError::TransportError)
            } else {
                Ok(
                    (
                        InPacketView::PluginMessageConfig {
                            channel,
                            data: s.subrange(n1, n1 + dlen),
                        },
                        n1 + dlen,
                    ),
                )
            }
        },
        Err(e) => Err(e),
    }
}

/// Decode a client information payload.
pub open spec fn client_info_dec(s: Seq<u8>) -> Result<(InPacketView, int), ProtoError> {
    match varint_string_dec(s) {
        Ok((locale, n1)) => match u8_dec(s.skip(n1)) {
            Ok((vd, _)) => match varint_dec(s.skip(n1 + 1)) {
                Ok((cmv, n2)) => {
                    let cm = i64_of_u64(cmv);
                    if !(cm == 0 || cm == 1 || cm == 2) {
                        Err(ProtoError::FieldOutOfRange)
                    } else {
                        match bool_dec(s.skip(n1 + 1 + n2)) {
                            Ok((colors, _)) => match u8_dec(s.skip(n1 + 1 + n2 + 1)) {
                                Ok((skin, _)) => match varint_dec(s.skip(n1 + 1 + n2 + 2)) {
                                    Ok((mhv, n3)) => {
                                        let mh = i64_of_u64(mhv);
                                        if !(mh == 0 || mh == 1) {
                                            Err(ProtoError::FieldOutOfRange)
                                        } else {
                                            match bool_dec(s.skip(n1 + 1 + n2 + 2 + n3)) {
                                                Ok((filt, _)) => match bool_dec(
                                                    s.skip(n1 + 1 + n2 + 2 + n3 + 1),
                                                ) {
                                                    Ok((listing, _)) => Ok(
                                                        (
                                                            InPacketView::ClientInfoConfig {
                                                                locale,
                                                                view_distance: crate::prim::i8_of_u8(
                                                                    vd,
                                                                ),
                                                                chat_mode: if cm == 0 {
                                                                    ChatMode::Enabled
                                                                } else if cm == 1 {
                                                                    ChatMode::CommandsOnly
                                                                } else {
                                                                    ChatMode::Hidden
                                                                },
                                                                chat_colors: colors,
                                                                displayed_skin_parts: skin,
                                                                main_hand: if mh == 0 {
                                                                    MainHand::Left
                                                                } else {
                                                                    MainHand::Right
                                                                },
                                                                enable_text_filtering: filt,
                                                                allow_server_listings: listing,
                                                            },
                                                            n1 + 1 + n2 + 2 + n3 + 2,
                                                        ),
                                                    ),
                                                    Err(e) => Err(e),
                                                },
                                                Err(e) => Err(e),
                                            }
                                        }
                                    },
                                    Err(e) => Err(e),
                                },
                                Err(e) => Err(e),
                            },
                            Err(e) => Err(e),
                        }
                    }
                },
                Err(e) => Err(e),
            },
            Err(e) => Err(e),
        },
        Err(e) => Err(e),
    }
}

/// Decode one frame in the given state: VarInt total length, VarInt
/// packet id, then the payload of the packet that (state, id) names.
/// Yields the packet, the state after it, and the bytes consumed.
/// The declared length only takes part in the plugin message, whose
/// trailing data fills whatever the length says is left of the frame;
/// every other payload has a shape of its own and is read exactly.
pub open spec fn spec_next_packet(s: Seq<u8>, st: State) -> Result<
    (InPacketView, State, int),
    ProtoError,
> {
    match varint_dec(s) {
        Ok((lv, n0)) => {
            let plen = i64_of_u64(lv);
            match varint_dec(s.skip(n0)) {
                Ok((idv, n1)) => {
                    let id = i64_of_u64(idv);
                    let body = s.skip(n0 + n1);
                    if id == 0 && st is Handshaking {
                        match handshake_dec(body) {
                            Ok((p, m)) => Ok((p, State::Login, n0 + n1 + m)),
                            Err(e) => Err(e),
                        }
                    } else if id == 0 && st is Login {
                        match login_start_dec(body) {
                            Ok((p, m)) => Ok((p, State::Login, n0 + n1 + m)),
                            Err(e) => Err(e),
                        }
                    } else if id == 3 && st is Login {
                        Ok((InPacketView::LoginAck, State::Config, n0 + n1))
                    } else if id == 1 && st is Config {
                        match plugin_message_dec(body, plen - n1) {
                            Ok((p, m)) => Ok((p, State::Config, n0 + n1 + m)),
                            Err(e) => Err(e),
                        }
                    } else if id == 0 && st is Config {
                        match client_info_dec(body) {
                            Ok((p, m)) => Ok((p, State::Config, n0 + n1 + m)),
                            Err(e) => Err(e),
                        }
                    } else if id == 2 && st is Config {
                        Ok((InPacketView::FinishConfig, State::Play, n0 + n1))
                    } else {
                        Err(ProtoError::MalformedFrame)
                    }
                },
                Err(e) => Err(e),
            }
        },
        Err(e) => Err(e),
    }
}

/// State monotonicity: decoding a packet never moves the connection
/// backwards along the handshake, login, configuration, play
/// progression.
pub proof fn lemma_state_monotonic(s: Seq<u8>, st: State)
    ensures
        spec_next_packet(s, st) matches Ok((p, st2, n)) ==> state_rank(st2) >= state_rank(st),
{
}

// ---------------------------------------------------------------------
// The packet stream
// ---------------------------------------------------------------------

/// A framed packet stream over in-memory buffers, carrying the
/// per-connection state.
#[derive(Debug)]
pub struct PacketStream {
    /// Received bytes; those before `rpos` are already consumed.
    pub input: Vec<u8>,
    /// The read cursor into `input`.
    pub rpos: usize,
    /// Encoded frames awaiting transmission.
    pub output: Vec<u8>,
    /// The connection phase.
    pub state: State,
}

impl PacketStream {
    /// The read cursor lies within the input.
    pub open spec fn wf(self) -> bool {
        self.rpos <= self.input@.len()
    }

    /// A fresh stream over the given receive and transmit buffers,
    /// starting in the handshaking state.
    pub fn new(r: Vec<u8>, w: Vec<u8>) -> (s: PacketStream)
        ensures
            s.input == r,
            s.output == w,
            s.rpos == 0,
            s.state == State::Handshaking,
            s.wf(),
    {
        PacketStream { input: r, rpos: 0, output: w, state: State::Handshaking }
    }

    /// Append received bytes to the input.
    pub fn feed(&mut self, bytes: Vec<u8>)
        requires
            old(self).wf(),
        ensures
            final(self).input@ == old(self).input@ + bytes@,
            final(self).rpos == old(self).rpos,
            final(self).output == old(self).output,
            final(self).state == old(self).state,
            final(self).wf(),
    {
        let mut b = bytes;
        self.input.append(&mut b);
    }

    /// Drain the bytes awaiting transmission.
    pub fn take_output(&mut self) -> (r: Vec<u8>)
        ensures
            r@ == old(self).output@,
            final(self).output@ == Seq::<u8>::empty(),
            final(self).input == old(self).input,
            final(self).rpos == old(self).rpos,
            final(self).state == old(self).state,
    {
        let mut out: Vec<u8> = Vec::new();
        core::mem::swap(&mut out, &mut self.output);
        out
    }

    /// Decode the next packet from the input and advance the state as
    /// the packet dictates.  On an error nothing is consumed and the
    /// stream is unchanged, so more input can be fed and decoding
    /// retried.
    #[verifier::rlimit(100)]
    pub fn next_packet(&mut self) -> (r: Result<InPacket, ProtoError>)
        requires
            old(self).wf(),
        ensures
            final(self).wf(),
            final(self).input == old(self).input,
            final(self).output == old(self).output,
            ({
                match spec_next_packet(
                    old(self).input@.skip(old(self).rpos as int),
                    old(self).state,
                ) {
                    Ok((pv, st2, n)) => r matches Ok(p) && p@ == pv && final(self).state == st2
                        && final(self).rpos == old(self).rpos + n,
                    Err(e) => r == Err::<InPacket, ProtoError>(e) && *final(self) == *old(self),
                }
            }),
    {
        let ghost s0 = self.input@.skip(self.rpos as int);
        proof {
            assert(self.input@.len() == self.input.len());
            crate::prim::lemma_varint_dec_k_bounds(s0, 10);
        }
        let (plen, pa) = match read_varint(&self.input, self.rpos) {
            Ok(x) => x,
            Err(e) => {
                return Err(e);
            },
        };
        proof {
            assert(s0.skip(pa - self.rpos) =~= self.input@.skip(pa as int));
            crate::prim::lemma_varint_dec_k_bounds(self.input@.skip(pa as int), 10);
        }
        let (packid, pb) = match read_varint(&self.input, pa) {
            Ok(x) => x,
            Err(e) => {
                return Err(e);
            },
        };
        let ghost body = self.input@.skip(pb as int);
        proof {
            assert(s0.skip(pb - self.rpos) =~= body);
        }
        match (packid, self.state) {
            // Handshake
            (0x00, State::Handshaking) => {
                match read_handshake(&self.input, pb) {
                    Ok((p, pz)) => {
                        self.state = State::Login;
                        self.rpos = pz;
                        Ok(p)
                    },
                    Err(e) => Err(e),
                }
            },
            // Login start
            (0x00, State::Login) => {
                match read_login_start(&self.input, pb) {
                    Ok((p, pz)) => {
                        self.rpos = pz;
                        Ok(p)
                    },
                    Err(e) => Err(e),
                }
            },
            // Login acknowledged
            (0x03, State::Login) => {
                self.state = State::Config;
                self.rpos = pb;
                Ok(InPacket::LoginAck)
            },
            // Plugin message (configuration)
            (0x01, State::Config) => {
                let tail: i128 = (plen as i128) - ((pb - pa) as i128);
                match read_plugin_message(&self.input, pb, tail) {
                    Ok((p, pz)) => {
                        self.rpos = pz;
                        Ok(p)
                    },
                    Err(e) => Err(e),
                }
            },
            // Client information (configuration)
            (0x00, State::Config) => {
                match read_client_info(&self.input, pb) {
                    Ok((p, pz)) => {
                        self.rpos = pz;
                        Ok(p)
                    },
                    Err(e) => Err(e),
                }
            },
            // Finish configuration
            (0x02, State::Config) => {
                self.state = State::Play;
                self.rpos = pb;
                Ok(InPacket::FinishConfig)
            },
            _ => Err(ProtoError::MalformedFrame),
        }
    }
}

/// Read a handshake payload.
fn read_handshake(buf: &Vec<u8>, pos: usize) -> (r: Result<(InPacket, usize), ProtoError>)
    requires
        pos <= buf@.len(),
    ensures
        ({
            match handshake_dec(buf@.skip(pos as int)) {
                Ok((pv, m)) => r matches Ok(p) && p.0@ == pv && p.1 == pos + m && p.1
                    <= buf@.len(),
                Err(e) => r == Err::<(InPacket, usize), ProtoError>(e),
            }
        }),
{
    let ghost body = buf@.skip(pos as int);
    proof {
        assert(buf@.len() == buf.len());
        crate::prim::lemma_varint_dec_k_bounds(body, 10);
    }
    let (protocol_version, p1) = match read_varint(buf, pos) {
        Ok(x) => x,
        Err(e) => {
            return Err(e);
        },
    };
    proof {
        assert(body.skip(p1 - pos) =~= buf@.skip(p1 as int));
        crate::prim::lemma_varint_string_dec_bounds(buf@.skip(p1 as int));
    }
    let (server_addr, p2) = match read_varint_string(buf, p1) {
        Ok(x) => x,
        Err(e) => {
            return Err(e);
        },
    };
    proof {
        assert(body.skip(p2 - pos) =~= buf@.skip(p2 as int));
    }
    let (server_port, p3) = match read_ushort(buf, p2) {
        Ok(x) => x,
        Err(e) => {
            return Err(e);
        },
    };
    proof {
        assert(body.skip(p3 - pos) =~= buf@.skip(p3 as int));
        crate::prim::lemma_varint_dec_k_bounds(buf@.skip(p3 as int), 10);
    }
    let (nsv, p4) = match read_varint(buf, p3) {
        Ok(x) => x,
        Err(e) => {
            return Err(e);
        },
    };
    let next_state = if nsv == 1 {
        HandshakeNextState::Status
    } else if nsv == 2 {
        HandshakeNextState::Login
    } else {
        return Err(ProtoError::FieldOutOfRange);
    };
    Ok(
        (
            InPacket::Handshake { protocol_version, server_addr, server_port, next_state },
            p4,
        ),
    )
}

/// Read a login start payload.
fn read_login_start(buf: &Vec<u8>, pos: usize) -> (r: Result<(InPacket, usize), ProtoError>)
    requires
        pos <= buf@.len(),
    ensures
        ({
            match login_start_dec(buf@.skip(pos as int)) {
                Ok((pv, m)) => r matches Ok(p) && p.0@ == pv && p.1 == pos + m && p.1
                    <= buf@.len(),
                Err(e) => r == Err::<(InPacket, usize), ProtoError>(e),
            }
        }),
{
    let ghost body = buf@.skip(pos as int);
    proof {
        assert(buf@.len() == buf.len());
        crate::prim::lemma_varint_string_dec_bounds(body);
    }
    let (name, p1) = match read_varint_string(buf, pos) {
        Ok(x) => x,
        Err(e) => {
            return Err(e);
        },
    };
    proof {
        assert(body.skip(p1 - pos) =~= buf@.skip(p1 as int));
    }
    let (player_uuid, p2) = match read_uuid(buf, p1) {
        Ok(x) => x,
        Err(e) => {
            return Err(e);
        },
    };
    Ok((InPacket::LoginStart { name, player_uuid }, p2))
}

/// Read a configuration-phase plugin message payload; `tail` is the
/// frame length minus the id bytes, and the data fills what the channel
/// name leaves of it.
fn read_plugin_message(buf: &Vec<u8>, pos: usize, tail: i128) -> (r: Result<
    (InPacket, usize),
    ProtoError,
>)
    requires
        pos <= buf@.len(),
        -0x8000_0000_0000_0010 <= tail <= 0x7fff_ffff_ffff_ffff,
    ensures
        ({
            match plugin_message_dec(buf@.skip(pos as int), tail as int) {
                Ok((pv, m)) => r matches Ok(p) && p.0@ == pv && p.1 == pos + m && p.1
                    <= buf@.len(),
                Err(e) => r == Err::<(InPacket, usize), ProtoError>(e),
            }
        }),
{
    let ghost body = buf@.skip(pos as int);
    proof {
        assert(buf@.len() == buf.len());
        crate::prim::lemma_varint_string_dec_bounds(body);
    }
    let (channel, pc) = match read_varint_string(buf, pos) {
        Ok(x) => x,
        Err(e) => {
            return Err(e);
        },
    };
    let dlen: i128 = tail - ((pc - pos) as i128);
    if dlen < 0 {
        return Err(ProtoError::MalformedFrame);
    }
    if dlen > ((buf.len() - pc) as i128) {
        return Err(ProtoError::TransportError);
    }
    let n = dlen as usize;
    let (data, pd) = match read_bytes(buf, pc, n) {
        Ok(x) => x,
        Err(e) => {
            // Unreachable: the data length was checked against the input.
            proof {
                assert(false);
            }
            return Err(e);
        },
    };
    proof {
        assert(body.subrange(pc - pos, pc - pos + dlen as int) =~= buf@.subrange(
            pc as int,
            pc + n,
        ));
    }
    Ok((InPacket::PluginMessageConfig { channel, data }, pd))
}

/// Read a client information payload.
fn read_client_info(buf: &Vec<u8>, pos: usize) -> (r: Result<(InPacket, usize), ProtoError>)
    requires
        pos <= buf@.len(),
    ensures
        ({
            match client_info_dec(buf@.skip(pos as int)) {
                Ok((pv, m)) => r matches Ok(p) && p.0@ == pv && p.1 == pos + m && p.1
                    <= buf@.len(),
                Err(e) => r == Err::<(InPacket, usize), ProtoError>(e),
            }
        }),
{
    let ghost body = buf@.skip(pos as int);
    proof {
        assert(buf@.len() == buf.len());
        crate::prim::lemma_varint_string_dec_bounds(body);
    }
    let (locale, p1) = match read_varint_string(buf, pos) {
        Ok(x) => x,
        Err(e) => {
            return Err(e);
        },
    };
    proof {
        assert(body.skip(p1 - pos) =~= buf@.skip(p1 as int));
    }
    let (view_distance, p2) = match read_byte(buf, p1) {
        Ok(x) => x,
        Err(e) => {
            return Err(e);
        },
    };
    proof {
        assert(body.skip(p2 - pos) =~= buf@.skip(p2 as int));
        crate::prim::lemma_varint_dec_k_bounds(buf@.skip(p2 as int), 10);
    }
    let (cmv, p3) = match read_varint(buf, p2) {
        Ok(x) => x,
        Err(e) => {
            return Err(e);
        },
    };
    let chat_mode = if cmv == 0 {
        ChatMode::Enabled
    } else if cmv == 1 {
        ChatMode::CommandsOnly
    } else if cmv == 2 {
        ChatMode::Hidden
    } else {
        return Err(ProtoError::FieldOutOfRange);
    };
    proof {
        assert(body.skip(p3 - pos) =~= buf@.skip(p3 as int));
    }
    let (chat_colors, p4) = match read_bool(buf, p3) {
        Ok(x) => x,
        Err(e) => {
            return Err(e);
        },
    };
    proof {
        assert(body.skip(p4 - pos) =~= buf@.skip(p4 as int));
    }
    let (displayed_skin_parts, p5) = match read_ubyte(buf, p4) {
        Ok(x) => x,
        Err(e) => {
            return Err(e);
        },
    };
    proof {
        assert(body.skip(p5 - pos) =~= buf@.skip(p5 as int));
        crate::prim::lemma_varint_dec_k_bounds(buf@.skip(p5 as int), 10);
    }
    let (mhv, p6) = match read_varint(buf, p5) {
        Ok(x) => x,
        Err(e) => {
            return Err(e);
        },
    };
    let main_hand = if mhv == 0 {
        MainHand::Left
    } else if mhv == 1 {
        MainHand::Right
    } else {
        return Err(ProtoError::FieldOutOfRange);
    };
    proof {
        assert(body.skip(p6 - pos) =~= buf@.skip(p6 as int));
    }
    let (enable_text_filtering, p7) = match read_bool(buf, p6) {
        Ok(x) => x,
        Err(e) => {
            return Err(e);
        },
    };
    proof {
        assert(body.skip(p7 - pos) =~= buf@.skip(p7 as int));
    }
    let (allow_server_listings, p8) = match read_bool(buf, p7) {
        Ok(x) => x,
        Err(e) => {
            return Err(e);
        },
    };
    Ok(
        (
            InPacket::ClientInfoConfig {
                locale,
                view_distance,
                chat_mode,
                chat_colors,
                displayed_skin_parts,
                main_hand,
                enable_text_filtering,
                allow_server_listings,
            },
            p8,
        ),
    )
}

// ---------------------------------------------------------------------
// Outbound packets
// ---------------------------------------------------------------------

/// One outbound packet.
#[derive(Debug)]
pub enum OutPacket {
    /// Disconnect during login, with a plain-text reason.
    DisconnectLogin { reason: Vec<u8> },
    LoginSuccess { uuid: u128, username: Vec<u8>, props: Vec<LoginSuccessProp> },
    FinishConfig,
    LoginPlay {
        entity_id: i32,
        is_hardcore: bool,
        dimension_names: Vec<Vec<u8>>,
        max_players: i64,
        view_distance: i64,
        simulation_distance: i64,
        reduced_debug_info: bool,
        enable_respawn_screen: bool,
        do_limited_crafting: bool,
        dimension_type: Vec<u8>,
        dimension_name: Vec<u8>,
        hashed_seed: i64,
        game_mode: GameMode,
        prev_game_mode: Option<GameMode>,
        is_debug: bool,
        is_superflat: bool,
        death_info: Option<DeathInfo>,
        portal_cooldown: i64,
    },
    ChunkDataAndUpdateLight {
        chunk_x: i32,
        chunk_z: i32,
        heightmaps: CompoundNbt,
        data: Vec<i8>,
        block_entities: Vec<BlockEntity>,
        sky_light_mask: BitSet,
        block_light_mask: BitSet,
        empty_sky_light_mask: BitSet,
        empty_block_light_mask: BitSet,
        sky_light_arrays: Vec<Vec<i8>>,
        block_light_arrays: Vec<Vec<i8>>,
    },
}

/// The model of an outbound packet.
pub enum OutPacketView {
    DisconnectLogin { reason: Seq<u8> },
    LoginSuccess { uuid: u128, username: Seq<u8>, props: Seq<LoginSuccessPropView> },
    FinishConfig,
    LoginPlay {
        entity_id: i32,
        is_hardcore: bool,
        dimension_names: Seq<Seq<u8>>,
        max_players: i64,
        view_distance: i64,
        simulation_distance: i64,
        reduced_debug_info: bool,
        enable_respawn_screen: bool,
        do_limited_crafting: bool,
        dimension_type: Seq<u8>,
        dimension_name: Seq<u8>,
        hashed_seed: i64,
        game_mode: GameMode,
        prev_game_mode: Option<GameMode>,
        is_debug: bool,
        is_superflat: bool,
        death_info: Option<DeathInfoView>,
        portal_cooldown: i64,
    },
    ChunkDataAndUpdateLight {
        chunk_x: i32,
        chunk_z: i32,
        heightmaps: crate::nbt::CompoundView,
        data: Seq<i8>,
        block_entities: Seq<BlockEntityView>,
        sky_light_mask: Seq<i64>,
        block_light_mask: Seq<i64>,
        empty_sky_light_mask: Seq<i64>,
        empty_block_light_mask: Seq<i64>,
        sky_light_arrays: Seq<Seq<i8>>,
        block_light_arrays: Seq<Seq<i8>>,
    },
}

/// The models of a sequence of login success properties.
pub open spec fn login_props_view(s: Seq<LoginSuccessProp>) -> Seq<LoginSuccessPropView> {
    s.map_values(|p: LoginSuccessProp| p@)
}

/// The models of a sequence of byte strings.
pub open spec fn byte_strings_view(s: Seq<Vec<u8>>) -> Seq<Seq<u8>> {
    s.map_values(|x: Vec<u8>| x@)
}

/// The models of a sequence of block entities.
pub open spec fn block_entities_view(s: Seq<BlockEntity>) -> Seq<BlockEntityView> {
    s.map_values(|b: BlockEntity| b@)
}

/// The models of a sequence of light arrays.
pub open spec fn light_arrays_view(s: Seq<Vec<i8>>) -> Seq<Seq<i8>> {
    s.map_values(|x: Vec<i8>| x@)
}

impl View for OutPacket {
    type V = OutPacketView;

    open spec fn view(&self) -> OutPacketView {
        match self {
            OutPacket::DisconnectLogin { reason } => OutPacketView::DisconnectLogin {
                reason: reason@,
            },
            OutPacket::LoginSuccess { uuid, username, props } => OutPacketView::LoginSuccess {
                uuid: *uuid,
                username: username@,
                props: login_props_view(props@),
            },
            OutPacket::FinishConfig => OutPacketView::FinishConfig,
            OutPacket::LoginPlay {
                entity_id,
                is_hardcore,
                dimension_names,
                max_players,
                view_distance,
                simulation_distance,
                reduced_debug_info,
                enable_respawn_screen,
                do_limited_crafting,
                dimension_type,
                dimension_name,
                hashed_seed,
                game_mode,
                prev_game_mode,
                is_debug,
                is_superflat,
                death_info,
                portal_cooldown,
            } => OutPacketView::LoginPlay {
                entity_id: *entity_id,
                is_hardcore: *is_hardcore,
                dimension_names: byte_strings_view(dimension_names@),
                max_players: *max_players,
                view_distance: *view_distance,
                simulation_distance: *simulation_distance,
                reduced_debug_info: *reduced_debug_info,
                enable_respawn_screen: *enable_respawn_screen,
                do_limited_crafting: *do_limited_crafting,
                dimension_type: dimension_type@,
                dimension_name: dimension_name@,
                hashed_seed: *hashed_seed,
                game_mode: *game_mode,
                prev_game_mode: *prev_game_mode,
                is_debug: *is_debug,
                is_superflat: *is_superflat,
                death_info: match death_info {
                    Option::Some(d) => Option::Some(d@),
                    Option::None => Option::None,
                },
                portal_cooldown: *portal_cooldown,
            },
            OutPacket::ChunkDataAndUpdateLight {
                chunk_x,
                chunk_z,
                heightmaps,
                data,
                block_entities,
                sky_light_mask,
                block_light_mask,
                empty_sky_light_mask,
                empty_block_light_mask,
                sky_light_arrays,
                block_light_arrays,
            } => OutPacketView::ChunkDataAndUpdateLight {
                chunk_x: *chunk_x,
                chunk_z: *chunk_z,
                heightmaps: heightmaps@,
                data: data@,
                block_entities: block_entities_view(block_entities@),
                sky_light_mask: sky_light_mask@,
                block_light_mask: block_light_mask@,
                empty_sky_light_mask: empty_sky_light_mask@,
                empty_block_light_mask: empty_block_light_mask@,
                sky_light_arrays: light_arrays_view(sky_light_arrays@),
                block_light_arrays: light_arrays_view(block_light_arrays@),
            },
        }
    }
}

// ---------------------------------------------------------------------
// Outbound wire forms
// ---------------------------------------------------------------------

/// The JSON-text literal a disconnect reason travels as.
pub open spec fn disconnect_json(r: Seq<u8>) -> Seq<u8> {
    seq![0x7bu8, 0x74u8, 0x65u8, 0x78u8, 0x74u8, 0x3au8, 0x22u8] + r + seq![0x22u8, 0x7du8]
}

/// One login success property on the wire.
pub open spec fn login_prop_enc(p: LoginSuccessPropView) -> Seq<u8> {
    varint_string_enc(p.name) + varint_string_enc(p.value) + (match p.signature {
        Option::Some(s) => bool_enc(true) + varint_string_enc(s),
        Option::None => bool_enc(false),
    })
}

/// Login success properties, in order.
pub open spec fn login_props_enc(s: Seq<LoginSuccessPropView>) -> Seq<u8>
    decreases s,
{
    if s.len() == 0 {
        Seq::empty()
    } else {
        login_prop_enc(s[0]) + login_props_enc(s.subrange(1, s.len() as int))
    }
}

/// VarInt-length-prefixed strings, in order.
pub open spec fn varint_strings_enc(s: Seq<Seq<u8>>) -> Seq<u8>
    decreases s,
{
    if s.len() == 0 {
        Seq::empty()
    } else {
        varint_string_enc(s[0]) + varint_strings_enc(s.subrange(1, s.len() as int))
    }
}

/// Block entities, in order.
pub open spec fn block_entities_enc(s: Seq<BlockEntityView>) -> Seq<u8>
    decreases s,
{
    if s.len() == 0 {
        Seq::empty()
    } else {
        block_entity_enc(s[0]) + block_entities_enc(s.subrange(1, s.len() as int))
    }
}

/// Light arrays, in order: each one is its byte count (always 2048) as
/// a VarInt, then the bytes.
pub open spec fn light_arrays_enc(s: Seq<Seq<i8>>) -> Seq<u8>
    decreases s,
{
    if s.len() == 0 {
        Seq::empty()
    } else {
        varint_enc(2048) + i8s_bytes(s[0]) + light_arrays_enc(s.subrange(1, s.len() as int))
    }
}

/// The byte the previous game mode travels as: the mode's byte, or
/// `0xff` (-1) for none.
pub open spec fn prev_game_mode_byte(o: Option<GameMode>) -> u8 {
    match o {
        Option::Some(g) => game_mode_byte(g),
        Option::None => 0xff,
    }
}

/// An optional death info record on the wire.
pub open spec fn death_info_enc(o: Option<DeathInfoView>) -> Seq<u8> {
    match o {
        Option::None => bool_enc(false),
        Option::Some(d) => bool_enc(true) + varint_string_enc(d.dimension) + u64_be(
            position_packed(d.location),
        ),
    }
}

/// The body of an outbound packet: its id as a VarInt, then its payload.
pub open spec fn out_packet_body(p: OutPacketView) -> Seq<u8> {
    match p {
        OutPacketView::DisconnectLogin { reason } => varint_enc(0) + varint_string_enc(
            disconnect_json(reason),
        ),
        OutPacketView::LoginSuccess { uuid, username, props } => varint_enc(2) + u128_be(uuid)
            + varint_string_enc(username) + varint_enc(props.len() as u64) + login_props_enc(
            props,
        ),
        OutPacketView::FinishConfig => varint_enc(2),
        OutPacketView::LoginPlay {
            entity_id,
            is_hardcore,
            dimension_names,
            max_players,
            view_distance,
            simulation_distance,
            reduced_debug_info,
            enable_respawn_screen,
            do_limited_crafting,
            dimension_type,
            dimension_name,
            hashed_seed,
            game_mode,
            prev_game_mode,
            is_debug,
            is_superflat,
            death_info,
            portal_cooldown,
        } => varint_enc(0x29) + u32_be(u32_of_i32(entity_id)) + bool_enc(is_hardcore)
            + varint_enc(dimension_names.len() as u64) + varint_strings_enc(dimension_names)
            + varint_enc(u64_of_i64(max_players)) + varint_enc(u64_of_i64(view_distance))
            + varint_enc(u64_of_i64(simulation_distance)) + bool_enc(reduced_debug_info)
            + bool_enc(enable_respawn_screen) + bool_enc(do_limited_crafting)
            + varint_string_enc(dimension_type) + varint_string_enc(dimension_name) + u64_be(
            u64_of_i64(hashed_seed),
        ) + seq![game_mode_byte(game_mode)] + seq![prev_game_mode_byte(prev_game_mode)]
            + bool_enc(is_debug) + bool_enc(is_superflat) + death_info_enc(death_info)
            + varint_enc(u64_of_i64(portal_cooldown)),
        OutPacketView::ChunkDataAndUpdateLight {
            chunk_x,
            chunk_z,
            heightmaps,
            data,
            block_entities,
            sky_light_mask,
            block_light_mask,
            empty_sky_light_mask,
            empty_block_light_mask,
            sky_light_arrays,
            block_light_arrays,
        } => varint_enc(0x25) + u32_be(u32_of_i32(chunk_x)) + u32_be(u32_of_i32(chunk_z))
            + compound_enc(heightmaps) + varint_enc(data.len() as u64) + i8s_bytes(data)
            + varint_enc(block_entities.len() as u64) + block_entities_enc(block_entities)
            + bitset_enc(sky_light_mask) + bitset_enc(block_light_mask) + bitset_enc(
            empty_sky_light_mask,
        ) + bitset_enc(empty_block_light_mask) + varint_enc(sky_light_arrays.len() as u64)
            + light_arrays_enc(sky_light_arrays) + varint_enc(block_light_arrays.len() as u64)
            + light_arrays_enc(block_light_arrays),
    }
}

/// The machine limits an outbound packet must respect to be encodable:
/// every length fits its prefix and the whole body fits a signed count.
pub open spec fn out_packet_wf(p: OutPacketView) -> bool {
    &&& out_packet_body(p).len() <= 0x7fff_ffff_ffff_ffff
    &&& match p {
        OutPacketView::DisconnectLogin { reason } => reason.len() <= 0x7fff_ffff,
        OutPacketView::LoginSuccess { uuid, username, props } => {
            &&& username.len() <= 0x7fff_ffff
            &&& props.len() <= 0x7fff_ffff
            &&& forall|i: int|
                0 <= i < props.len() ==> (#[trigger] props[i]).name.len() <= 0x7fff_ffff
                    && props[i].value.len() <= 0x7fff_ffff && (props[i].signature matches Option::Some(
                    s,
                ) ==> s.len() <= 0x7fff_ffff)
        },
        OutPacketView::FinishConfig => true,
        OutPacketView::LoginPlay {
            dimension_names,
            dimension_type,
            dimension_name,
            death_info,
            ..
        } => {
            &&& dimension_names.len() <= 0x7fff_ffff
            &&& forall|i: int|
                0 <= i < dimension_names.len() ==> (#[trigger] dimension_names[i]).len()
                    <= 0x7fff_ffff
            &&& dimension_type.len() <= 0x7fff_ffff
            &&& dimension_name.len() <= 0x7fff_ffff
            &&& (death_info matches Option::Some(d) ==> d.dimension.len() <= 0x7fff_ffff
                && position_in_range(d.location))
        },
        OutPacketView::ChunkDataAndUpdateLight {
            heightmaps,
            data,
            block_entities,
            sky_light_mask,
            block_light_mask,
            empty_sky_light_mask,
            empty_block_light_mask,
            sky_light_arrays,
            block_light_arrays,
            ..
        } => {
            &&& compound_wf(heightmaps)
            &&& data.len() <= 0x7fff_ffff
            &&& block_entities.len() <= 0x7fff_ffff
            &&& forall|i: int|
                0 <= i < block_entities.len() ==> compound_wf(
                    (#[trigger] block_entities[i]).data,
                )
            &&& sky_light_mask.len() <= 0x7fff_ffff
            &&& block_light_mask.len() <= 0x7fff_ffff
            &&& empty_sky_light_mask.len() <= 0x7fff_ffff
            &&& empty_block_light_mask.len() <= 0x7fff_ffff
            &&& sky_light_arrays.len() <= 0x7fff_ffff
            &&& block_light_arrays.len() <= 0x7fff_ffff
            &&& forall|i: int|
                0 <= i < sky_light_arrays.len() ==> (#[trigger] sky_light_arrays[i]).len() == 2048
            &&& forall|i: int|
                0 <= i < block_light_arrays.len() ==> (#[trigger] block_light_arrays[i]).len()
                    == 2048
        },
    }
}

/// One whole frame: the VarInt length of the body, then the body.
pub open spec fn frame_enc(p: OutPacketView) -> Seq<u8> {
    varint_enc(out_packet_body(p).len() as u64) + out_packet_body(p)
}

/// The state a packet may be sent in.
pub open spec fn state_allows(st: State, p: OutPacketView) -> bool {
    match p {
        OutPacketView::DisconnectLogin { .. } => st is Login,
        OutPacketView::LoginSuccess { .. } => st is Login,
        OutPacketView::FinishConfig => st is Config,
        OutPacketView::LoginPlay { .. } => st is Play,
        OutPacketView::ChunkDataAndUpdateLight { .. } => st is Play,
    }
}

/// Frame length self-consistency: the VarInt prefix of a frame decodes
/// to exactly the number of bytes that follow it and make up the packet.
pub proof fn lemma_frame_length_self_consistent(p: OutPacketView, rest: Seq<u8>)
    requires
        out_packet_body(p).len() <= 0x7fff_ffff_ffff_ffff,
    ensures
        ({
            let body = out_packet_body(p);
            let f = frame_enc(p);
            &&& varint_dec(f + rest) matches Ok((v, n)) && i64_of_u64(v) == body.len() && f.len()
                == n + body.len()
        }),
{
    let body = out_packet_body(p);
    lemma_varint_round_trip(body.len() as i64, body + rest);
    assert(u64_of_i64(body.len() as i64) == body.len() as u64);
    assert(varint_enc(body.len() as u64) + (body + rest) =~= frame_enc(p) + rest);
}

// ---------------------------------------------------------------------
// Exec outbound writers
// ---------------------------------------------------------------------

/// Appending one property appends its encoding.
proof fn lemma_login_props_enc_push(s: Seq<LoginSuccessPropView>, p: LoginSuccessPropView)
    ensures
        login_props_enc(s.push(p)) == login_props_enc(s) + login_prop_enc(p),
    decreases s,
{
    let t = s.push(p);
    if s.len() == 0 {
        assert(t[0] == p);
        assert(t.subrange(1, t.len() as int) =~= Seq::<LoginSuccessPropView>::empty());
        assert(login_props_enc(t.subrange(1, t.len() as int)) == Seq::<u8>::empty());
        assert(login_props_enc(t) =~= login_props_enc(s) + login_prop_enc(p));
    } else {
        assert(t[0] == s[0]);
        assert(t.subrange(1, t.len() as int) =~= s.subrange(1, s.len() as int).push(p));
        lemma_login_props_enc_push(s.subrange(1, s.len() as int), p);
        assert(login_props_enc(t) =~= login_props_enc(s) + login_prop_enc(p));
    }
}

/// Appending one string appends its encoding.
proof fn lemma_varint_strings_enc_push(s: Seq<Seq<u8>>, x: Seq<u8>)
    ensures
        varint_strings_enc(s.push(x)) == varint_strings_enc(s) + varint_string_enc(x),
    decreases s,
{
    let t = s.push(x);
    if s.len() == 0 {
        assert(t[0] == x);
        assert(t.subrange(1, t.len() as int) =~= Seq::<Seq<u8>>::empty());
        assert(varint_strings_enc(t.subrange(1, t.len() as int)) == Seq::<u8>::empty());
        assert(varint_strings_enc(t) =~= varint_strings_enc(s) + varint_string_enc(x));
    } else {
        assert(t[0] == s[0]);
        assert(t.subrange(1, t.len() as int) =~= s.subrange(1, s.len() as int).push(x));
        lemma_varint_strings_enc_push(s.subrange(1, s.len() as int), x);
        assert(varint_strings_enc(t) =~= varint_strings_enc(s) + varint_string_enc(x));
    }
}

/// Appending one block entity appends its encoding.
proof fn lemma_block_entities_enc_push(s: Seq<BlockEntityView>, b: BlockEntityView)
    ensures
        block_entities_enc(s.push(b)) == block_entities_enc(s) + block_entity_enc(b),
    decreases s,
{
    let t = s.push(b);
    if s.len() == 0 {
        assert(t[0] == b);
        assert(t.subrange(1, t.len() as int) =~= Seq::<BlockEntityView>::empty());
        assert(block_entities_enc(t.subrange(1, t.len() as int)) == Seq::<u8>::empty());
        assert(block_entities_enc(t) =~= block_entities_enc(s) + block_entity_enc(b));
    } else {
        assert(t[0] == s[0]);
        assert(t.subrange(1, t.len() as int) =~= s.subrange(1, s.len() as int).push(b));
        lemma_block_entities_enc_push(s.subrange(1, s.len() as int), b);
        assert(block_entities_enc(t) =~= block_entities_enc(s) + block_entity_enc(b));
    }
}

/// Appending one light array appends its encoding.
proof fn lemma_light_arrays_enc_push(s: Seq<Seq<i8>>, a: Seq<i8>)
    ensures
        light_arrays_enc(s.push(a)) == light_arrays_enc(s) + varint_enc(2048) + i8s_bytes(a),
    decreases s,
{
    let t = s.push(a);
    if s.len() == 0 {
        assert(t[0] == a);
        assert(t.subrange(1, t.len() as int) =~= Seq::<Seq<i8>>::empty());
        assert(light_arrays_enc(t.subrange(1, t.len() as int)) == Seq::<u8>::empty());
        assert(light_arrays_enc(t) =~= light_arrays_enc(s) + varint_enc(2048) + i8s_bytes(a));
    } else {
        assert(t[0] == s[0]);
        assert(t.subrange(1, t.len() as int) =~= s.subrange(1, s.len() as int).push(a));
        lemma_light_arrays_enc_push(s.subrange(1, s.len() as int), a);
        assert(light_arrays_enc(t) =~= light_arrays_enc(s) + varint_enc(2048) + i8s_bytes(a));
    }
}

/// Append signed bytes (as their two's-complement bytes).
fn write_i8s(out: &mut Vec<u8>, data: &Vec<i8>)
    ensures
        final(out)@ == old(out)@ + i8s_bytes(data@),
{
    let ghost mid = out@;
    let mut i: usize = 0;
    while i < data.len()
        invariant
            i <= data@.len(),
            out@ == mid + i8s_bytes(data@.take(i as int)),
        decreases data@.len() - i,
    {
        write_ibyte(out, data[i]);
        i = i + 1;
        proof {
            assert(i8s_bytes(data@.take(i as int)) =~= i8s_bytes(data@.take(i - 1)).push(
                u8_of_i8(data@[i - 1]),
            ));
            assert(out@ =~= mid + i8s_bytes(data@.take(i as int)));
        }
    }
    proof {
        assert(data@.take(data@.len() as int) =~= data@);
        assert(out@ =~= old(out)@ + i8s_bytes(data@));
    }
}

/// Append a sequence of light arrays, each prefixed by its byte count.
fn write_light_arrays(out: &mut Vec<u8>, arrays: &Vec<Vec<i8>>)
    requires
        arrays@.len() <= 0x7fff_ffff,
        forall|i: int|
            0 <= i < arrays@.len() ==> (#[trigger] light_arrays_view(arrays@)[i]).len() == 2048,
    ensures
        final(out)@ == old(out)@ + varint_enc(arrays@.len() as u64) + light_arrays_enc(
            light_arrays_view(arrays@),
        ),
{
    let ghost av = light_arrays_view(arrays@);
    write_varint(out, arrays.len() as i64);
    let ghost mid = out@;
    let mut i: usize = 0;
    while i < arrays.len()
        invariant
            i <= arrays@.len(),
            av == light_arrays_view(arrays@),
            av.len() == arrays@.len(),
            forall|j: int| 0 <= j < arrays@.len() ==> #[trigger] av[j] == arrays@[j]@,
            out@ == mid + light_arrays_enc(av.take(i as int)),
        decreases arrays@.len() - i,
    {
        write_varint(out, 2048);
        write_i8s(out, &arrays[i]);
        i = i + 1;
        proof {
            lemma_light_arrays_enc_push(av.take(i - 1), av[i - 1]);
            assert(av.take(i as int) =~= av.take(i - 1).push(av[i - 1]));
            assert(out@ =~= mid + light_arrays_enc(av.take(i as int)));
        }
    }
    proof {
        assert(av.take(av.len() as int) =~= av);
        assert(out@ =~= old(out)@ + varint_enc(arrays@.len() as u64) + light_arrays_enc(av));
    }
}

/// Append the body of a LoginPlay packet.
#[verifier::rlimit(100)]
fn write_login_play_body(out: &mut Vec<u8>, packet: &OutPacket)
    requires
        packet is LoginPlay,
        out_packet_wf(packet@),
    ensures
        final(out)@ == old(out)@ + out_packet_body(packet@),
{
    match packet {
        OutPacket::LoginPlay {
            entity_id,
            is_hardcore,
            dimension_names,
            max_players,
            view_distance,
            simulation_distance,
            reduced_debug_info,
            enable_respawn_screen,
            do_limited_crafting,
            dimension_type,
            dimension_name,
            hashed_seed,
            game_mode,
            prev_game_mode,
            is_debug,
            is_superflat,
            death_info,
            portal_cooldown,
        } => {
            let ghost b1 = varint_enc(0x29);
            write_varint(out, 0x29);
            proof {
                assert(out@ =~= old(out)@ + b1);
            }
            let ghost b2 = b1 + u32_be(u32_of_i32(*entity_id));
            write_int(out, *entity_id);
            proof {
                lemma_append_assoc(old(out)@, b1, u32_be(u32_of_i32(*entity_id)));
            }
            let ghost b3 = b2 + bool_enc(*is_hardcore);
            write_bool(out, *is_hardcore);
            proof {
                lemma_append_assoc(old(out)@, b2, bool_enc(*is_hardcore));
            }
            let ghost b4 = b3 + varint_enc(dimension_names@.len() as u64);
            write_varint(out, dimension_names.len() as i64);
            proof {
                lemma_append_assoc(old(out)@, b3, varint_enc(dimension_names@.len() as u64));
            }
            let ghost dv = byte_strings_view(dimension_names@);
            let ghost mid = out@;
            let mut i: usize = 0;
            while i < dimension_names.len()
                invariant
                    i <= dimension_names@.len(),
                    dv == byte_strings_view(dimension_names@),
                    dv.len() == dimension_names@.len(),
                    forall|j: int|
                        0 <= j < dimension_names@.len() ==> #[trigger] dv[j]
                            == dimension_names@[j]@,
                    forall|j: int| 0 <= j < dv.len() ==> (#[trigger] dv[j]).len() <= 0x7fff_ffff,
                    out@ == mid + varint_strings_enc(dv.take(i as int)),
                decreases dimension_names@.len() - i,
            {
                proof {
                    assert(dv[i as int] == dimension_names@[i as int]@);
                }
                write_string(out, &dimension_names[i]);
                i = i + 1;
                proof {
                    lemma_varint_strings_enc_push(dv.take(i - 1), dv[i - 1]);
                    assert(dv.take(i as int) =~= dv.take(i - 1).push(dv[i - 1]));
                    assert(out@ =~= mid + varint_strings_enc(dv.take(i as int)));
                }
            }
            let ghost b5 = b4 + varint_strings_enc(dv);
            proof {
                assert(dv.take(dv.len() as int) =~= dv);
                lemma_append_assoc(old(out)@, b4, varint_strings_enc(dv));
            }
            let ghost b6 = b5 + varint_enc(u64_of_i64(*max_players));
            write_varint(out, *max_players);
            proof {
                lemma_append_assoc(old(out)@, b5, varint_enc(u64_of_i64(*max_players)));
            }
            let ghost b7 = b6 + varint_enc(u64_of_i64(*view_distance));
            write_varint(out, *view_distance);
            proof {
                lemma_append_assoc(old(out)@, b6, varint_enc(u64_of_i64(*view_distance)));
            }
            let ghost b8 = b7 + varint_enc(u64_of_i64(*simulation_distance));
            write_varint(out, *simulation_distance);
            proof {
                lemma_append_assoc(old(out)@, b7, varint_enc(u64_of_i64(*simulation_distance)));
            }
            let ghost b9 = b8 + bool_enc(*reduced_debug_info);
            write_bool(out, *reduced_debug_info);
            proof {
                lemma_append_assoc(old(out)@, b8, bool_enc(*reduced_debug_info));
            }
            let ghost b10 = b9 + bool_enc(*enable_respawn_screen);
            write_bool(out, *enable_respawn_screen);
            proof {
                lemma_append_assoc(old(out)@, b9, bool_enc(*enable_respawn_screen));
            }
            let ghost b11 = b10 + bool_enc(*do_limited_crafting);
            write_bool(out, *do_limited_crafting);
            proof {
                lemma_append_assoc(old(out)@, b10, bool_enc(*do_limited_crafting));
            }
            let ghost b12 = b11 + varint_string_enc(dimension_type@);
            write_string(out, dimension_type);
            proof {
                lemma_append_assoc(old(out)@, b11, varint_string_enc(dimension_type@));
            }
            let ghost b13 = b12 + varint_string_enc(dimension_name@);
            write_string(out, dimension_name);
            proof {
                lemma_append_assoc(old(out)@, b12, varint_string_enc(dimension_name@));
            }
            let ghost b14 = b13 + u64_be(u64_of_i64(*hashed_seed));
            write_long(out, *hashed_seed);
            proof {
                lemma_append_assoc(old(out)@, b13, u64_be(u64_of_i64(*hashed_seed)));
            }
            let ghost b15 = b14 + seq![game_mode_byte(*game_mode)];
            write_game_mode(out, *game_mode);
            proof {
                lemma_append_assoc(old(out)@, b14, seq![game_mode_byte(*game_mode)]);
            }
            let ghost b16 = b15 + seq![prev_game_mode_byte(*prev_game_mode)];
            match prev_game_mode {
                Option::None => write_ibyte(out, -1),
                Option::Some(gm) => write_game_mode(out, *gm),
            }
            proof {
                lemma_append_assoc(old(out)@, b15, seq![prev_game_mode_byte(*prev_game_mode)]);
            }
            let ghost b17 = b16 + bool_enc(*is_debug);
            write_bool(out, *is_debug);
            proof {
                lemma_append_assoc(old(out)@, b16, bool_enc(*is_debug));
            }
            let ghost b18 = b17 + bool_enc(*is_superflat);
            write_bool(out, *is_superflat);
            proof {
                lemma_append_assoc(old(out)@, b17, bool_enc(*is_superflat));
            }
            let ghost b19 = b18 + death_info_enc(
                match death_info {
                    Option::Some(d) => Option::Some(d@),
                    Option::None => Option::None,
                },
            );
            match death_info {
                Option::None => write_bool(out, false),
                Option::Some(info) => {
                    write_bool(out, true);
                    write_string(out, &info.dimension);
                    write_position(out, &info.location);
                },
            }
            proof {
                lemma_append_assoc(old(out)@, b18, death_info_enc(
                match death_info {
                    Option::Some(d) => Option::Some(d@),
                    Option::None => Option::None,
                },
            ));
            }
            let ghost b20 = b19 + varint_enc(u64_of_i64(*portal_cooldown));
            write_varint(out, *portal_cooldown);
            proof {
                lemma_append_assoc(old(out)@, b19, varint_enc(u64_of_i64(*portal_cooldown)));
                assert(b20 == out_packet_body(packet@));
            }
        },
        _ => {
            // Unreachable: the caller passes only this variant.
            proof {
                assert(false);
            }
        },
    }
}

/// Append the body of a ChunkDataAndUpdateLight packet.
#[verifier::rlimit(100)]
fn write_chunk_data_body(out: &mut Vec<u8>, packet: &OutPacket)
    requires
        packet is ChunkDataAndUpdateLight,
        out_packet_wf(packet@),
    ensures
        final(out)@ == old(out)@ + out_packet_body(packet@),
{
    match packet {
        OutPacket::ChunkDataAndUpdateLight {
            chunk_x,
            chunk_z,
            heightmaps,
            data,
            block_entities,
            sky_light_mask,
            block_light_mask,
            empty_sky_light_mask,
            empty_block_light_mask,
            sky_light_arrays,
            block_light_arrays,
        } => {
            write_varint(out, 0x25);
            write_int(out, *chunk_x);
            write_int(out, *chunk_z);
            write_compound_nbt(out, heightmaps);
            write_varint(out, data.len() as i64);
            write_i8s(out, data);
            write_varint(out, block_entities.len() as i64);
            let ghost bv = block_entities_view(block_entities@);
            let ghost mid = out@;
            let mut i: usize = 0;
            while i < block_entities.len()
                invariant
                    i <= block_entities@.len(),
                    bv == block_entities_view(block_entities@),
                    bv.len() == block_entities@.len(),
                    forall|j: int|
                        0 <= j < block_entities@.len() ==> #[trigger] bv[j]
                            == block_entities@[j]@,
                    forall|j: int| 0 <= j < bv.len() ==> compound_wf((#[trigger] bv[j]).data),
                    out@ == mid + block_entities_enc(bv.take(i as int)),
                decreases block_entities@.len() - i,
            {
                proof {
                    assert(bv[i as int] == block_entities@[i as int]@);
                }
                write_block_entity(out, &block_entities[i]);
                i = i + 1;
                proof {
                    lemma_block_entities_enc_push(bv.take(i - 1), bv[i - 1]);
                    assert(bv.take(i as int) =~= bv.take(i - 1).push(bv[i - 1]));
                    assert(out@ =~= mid + block_entities_enc(bv.take(i as int)));
                }
            }
            proof {
                assert(bv.take(bv.len() as int) =~= bv);
            }
            write_bitset(out, sky_light_mask);
            write_bitset(out, block_light_mask);
            write_bitset(out, empty_sky_light_mask);
            write_bitset(out, empty_block_light_mask);
            write_light_arrays(out, sky_light_arrays);
            write_light_arrays(out, block_light_arrays);
            proof {
                assert(out@ =~= old(out)@ + out_packet_body(packet@));
            }
        
        },
        _ => {
            // Unreachable: the caller passes only this variant.
            proof {
                assert(false);
            }
        },
    }
}

/// Append the body of an outbound packet: its id as a VarInt, then the
/// per-packet payload.
#[verifier::rlimit(100)]
fn write_packet_body(out: &mut Vec<u8>, packet: &OutPacket)
    requires
        out_packet_wf(packet@),
    ensures
        final(out)@ == old(out)@ + out_packet_body(packet@),
{
    match packet {
        OutPacket::DisconnectLogin { reason } => {
            write_varint(out, 0x00);
            let mut json: Vec<u8> = Vec::new();
            json.push(0x7b);
            json.push(0x74);
            json.push(0x65);
            json.push(0x78);
            json.push(0x74);
            json.push(0x3a);
            json.push(0x22);
            write_bytes(&mut json, reason);
            json.push(0x22);
            json.push(0x7d);
            proof {
                assert(json@ =~= disconnect_json(reason@));
            }
            write_string(out, &json);
            proof {
                assert(out@ =~= old(out)@ + out_packet_body(packet@));
            }
        },
        OutPacket::LoginSuccess { uuid, username, props } => {
            write_varint(out, 0x02);
            write_uuid(out, *uuid);
            write_string(out, username);
            write_varint(out, props.len() as i64);
            let ghost pv = login_props_view(props@);
            let ghost mid = out@;
            let mut i: usize = 0;
            while i < props.len()
                invariant
                    i <= props@.len(),
                    pv == login_props_view(props@),
                    pv.len() == props@.len(),
                    forall|j: int| 0 <= j < props@.len() ==> #[trigger] pv[j] == props@[j]@,
                    forall|j: int|
                        0 <= j < pv.len() ==> (#[trigger] pv[j]).name.len() <= 0x7fff_ffff
                            && pv[j].value.len() <= 0x7fff_ffff && (pv[j].signature matches Option::Some(
                            s,
                        ) ==> s.len() <= 0x7fff_ffff),
                    out@ == mid + login_props_enc(pv.take(i as int)),
                decreases props@.len() - i,
            {
                let p = &props[i];
                proof {
                    assert(*p == props@[i as int]);
                    assert(pv[i as int] == props@[i as int]@);
                }
                write_string(out, &p.name);
                write_string(out, &p.value);
                match &p.signature {
                    Option::Some(sig) => {
                        write_bool(out, true);
                        write_string(out, sig);
                    },
                    Option::None => {
                        write_bool(out, false);
                    },
                }
                i = i + 1;
                proof {
                    lemma_login_props_enc_push(pv.take(i - 1), pv[i - 1]);
                    assert(pv.take(i as int) =~= pv.take(i - 1).push(pv[i - 1]));
                    assert(out@ =~= mid + login_props_enc(pv.take(i as int)));
                }
            }
            proof {
                assert(pv.take(pv.len() as int) =~= pv);
                assert(out@ =~= old(out)@ + out_packet_body(packet@));
            }
        },
        OutPacket::FinishConfig => {
            write_varint(out, 0x02);
        },
        OutPacket::LoginPlay { .. } => {
            write_login_play_body(out, packet);
        },
        OutPacket::ChunkDataAndUpdateLight { .. } => {
            write_chunk_data_body(out, packet);
        },
    }
}

impl PacketStream {
    /// Encode one outbound packet and append its frame (VarInt body
    /// length, then the body) to the output, after checking that the
    /// packet is legal in the current state.  The body is built in a
    /// scratch buffer first, so the output only ever receives whole
    /// frames.
    pub fn send(&mut self, packet: &OutPacket) -> (r: Result<(), ProtoError>)
        requires
            out_packet_wf(packet@),
        ensures
            final(self).input == old(self).input,
            final(self).rpos == old(self).rpos,
            final(self).state == old(self).state,
            state_allows(old(self).state, packet@) ==> r is Ok && final(self).output@ == old(
                self,
            ).output@ + frame_enc(packet@),
            !state_allows(old(self).state, packet@) ==> r == Err::<(), ProtoError>(
                ProtoError::ProtocolViolation,
            ) && final(self).output == old(self).output,
    {
        let allowed = match packet {
            OutPacket::DisconnectLogin { .. } => matches!(self.state, State::Login),
            OutPacket::LoginSuccess { .. } => matches!(self.state, State::Login),
            OutPacket::FinishConfig => matches!(self.state, State::Config),
            OutPacket::LoginPlay { .. } => matches!(self.state, State::Play),
            OutPacket::ChunkDataAndUpdateLight { .. } => matches!(self.state, State::Play),
        };
        if !allowed {
            return Err(ProtoError::ProtocolViolation);
        }
        let mut scratch: Vec<u8> = Vec::new();
        write_packet_body(&mut scratch, packet);
        write_varint(&mut self.output, scratch.len() as i64);
        write_bytes(&mut self.output, &scratch);
        proof {
            assert(u64_of_i64(scratch@.len() as i64) == out_packet_body(packet@).len() as u64);
            assert(self.output@ =~= old(self).output@ + frame_enc(packet@));
        }
        Ok(())
    }
}

} // verus!
