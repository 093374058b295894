//! Composite protocol data: the small wire enums, the bit-packed
//! `Position`, and the `BitSet` used by light masks.

use vstd::prelude::*;

use crate::err::ProtoError;
use crate::nbt::{
    compound_enc, compound_wf, i64s_bytes, i64s_dec, lemma_i64s_bytes_push, lemma_i64s_rt,
    CompoundNbt, CompoundView, write_compound_nbt,
};
use crate::prim::{
    i64_of_u64, lemma_varint_dec_k_bounds, lemma_varint_round_trip, read_double_bits, read_long,
    read_varint, u16_be, u16_of_i16, u32_of_i32, u64_be, u64_dec, u64_of_i64, varint_dec,
    varint_enc, write_double_bits, write_long, write_short, write_ubyte, write_varint,
};

verus! {

// ---------------------------------------------------------------------
// Small wire enums
// ---------------------------------------------------------------------

/// The state a handshake asks to continue in.
#[derive(Debug, Copy, Clone, PartialEq, Eq, Structural)]
pub enum HandshakeNextState {
    Status,
    Login,
}

/// Client chat visibility setting.
#[derive(Debug, Copy, Clone, PartialEq, Eq, Structural)]
pub enum ChatMode {
    Enabled,
    CommandsOnly,
    Hidden,
}

/// Client main-hand setting.
#[derive(Debug, Copy, Clone, PartialEq, Eq, Structural)]
pub enum MainHand {
    Left,
    Right,
}

/// The game mode of a player.
#[derive(Debug, Copy, Clone, PartialEq, Eq, Structural)]
pub enum GameMode {
    Survival,
    Creative,
    Adventure,
    Spectator,
}

/// The byte a game mode travels as.
pub open spec fn game_mode_byte(gm: GameMode) -> u8 {
    match gm {
        GameMode::Survival => 0,
        GameMode::Creative => 1,
        GameMode::Adventure => 2,
        GameMode::Spectator => 3,
    }
}

/// Append a game mode as its single byte.
pub fn write_game_mode(out: &mut Vec<u8>, gm: GameMode)
    ensures
        final(out)@ == old(out)@ + seq![game_mode_byte(gm)],
{
    let b: u8 = match gm {
        GameMode::Survival => 0,
        GameMode::Creative => 1,
        GameMode::Adventure => 2,
        GameMode::Spectator => 3,
    };
    write_ubyte(out, b);
}

// ---------------------------------------------------------------------
// Position
// ---------------------------------------------------------------------

/// Three block-world coordinates that pack into one 64-bit word:
/// `x` (signed 26 bits) then `z` (signed 26 bits) then `y` (signed
/// 12 bits), most significant first.
#[derive(Debug, Copy, Clone, PartialEq, Eq, Structural)]
pub struct Position {
    /// Signed 26-bit range.
    pub x: i32,
    /// Signed 26-bit range.
    pub z: i32,
    /// Signed 12-bit range.
    pub y: i16,
}

/// Each coordinate fits its bit field.
pub open spec fn position_in_range(p: Position) -> bool {
    &&& -0x200_0000 <= p.x < 0x200_0000
    &&& -0x200_0000 <= p.z < 0x200_0000
    &&& -0x800 <= p.y < 0x800
}

/// The packed 64-bit word of a position.
pub open spec fn position_packed(p: Position) -> u64 {
    (((u32_of_i32(p.x) & 0x3ff_ffff) as u64) << 38) | (((u32_of_i32(p.z) & 0x3ff_ffff) as u64)
        << 12) | ((u16_of_i16(p.y) & 0xfff) as u64)
}

/// The position a packed 64-bit word denotes, sign-extending each field.
pub open spec fn position_unpacked(w: u64) -> Position {
    Position {
        x: if (w >> 38) < 0x200_0000 {
            (w >> 38) as i32
        } else {
            ((w >> 38) - 0x400_0000) as i32
        },
        z: if ((w >> 12) & 0x3ff_ffff) < 0x200_0000 {
            ((w >> 12) & 0x3ff_ffff) as i32
        } else {
            (((w >> 12) & 0x3ff_ffff) - 0x400_0000) as i32
        },
        y: if (w & 0xfff) < 0x800 {
            (w & 0xfff) as i16
        } else {
            ((w & 0xfff) - 0x1000) as i16
        },
    }
}

/// Position round trip: unpacking the packed word of any in-range
/// position yields the position back.
pub proof fn lemma_position_round_trip(p: Position)
    requires
        position_in_range(p),
    ensures
        position_unpacked(position_packed(p)) == p,
{
    let w = position_packed(p);
    let px = p.x;
    let pz = p.z;
    let py = p.y;
    let xu = u32_of_i32(p.x);
    let zu = u32_of_i32(p.z);
    let yu = u16_of_i16(p.y);
    assert((if (w >> 38) < 0x200_0000 {
        (w >> 38) as i32
    } else {
        ((w >> 38) - 0x400_0000) as i32
    }) == px) by (bit_vector)
        requires
            w == (((xu & 0x3ff_ffff) as u64) << 38) | (((zu & 0x3ff_ffff) as u64) << 12) | ((yu
                & 0xfff) as u64),
            xu == (if px >= 0 {
                px as u32
            } else {
                (px + 0x1_0000_0000) as u32
            }),
            -0x200_0000 <= px < 0x200_0000,
    ;
    assert((if ((w >> 12) & 0x3ff_ffff) < 0x200_0000 {
        ((w >> 12) & 0x3ff_ffff) as i32
    } else {
        (((w >> 12) & 0x3ff_ffff) - 0x400_0000) as i32
    }) == pz) by (bit_vector)
        requires
            w == (((xu & 0x3ff_ffff) as u64) << 38) | (((zu & 0x3ff_ffff) as u64) << 12) | ((yu
                & 0xfff) as u64),
            zu == (if pz >= 0 {
                pz as u32
            } else {
                (pz + 0x1_0000_0000) as u32
            }),
            -0x200_0000 <= pz < 0x200_0000,
    ;
    assert((if (w & 0xfff) < 0x800 {
        (w & 0xfff) as i16
    } else {
        ((w & 0xfff) - 0x1000) as i16
    }) == py) by (bit_vector)
        requires
            w == (((xu & 0x3ff_ffff) as u64) << 38) | (((zu & 0x3ff_ffff) as u64) << 12) | ((yu
                & 0xfff) as u64),
            yu == (if py >= 0 {
                py as u16
            } else {
                (py + 0x1_0000) as u16
            }),
            -0x800 <= py < 0x800,
    ;
}

/// Append a position as its packed big-endian 64-bit word.
pub fn write_position(out: &mut Vec<u8>, p: &Position)
    requires
        position_in_range(*p),
    ensures
        final(out)@ == old(out)@ + u64_be(position_packed(*p)),
{
    let xu: u32 = #[verifier::truncate] (p.x as u32);
    let zu: u32 = #[verifier::truncate] (p.z as u32);
    let yu: u16 = #[verifier::truncate] (p.y as u16);
    proof {
        let px = p.x;
        let pz = p.z;
        let py = p.y;
        assert(px < 0 ==> #[verifier::truncate] (px as u32) == px + 0x1_0000_0000)
            by (bit_vector);
        assert(pz < 0 ==> #[verifier::truncate] (pz as u32) == pz + 0x1_0000_0000)
            by (bit_vector);
        assert(py < 0 ==> #[verifier::truncate] (py as u16) == py + 0x1_0000) by (bit_vector);
    }
    let packed: u64 = (((xu & 0x3ff_ffff) as u64) << 38) | (((zu & 0x3ff_ffff) as u64) << 12) | ((
    yu & 0xfff) as u64);
    write_double_bits(out, packed);
}

/// Read a position from its packed big-endian 64-bit word.
pub fn read_position(buf: &Vec<u8>, pos: usize) -> (r: Result<(Position, usize), ProtoError>)
    requires
        pos <= buf@.len(),
    ensures
        ({
            match u64_dec(buf@.skip(pos as int)) {
                Ok((w, n)) => r == Ok::<(Position, usize), ProtoError>(
                    (position_unpacked(w), (pos + n) as usize),
                ),
                Err(e) => r == Err::<(Position, usize), ProtoError>(e),
            }
        }),
{
    match read_double_bits(buf, pos) {
        Ok((w, p)) => {
            proof {
                assert((w >> 38) < 0x400_0000 && ((w >> 12) & 0x3ff_ffff) < 0x400_0000 && (w
                    & 0xfff) < 0x1000) by (bit_vector);
            }
            let xf: u64 = w >> 38;
            let zf: u64 = (w >> 12) & 0x3ff_ffff;
            let yf: u64 = w & 0xfff;
            let x: i32 = if xf < 0x200_0000 {
                xf as i32
            } else {
                ((xf as i64) - 0x400_0000) as i32
            };
            let z: i32 = if zf < 0x200_0000 {
                zf as i32
            } else {
                ((zf as i64) - 0x400_0000) as i32
            };
            let y: i16 = if yf < 0x800 {
                yf as i16
            } else {
                ((yf as i64) - 0x1000) as i16
            };
            Ok((Position { x, z, y }, p))
        },
        Err(e) => Err(e),
    }
}

// ---------------------------------------------------------------------
// BitSet
// ---------------------------------------------------------------------

/// A growable set of bits packed into 64-bit words; bit `i` lives in
/// word `i / 64` at position `i % 64`.
#[derive(Debug)]
pub struct BitSet {
    longs: Vec<i64>,
}

impl View for BitSet {
    type V = Seq<i64>;

    closed spec fn view(&self) -> Seq<i64> {
        self.longs@
    }
}

/// Bit `k` of word `w`.
pub open spec fn nth_bit(w: i64, k: u32) -> bool {
    ((w >> k) & 1) == 1
}

/// Bit `i` of a word sequence.
pub open spec fn spec_bit(words: Seq<i64>, i: int) -> bool
    recommends
        0 <= i < 64 * words.len(),
{
    nth_bit(words[i / 64], (i % 64) as u32)
}

proof fn lemma_word_bits(w: i64, b: u32, k: u32)
    by (bit_vector)
    requires
        b < 64,
        k < 64,
    ensures
        ((0i64 >> k) & 1) == 0,
        (((w | (1i64 << b)) >> k) & 1) == 1 <==> (k == b || ((w >> k) & 1) == 1),
        ((w >> k) & 1) == 0 || ((w >> k) & 1) == 1,
{
}

impl BitSet {
    /// Create a bit set with the fewest 64-bit words that hold `n` bits;
    /// every bit starts clear.
    pub fn with_num_bits(n: usize) -> (r: BitSet)
        ensures
            r@.len() == (n + 63) / 64,
            forall|i: int| 0 <= i < 64 * r@.len() ==> !spec_bit(r@, i),
    {
        let words = n / 64 + (if n % 64 != 0 {
            1usize
        } else {
            0usize
        });
        let bs = BitSet { longs: vec![0i64; words] };
        proof {
            assert(words == (n + 63) / 64);
            assert forall|i: int| 0 <= i < 64 * bs@.len() implies !spec_bit(bs@, i) by {
                lemma_word_bits(0, 0, (i % 64) as u32);
            }
        }
        bs
    }

    /// The number of 64-bit words backing the set.
    pub fn num_longs(&self) -> (r: usize)
        ensures
            r == self@.len(),
    {
        self.longs.len()
    }

    fn compute_idx(&self, bit_idx: usize) -> (r: (usize, usize))
        requires
            bit_idx < 64 * self@.len(),
        ensures
            r.0 == bit_idx as int / 64,
            r.1 == bit_idx as int % 64,
            r.0 < self@.len(),
            r.1 < 64,
            bit_idx == 64 * r.0 + r.1,
    {
        (bit_idx / 64, bit_idx % 64)
    }

    /// Set bit `bit_idx`; every other bit keeps its value.
    pub fn set(&mut self, bit_idx: usize)
        requires
            bit_idx < 64 * old(self)@.len(),
        ensures
            final(self)@.len() == old(self)@.len(),
            forall|j: int|
                0 <= j < 64 * old(self)@.len() ==> spec_bit(final(self)@, j) == (j == bit_idx
                    || spec_bit(old(self)@, j)),
    {
        let (li, bi) = self.compute_idx(bit_idx);
        let w = self.longs[li];
        self.longs.set(li, w | (1i64 << (bi as u32)));
        proof {
            assert forall|j: int|
                0 <= j < 64 * old(self)@.len() implies spec_bit(self@, j) == (j == bit_idx
                || spec_bit(old(self)@, j)) by {
                lemma_word_bits(w, bi as u32, (j % 64) as u32);
                if j / 64 == li as int {
                    assert(j == bit_idx <==> (j % 64) as u32 == bi as u32);
                } else {
                    assert(self@[j / 64] == old(self)@[j / 64]);
                    assert(j != bit_idx);
                }
            }
        }
    }

    /// Whether bit `bit_idx` is set.
    pub fn get(&self, bit_idx: usize) -> (r: bool)
        requires
            bit_idx < 64 * self@.len(),
        ensures
            r == spec_bit(self@, bit_idx as int),
    {
        let (li, bi) = self.compute_idx(bit_idx);
        let r = ((self.longs[li] >> (bi as u32)) & 1) != 0;
        proof {
            lemma_word_bits(self.longs@[li as int], bi as u32, bi as u32);
        }
        r
    }
}

/// The wire form of a bit set: VarInt word count, then the words,
/// each big-endian.
pub open spec fn bitset_enc(words: Seq<i64>) -> Seq<u8> {
    varint_enc(words.len() as u64) + i64s_bytes(words)
}

/// Decode a bit set: VarInt word count (a negative count is malformed),
/// then that many big-endian words.
pub open spec fn bitset_dec(s: Seq<u8>) -> Result<(Seq<i64>, int), ProtoError> {
    match varint_dec(s) {
        Ok((v, n0)) => {
            let cnt = i64_of_u64(v);
            if cnt < 0 {
                Err(ProtoError::MalformedFrame)
            } else {
                match i64s_dec(s.skip(n0), cnt as int, Seq::empty()) {
                    Ok((ws, m)) => Ok((ws, n0 + m)),
                    Err(e) => Err(e),
                }
            }
        },
        Err(e) => Err(e),
    }
}

/// Bit set round trip: any word sequence decodes back from its wire
/// form (followed by anything), consuming exactly the wire form.
pub proof fn lemma_bitset_round_trip(words: Seq<i64>, rest: Seq<u8>)
    requires
        words.len() <= 0x7fff_ffff_ffff_ffff,
    ensures
        bitset_dec(bitset_enc(words) + rest) == Ok::<(Seq<i64>, int), ProtoError>(
            (words, bitset_enc(words).len() as int),
        ),
{
    lemma_varint_round_trip(words.len() as i64, i64s_bytes(words) + rest);
    assert(u64_of_i64(words.len() as i64) == words.len() as u64);
    let s = bitset_enc(words) + rest;
    assert(varint_enc(words.len() as u64) + (i64s_bytes(words) + rest) =~= s);
    let n0 = varint_enc(words.len() as u64).len() as int;
    assert(s.skip(n0) =~= i64s_bytes(words) + rest);
    lemma_i64s_rt(words, Seq::empty(), rest);
    assert(Seq::<i64>::empty() + words =~= words);
}

/// Append a bit set: VarInt word count, then each word big-endian.
pub fn write_bitset(out: &mut Vec<u8>, bs: &BitSet)
    requires
        bs@.len() <= 0x7fff_ffff_ffff_ffff,
    ensures
        final(out)@ == old(out)@ + bitset_enc(bs@),
{
    write_varint(out, bs.longs.len() as i64);
    let ghost mid = out@;
    let mut i: usize = 0;
    while i < bs.longs.len()
        invariant
            i <= bs@.len(),
            out@ == mid + i64s_bytes(bs@.take(i as int)),
        decreases bs@.len() - i,
    {
        write_long(out, bs.longs[i]);
        i = i + 1;
        proof {
            lemma_i64s_bytes_push(bs@.take(i - 1), bs@[i - 1]);
            assert(bs@.take(i as int) =~= bs@.take(i - 1).push(bs@[i - 1]));
            assert(out@ =~= mid + i64s_bytes(bs@.take(i as int)));
        }
    }
    proof {
        assert(bs@.take(bs@.len() as int) =~= bs@);
        assert(out@ =~= old(out)@ + bitset_enc(bs@));
    }
}

/// Read a bit set: VarInt word count, then that many big-endian words.
pub fn read_bitset(buf: &Vec<u8>, pos: usize) -> (r: Result<(BitSet, usize), ProtoError>)
    requires
        pos <= buf@.len(),
    ensures
        ({
            match bitset_dec(buf@.skip(pos as int)) {
                Ok((ws, n)) => r matches Ok(p) && p.0@ == ws && p.1 == pos + n,
                Err(e) => r == Err::<(BitSet, usize), ProtoError>(e),
            }
        }),
{
    let ghost s0 = buf@.skip(pos as int);
    proof {
        assert(buf@.len() == buf.len());
        lemma_varint_dec_k_bounds(s0, 10);
    }
    let (cnt, p0) = match read_varint(buf, pos) {
        Ok(x) => x,
        Err(e) => {
            return Err(e);
        },
    };
    if cnt < 0 {
        return Err(ProtoError::MalformedFrame);
    }
    proof {
        assert(s0.skip(p0 - pos) =~= buf@.skip(p0 as int));
    }
    let mut longs: Vec<i64> = Vec::new();
    let mut p: usize = p0;
    let mut i: i64 = 0;
    while i < cnt
        invariant
            0 <= i <= cnt,
            buf@.len() == buf.len(),
            pos <= buf@.len(),
            p0 <= p <= buf@.len(),
            longs@.len() == i,
            s0 == buf@.skip(pos as int),
            varint_dec(s0) matches Ok(h) && i64_of_u64(h.0) == cnt && h.1 == p0 - pos,
            s0.skip(p0 - pos) == buf@.skip(p0 as int),
            ({
                match i64s_dec(buf@.skip(p as int), cnt - i, longs@) {
                    Ok((ws, m)) => i64s_dec(buf@.skip(p0 as int), cnt as int, Seq::empty())
                        == Ok::<(Seq<i64>, int), ProtoError>((ws, (p - p0) + m)),
                    Err(e) => i64s_dec(buf@.skip(p0 as int), cnt as int, Seq::empty()) == Err::<
                        (Seq<i64>, int),
                        ProtoError,
                    >(e),
                }
            }),
        decreases cnt - i,
    {
        match read_long(buf, p) {
            Ok((x, q)) => {
                proof {
                    assert(buf@.skip(p as int).skip(8) =~= buf@.skip(q as int));
                }
                longs.push(x);
                p = q;
                i = i + 1;
            },
            Err(e) => {
                return Err(e);
            },
        }
    }
    Ok((BitSet { longs }, p))
}

// ---------------------------------------------------------------------
// Login success properties, death info, block entities
// ---------------------------------------------------------------------

/// One profile property sent with a login success.
#[derive(Debug)]
pub struct LoginSuccessProp {
    pub name: Vec<u8>,
    pub value: Vec<u8>,
    pub signature: Option<Vec<u8>>,
}

/// The model of a login success property.
pub struct LoginSuccessPropView {
    pub name: Seq<u8>,
    pub value: Seq<u8>,
    pub signature: Option<Seq<u8>>,
}

impl View for LoginSuccessProp {
    type V = LoginSuccessPropView;

    open spec fn view(&self) -> LoginSuccessPropView {
        LoginSuccessPropView {
            name: self.name@,
            value: self.value@,
            signature: match self.signature {
                Option::Some(ref s) => Option::Some(s@),
                Option::None => Option::None,
            },
        }
    }
}

/// Where a player last died.
#[derive(Debug)]
pub struct DeathInfo {
    /// The dimension the player died in.
    pub dimension: Vec<u8>,
    pub location: Position,
}

/// The model of a death info record.
pub struct DeathInfoView {
    pub dimension: Seq<u8>,
    pub location: Position,
}

impl View for DeathInfo {
    type V = DeathInfoView;

    open spec fn view(&self) -> DeathInfoView {
        DeathInfoView { dimension: self.dimension@, location: self.location }
    }
}

/// A block entity inside a chunk section.
#[derive(Debug)]
pub struct BlockEntity {
    /// In-chunk coordinate, 0 to 15.
    pub x: u8,
    /// In-chunk coordinate, 0 to 15.
    pub z: u8,
    pub y: i16,
    /// The block entity type id.
    pub tipe: i64,
    pub data: CompoundNbt,
}

/// The model of a block entity.
pub struct BlockEntityView {
    pub x: u8,
    pub z: u8,
    pub y: i16,
    pub tipe: i64,
    pub data: CompoundView,
}

impl View for BlockEntity {
    type V = BlockEntityView;

    open spec fn view(&self) -> BlockEntityView {
        BlockEntityView {
            x: self.x,
            z: self.z,
            y: self.y,
            tipe: self.tipe,
            data: self.data@,
        }
    }
}

/// The wire form of a block entity: packed in-chunk coordinates, `y`,
/// the type id as a VarInt, and the embedded NBT compound.
pub open spec fn block_entity_enc(b: BlockEntityView) -> Seq<u8> {
    seq![((b.x & 0xf) << 4) | (b.z & 0xf)] + u16_be(u16_of_i16(b.y)) + varint_enc(
        u64_of_i64(b.tipe),
    ) + compound_enc(b.data)
}

/// Append a block entity.
pub fn write_block_entity(out: &mut Vec<u8>, bent: &BlockEntity)
    requires
        compound_wf(bent.data@),
    ensures
        final(out)@ == old(out)@ + block_entity_enc(bent@),
{
    write_ubyte(out, ((bent.x & 0xf) << 4) | (bent.z & 0xf));
    write_short(out, bent.y);
    write_varint(out, bent.tipe);
    write_compound_nbt(out, &bent.data);
    proof {
        assert(out@ =~= old(out)@ + block_entity_enc(bent@));
    }
}

} // verus!
