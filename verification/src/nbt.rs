//! The NBT codec: a self-describing, recursively-typed binary tag-tree
//! format with heterogeneous compounds and homogeneous lists.
//!
//! A tag is one of twelve value kinds identified by a byte (1 to 12); the
//! byte 0 (`End`) terminates a compound and never stands for a value.
//! Strings inside NBT are u16-length-prefixed UTF-8 bytes; arrays and
//! lists carry a signed 32-bit big-endian length.  Floating-point values
//! travel as their raw IEEE-754 bit patterns and are held here as those
//! bit patterns (`u32` / `u64`), which keeps every round trip bit-exact.
//!
//! A compound value on the wire is its name string followed by its
//! properties and a trailing `End` byte; when a compound stands as a
//! property of another compound, the name slot is filled from the
//! compound's own name.

use vstd::prelude::*;

use crate::err::ProtoError;
use crate::prim::{
    i16_of_u16, i32_of_u32, i64_of_u64, i8_of_u8, read_byte, read_double_bits,
    read_float_bits, read_int, read_long, read_short, read_ubyte, read_ushort,
    lemma_u16_enc_dec, lemma_u32_enc_dec, lemma_u64_enc_dec, lemma_ushort_string_enc_dec,
    read_ushort_string, u16_be, u16_dec, u16_of_i16, u32_be, u32_dec, u32_of_i32, u64_be,
    u64_dec, u64_of_i64, u8_dec, u8_of_i8, ushort_string_dec, ushort_string_enc, write_double_bits,
    write_float_bits, write_ibyte, write_int, write_long, write_short, write_ubyte,
    write_ushort_string,
};

verus! {

/// Tag byte of a compound terminator; never a value.
pub const TAG_END: u8 = 0;

/// Tag byte of a signed 8-bit value.
pub const TAG_BYTE: u8 = 1;

/// Tag byte of a signed 16-bit value.
pub const TAG_SHORT: u8 = 2;

/// Tag byte of a signed 32-bit value.
pub const TAG_INT: u8 = 3;

/// Tag byte of a signed 64-bit value.
pub const TAG_LONG: u8 = 4;

/// Tag byte of a 32-bit IEEE-754 value.
pub const TAG_FLOAT: u8 = 5;

/// Tag byte of a 64-bit IEEE-754 value.
pub const TAG_DOUBLE: u8 = 6;

/// Tag byte of an array of signed bytes.
pub const TAG_BYTE_ARRAY: u8 = 7;

/// Tag byte of a u16-length-prefixed string.
pub const TAG_STRING: u8 = 8;

/// Tag byte of a homogeneous list.
pub const TAG_LIST: u8 = 9;

/// Tag byte of a compound.
pub const TAG_COMPOUND: u8 = 10;

/// Tag byte of an array of signed 32-bit values.
pub const TAG_INT_ARRAY: u8 = 11;

/// Tag byte of an array of signed 64-bit values.
pub const TAG_LONG_ARRAY: u8 = 12;

// ---------------------------------------------------------------------
// The tag tree
// ---------------------------------------------------------------------

/// A named compound: an ordered sequence of (name, value) properties
/// with unique names; on repeated insertion the latest value wins.
#[derive(Debug)]
pub struct CompoundNbt {
    name: Vec<u8>,
    props: Vec<(Vec<u8>, Nbt)>,
}

/// A homogeneous list payload, one variant per element kind.
#[derive(Debug)]
pub enum NbtList {
    Compound(Vec<CompoundNbt>),
    Byte(Vec<i8>),
    Short(Vec<i16>),
    Int(Vec<i32>),
    Long(Vec<i64>),
    Float(Vec<u32>),
    Double(Vec<u64>),
    String(Vec<Vec<u8>>),
}

/// One NBT value.  `Float` and `Double` hold raw IEEE-754 bit patterns.
#[derive(Debug)]
pub enum Nbt {
    Compound(CompoundNbt),
    Byte(i8),
    Short(i16),
    Int(i32),
    Long(i64),
    Float(u32),
    Double(u64),
    ByteArray(Vec<i8>),
    String(Vec<u8>),
    List(NbtList),
    IntArray(Vec<i32>),
    LongArray(Vec<i64>),
}

// ---------------------------------------------------------------------
// The mathematical model of the tag tree
// ---------------------------------------------------------------------

/// The model of a compound.
pub struct CompoundView {
    pub name: Seq<u8>,
    pub props: Seq<(Seq<u8>, NbtView)>,
}

/// The model of a list: the element tag it was declared with, and the
/// element values.
pub struct NbtListView {
    pub etag: u8,
    pub elems: Seq<NbtView>,
}

/// The model of one NBT value.
pub enum NbtView {
    Compound(CompoundView),
    Byte(i8),
    Short(i16),
    Int(i32),
    Long(i64),
    Float(u32),
    Double(u64),
    ByteArray(Seq<i8>),
    String(Seq<u8>),
    List(NbtListView),
    IntArray(Seq<i32>),
    LongArray(Seq<i64>),
}

/// The model of an exec NBT value.
pub open spec fn nbt_view(n: Nbt) -> NbtView
    decreases n,
{
    match n {
        Nbt::Compound(c) => NbtView::Compound(compound_view(c)),
        Nbt::Byte(x) => NbtView::Byte(x),
        Nbt::Short(x) => NbtView::Short(x),
        Nbt::Int(x) => NbtView::Int(x),
        Nbt::Long(x) => NbtView::Long(x),
        Nbt::Float(x) => NbtView::Float(x),
        Nbt::Double(x) => NbtView::Double(x),
        Nbt::ByteArray(v) => NbtView::ByteArray(v@),
        Nbt::String(v) => NbtView::String(v@),
        Nbt::List(l) => NbtView::List(list_view(l)),
        Nbt::IntArray(v) => NbtView::IntArray(v@),
        Nbt::LongArray(v) => NbtView::LongArray(v@),
    }
}

/// The model of an exec list.
pub open spec fn list_view(l: NbtList) -> NbtListView
    decreases l,
{
    match l {
        NbtList::Compound(v) => NbtListView { etag: TAG_COMPOUND, elems: compounds_view(v@) },
        NbtList::Byte(v) => NbtListView {
            etag: TAG_BYTE,
            elems: bytes_view(v@),
        },
        NbtList::Short(v) => NbtListView {
            etag: TAG_SHORT,
            elems: shorts_view(v@),
        },
        NbtList::Int(v) => NbtListView {
            etag: TAG_INT,
            elems: ints_view(v@),
        },
        NbtList::Long(v) => NbtListView {
            etag: TAG_LONG,
            elems: longs_view(v@),
        },
        NbtList::Float(v) => NbtListView {
            etag: TAG_FLOAT,
            elems: floats_view(v@),
        },
        NbtList::Double(v) => NbtListView {
            etag: TAG_DOUBLE,
            elems: doubles_view(v@),
        },
        NbtList::String(v) => NbtListView {
            etag: TAG_STRING,
            elems: strings_view(v@),
        },
    }
}

/// The models of a sequence of compounds (list elements).
pub open spec fn compounds_view(s: Seq<CompoundNbt>) -> Seq<NbtView>
    decreases s,
{
    if s.len() == 0 {
        Seq::empty()
    } else {
        compounds_view(s.subrange(0, s.len() - 1)).push(
            NbtView::Compound(compound_view(s[s.len() - 1])),
        )
    }
}

/// The models of a sequence of strings (list elements).
pub open spec fn strings_view(s: Seq<Vec<u8>>) -> Seq<NbtView> {
    s.map_values(|x: Vec<u8>| NbtView::String(x@))
}

/// The models of a sequence of signed bytes (list elements).
pub open spec fn bytes_view(s: Seq<i8>) -> Seq<NbtView> {
    s.map_values(|x: i8| NbtView::Byte(x))
}

/// The models of a sequence of signed 16-bit values (list elements).
pub open spec fn shorts_view(s: Seq<i16>) -> Seq<NbtView> {
    s.map_values(|x: i16| NbtView::Short(x))
}

/// The models of a sequence of signed 32-bit values (list elements).
pub open spec fn ints_view(s: Seq<i32>) -> Seq<NbtView> {
    s.map_values(|x: i32| NbtView::Int(x))
}

/// The models of a sequence of signed 64-bit values (list elements).
pub open spec fn longs_view(s: Seq<i64>) -> Seq<NbtView> {
    s.map_values(|x: i64| NbtView::Long(x))
}

/// The models of a sequence of 32-bit bit patterns (list elements).
pub open spec fn floats_view(s: Seq<u32>) -> Seq<NbtView> {
    s.map_values(|x: u32| NbtView::Float(x))
}

/// The models of a sequence of 64-bit bit patterns (list elements).
pub open spec fn doubles_view(s: Seq<u64>) -> Seq<NbtView> {
    s.map_values(|x: u64| NbtView::Double(x))
}

/// The models of a property sequence.
pub open spec fn props_view(s: Seq<(Vec<u8>, Nbt)>) -> Seq<(Seq<u8>, NbtView)>
    decreases s,
{
    if s.len() == 0 {
        Seq::empty()
    } else {
        props_view(s.subrange(0, s.len() - 1)).push(
            (s[s.len() - 1].0@, nbt_view(s[s.len() - 1].1)),
        )
    }
}

/// The model of an exec compound.
pub closed spec fn compound_view(c: CompoundNbt) -> CompoundView
    decreases c,
{
    CompoundView { name: c.name@, props: props_view(c.props@) }
}

// ---------------------------------------------------------------------
// Well-formedness and canonicity
// ---------------------------------------------------------------------

/// The tag byte of a value.
pub open spec fn nbt_tag(v: NbtView) -> u8 {
    match v {
        NbtView::Compound(_) => TAG_COMPOUND,
        NbtView::Byte(_) => TAG_BYTE,
        NbtView::Short(_) => TAG_SHORT,
        NbtView::Int(_) => TAG_INT,
        NbtView::Long(_) => TAG_LONG,
        NbtView::Float(_) => TAG_FLOAT,
        NbtView::Double(_) => TAG_DOUBLE,
        NbtView::ByteArray(_) => TAG_BYTE_ARRAY,
        NbtView::String(_) => TAG_STRING,
        NbtView::List(_) => TAG_LIST,
        NbtView::IntArray(_) => TAG_INT_ARRAY,
        NbtView::LongArray(_) => TAG_LONG_ARRAY,
    }
}

/// The element kinds a list can hold: scalars, strings and compounds.
/// A list whose elements are themselves arrays or lists is not part of
/// this data model and is a decode error.
pub open spec fn list_etag_ok(etag: u8) -> bool {
    ||| etag == TAG_BYTE
    ||| etag == TAG_SHORT
    ||| etag == TAG_INT
    ||| etag == TAG_LONG
    ||| etag == TAG_FLOAT
    ||| etag == TAG_DOUBLE
    ||| etag == TAG_STRING
    ||| etag == TAG_COMPOUND
}

/// Every string fits its u16 length prefix and every array or list fits
/// its signed 32-bit length prefix.
pub open spec fn nbt_wf(v: NbtView) -> bool
    decreases v, 1int,
{
    match v {
        NbtView::Compound(c) => compound_wf(c),
        NbtView::ByteArray(s) => s.len() <= 0x7fff_ffff,
        NbtView::String(s) => s.len() <= 0xffff,
        NbtView::List(l) => {
            &&& list_etag_ok(l.etag)
            &&& l.elems.len() <= 0x7fff_ffff
            &&& elems_wf(l.elems, l.etag)
        },
        NbtView::IntArray(s) => s.len() <= 0x7fff_ffff,
        NbtView::LongArray(s) => s.len() <= 0x7fff_ffff,
        _ => true,
    }
}

/// Every list element is well formed and carries the list's element tag.
pub open spec fn elems_wf(s: Seq<NbtView>, etag: u8) -> bool
    decreases s, 2int,
{
    if s.len() == 0 {
        true
    } else {
        &&& nbt_tag(s[0]) == etag
        &&& nbt_wf(s[0])
        &&& elems_wf(s.subrange(1, s.len() as int), etag)
    }
}

/// Every property is well formed.
pub open spec fn props_wf(s: Seq<(Seq<u8>, NbtView)>) -> bool
    decreases s, 2int,
{
    if s.len() == 0 {
        true
    } else {
        &&& s[0].0.len() <= 0xffff
        &&& nbt_wf(s[0].1)
        &&& props_wf(s.subrange(1, s.len() as int))
    }
}

/// A compound and everything below it is well formed.
pub open spec fn compound_wf(c: CompoundView) -> bool
    decreases c, 2int,
{
    &&& c.name.len() <= 0xffff
    &&& props_wf(c.props)
}

/// Property names are pairwise distinct.
pub open spec fn keys_unique(s: Seq<(Seq<u8>, NbtView)>) -> bool {
    forall|i: int, j: int| 0 <= i < j < s.len() ==> s[i].0 != s[j].0
}

/// A value is canonical when, throughout the tree, property names are
/// unique and every compound-valued property is keyed by the compound's
/// own name (which is the one name slot the wire format carries).
pub open spec fn nbt_canonical(v: NbtView) -> bool
    decreases v, 1int,
{
    match v {
        NbtView::Compound(c) => compound_canonical(c),
        NbtView::List(l) => elems_canonical(l.elems),
        _ => true,
    }
}

/// Every list element is canonical.
pub open spec fn elems_canonical(s: Seq<NbtView>) -> bool
    decreases s, 2int,
{
    if s.len() == 0 {
        true
    } else {
        &&& nbt_canonical(s[0])
        &&& elems_canonical(s.subrange(1, s.len() as int))
    }
}

/// Every property value is canonical and every compound-valued property
/// is keyed by the compound's name.
pub open spec fn props_canonical(s: Seq<(Seq<u8>, NbtView)>) -> bool
    decreases s, 2int,
{
    if s.len() == 0 {
        true
    } else {
        &&& nbt_canonical(s[0].1)
        &&& (s[0].1 matches NbtView::Compound(c) ==> c.name == s[0].0)
        &&& props_canonical(s.subrange(1, s.len() as int))
    }
}

/// A compound is canonical: unique keys, canonical values, and
/// compound-valued properties keyed by their own name.
pub open spec fn compound_canonical(c: CompoundView) -> bool
    decreases c, 2int,
{
    &&& keys_unique(c.props)
    &&& props_canonical(c.props)
}

// ---------------------------------------------------------------------
// The wire form (spec encoders)
// ---------------------------------------------------------------------

/// The payload bytes of a value (what follows its tag byte and, for
/// compound properties, stands in place of name and payload at once).
pub open spec fn payload_enc(v: NbtView) -> Seq<u8>
    decreases v, 1int,
{
    match v {
        NbtView::Compound(c) => named_enc(c),
        NbtView::Byte(x) => seq![u8_of_i8(x)],
        NbtView::Short(x) => u16_be(u16_of_i16(x)),
        NbtView::Int(x) => u32_be(u32_of_i32(x)),
        NbtView::Long(x) => u64_be(u64_of_i64(x)),
        NbtView::Float(b) => u32_be(b),
        NbtView::Double(b) => u64_be(b),
        NbtView::ByteArray(s) => u32_be(s.len() as u32) + i8s_bytes(s),
        NbtView::String(s) => ushort_string_enc(s),
        NbtView::List(l) => seq![l.etag] + u32_be(l.elems.len() as u32) + elems_enc(l.elems),
        NbtView::IntArray(s) => u32_be(s.len() as u32) + i32s_bytes(s),
        NbtView::LongArray(s) => u32_be(s.len() as u32) + i64s_bytes(s),
    }
}

/// A named compound on the wire: name string, properties, `End` byte.
pub open spec fn named_enc(c: CompoundView) -> Seq<u8>
    decreases c, 2int,
{
    ushort_string_enc(c.name) + props_enc(c.props) + seq![TAG_END]
}

/// The properties of a compound, in order.
pub open spec fn props_enc(s: Seq<(Seq<u8>, NbtView)>) -> Seq<u8>
    decreases s, 2int,
{
    if s.len() == 0 {
        Seq::empty()
    } else {
        prop_enc(s[0].0, s[0].1) + props_enc(s.subrange(1, s.len() as int))
    }
}

/// One property: tag byte, then for a compound value the compound's own
/// name and body, otherwise the property name and the payload.
pub open spec fn prop_enc(k: Seq<u8>, v: NbtView) -> Seq<u8>
    decreases v, 2int,
{
    match v {
        NbtView::Compound(c) => seq![TAG_COMPOUND] + named_enc(c),
        _ => seq![nbt_tag(v)] + ushort_string_enc(k) + payload_enc(v),
    }
}

/// The elements of a homogeneous list, in order.
pub open spec fn elems_enc(s: Seq<NbtView>) -> Seq<u8>
    decreases s, 2int,
{
    if s.len() == 0 {
        Seq::empty()
    } else {
        payload_enc(s[0]) + elems_enc(s.subrange(1, s.len() as int))
    }
}

/// The bytes of a signed byte array.
pub open spec fn i8s_bytes(s: Seq<i8>) -> Seq<u8> {
    s.map_values(|x: i8| u8_of_i8(x))
}

/// The bytes of a signed 32-bit array, each element big-endian.
pub open spec fn i32s_bytes(s: Seq<i32>) -> Seq<u8>
    decreases s,
{
    if s.len() == 0 {
        Seq::empty()
    } else {
        u32_be(u32_of_i32(s[0])) + i32s_bytes(s.subrange(1, s.len() as int))
    }
}

/// The bytes of a signed 64-bit array, each element big-endian.
pub open spec fn i64s_bytes(s: Seq<i64>) -> Seq<u8>
    decreases s,
{
    if s.len() == 0 {
        Seq::empty()
    } else {
        u64_be(u64_of_i64(s[0])) + i64s_bytes(s.subrange(1, s.len() as int))
    }
}

/// A whole NBT document: the compound tag byte, then the named compound.
pub open spec fn compound_enc(c: CompoundView) -> Seq<u8> {
    seq![TAG_COMPOUND] + named_enc(c)
}

// ---------------------------------------------------------------------
// The property map
// ---------------------------------------------------------------------

/// The index of the first property named `k`, or -1.
pub open spec fn find_key(s: Seq<(Seq<u8>, NbtView)>, k: Seq<u8>) -> int
    decreases s,
{
    if s.len() == 0 {
        -1
    } else if s[0].0 == k {
        0
    } else {
        let r = find_key(s.subrange(1, s.len() as int), k);
        if r < 0 {
            -1
        } else {
            r + 1
        }
    }
}

/// Insert a property: replace the first property of that name in place,
/// or append a new one.
pub open spec fn props_set(
    s: Seq<(Seq<u8>, NbtView)>,
    k: Seq<u8>,
    v: NbtView,
) -> Seq<(Seq<u8>, NbtView)> {
    let i = find_key(s, k);
    if i < 0 {
        s.push((k, v))
    } else {
        s.update(i, (k, v))
    }
}

/// Look a property up by name.
pub open spec fn props_lookup(s: Seq<(Seq<u8>, NbtView)>, k: Seq<u8>) -> Option<NbtView> {
    let i = find_key(s, k);
    if i < 0 {
        Option::None
    } else {
        Option::Some(s[i].1)
    }
}

/// `find_key` returns a genuine first occurrence: a valid index of a
/// property named `k` preceded by none, or -1 when no property is
/// named `k`.
pub proof fn lemma_find_key(s: Seq<(Seq<u8>, NbtView)>, k: Seq<u8>)
    ensures
        find_key(s, k) >= 0 ==> find_key(s, k) < s.len() && s[find_key(s, k)].0 == k,
        find_key(s, k) >= 0 ==> forall|j: int| 0 <= j < find_key(s, k) ==> s[j].0 != k,
        find_key(s, k) < 0 ==> forall|j: int| 0 <= j < s.len() ==> s[j].0 != k,
    decreases s,
{
    if s.len() > 0 && s[0].0 != k {
        let t = s.subrange(1, s.len() as int);
        lemma_find_key(t, k);
        if find_key(t, k) >= 0 {
            assert forall|j: int| 0 <= j < find_key(s, k) implies s[j].0 != k by {
                if j > 0 {
                    assert(s[j] == t[j - 1]);
                }
            }
        } else {
            assert forall|j: int| 0 <= j < s.len() implies s[j].0 != k by {
                if j > 0 {
                    assert(s[j] == t[j - 1]);
                }
            }
        }
    }
}

// ---------------------------------------------------------------------
// Spec decoders
//
// Each decoder takes the remaining input and yields the decoded model
// and the number of bytes consumed, or the error the wire data forces.
// The inner range tests on consumed counts always pass (decoders only
// consume what exists); they make termination evident.
// ---------------------------------------------------------------------

/// Decode the payload of a value with tag byte `tag` (1 to 12); for a
/// compound this is its name string and body.
pub open spec fn payload_dec(s: Seq<u8>, tag: u8) -> Result<(NbtView, int), ProtoError>
    decreases s.len(), 0int, 1int,
{
    if tag == TAG_BYTE {
        match u8_dec(s) {
            Ok((b, n)) => Ok((NbtView::Byte(i8_of_u8(b)), n)),
            Err(e) => Err(e),
        }
    } else if tag == TAG_SHORT {
        match u16_dec(s) {
            Ok((b, n)) => Ok((NbtView::Short(i16_of_u16(b)), n)),
            Err(e) => Err(e),
        }
    } else if tag == TAG_INT {
        match u32_dec(s) {
            Ok((b, n)) => Ok((NbtView::Int(i32_of_u32(b)), n)),
            Err(e) => Err(e),
        }
    } else if tag == TAG_LONG {
        match u64_dec(s) {
            Ok((b, n)) => Ok((NbtView::Long(i64_of_u64(b)), n)),
            Err(e) => Err(e),
        }
    } else if tag == TAG_FLOAT {
        match u32_dec(s) {
            Ok((b, n)) => Ok((NbtView::Float(b), n)),
            Err(e) => Err(e),
        }
    } else if tag == TAG_DOUBLE {
        match u64_dec(s) {
            Ok((b, n)) => Ok((NbtView::Double(b), n)),
            Err(e) => Err(e),
        }
    } else if tag == TAG_BYTE_ARRAY {
        match u32_dec(s) {
            Ok((lv, _)) => {
                let len = i32_of_u32(lv) as int;
                if len < 0 {
                    Err(ProtoError::MalformedFrame)
                } else if 4 + len > s.len() {
                    Err(ProtoError::TransportError)
                } else {
                    Ok((NbtView::ByteArray(i8s_of(s.subrange(4, 4 + len))), 4 + len))
                }
            },
            Err(e) => Err(e),
        }
    } else if tag == TAG_STRING {
        match ushort_string_dec(s) {
            Ok((b, n)) => Ok((NbtView::String(b), n)),
            Err(e) => Err(e),
        }
    } else if tag == TAG_LIST {
        if s.len() < 5 {
            Err(ProtoError::TransportError)
        } else {
            let etag = s[0];
            if !list_etag_ok(etag) {
                Err(ProtoError::MalformedFrame)
            } else {
                match u32_dec(s.subrange(1, s.len() as int)) {
                    Ok((lv, _)) => {
                        let len = i32_of_u32(lv) as int;
                        if len < 0 {
                            Err(ProtoError::MalformedFrame)
                        } else {
                            match elems_dec(s.skip(5), etag, len, Seq::empty()) {
                                Ok((es, m)) => Ok(
                                    (NbtView::List(NbtListView { etag, elems: es }), 5 + m),
                                ),
                                Err(e) => Err(e),
                            }
                        }
                    },
                    Err(e) => Err(e),
                }
            }
        }
    } else if tag == TAG_COMPOUND {
        match named_dec(s) {
            Ok((c, n)) => Ok((NbtView::Compound(c), n)),
            Err(e) => Err(e),
        }
    } else if tag == TAG_INT_ARRAY {
        match u32_dec(s) {
            Ok((lv, _)) => {
                let len = i32_of_u32(lv) as int;
                if len < 0 {
                    Err(ProtoError::MalformedFrame)
                } else {
                    match i32s_dec(s.skip(4), len, Seq::empty()) {
                        Ok((es, m)) => Ok((NbtView::IntArray(es), 4 + m)),
                        Err(e) => Err(e),
                    }
                }
            },
            Err(e) => Err(e),
        }
    } else if tag == TAG_LONG_ARRAY {
        match u32_dec(s) {
            Ok((lv, _)) => {
                let len = i32_of_u32(lv) as int;
                if len < 0 {
                    Err(ProtoError::MalformedFrame)
                } else {
                    match i64s_dec(s.skip(4), len, Seq::empty()) {
                        Ok((es, m)) => Ok((NbtView::LongArray(es), 4 + m)),
                        Err(e) => Err(e),
                    }
                }
            },
            Err(e) => Err(e),
        }
    } else {
        Err(ProtoError::MalformedFrame)
    }
}

/// Decode a named compound: name string, properties, `End` byte.
pub open spec fn named_dec(s: Seq<u8>) -> Result<(CompoundView, int), ProtoError>
    decreases s.len(), 0int, 0int,
{
    match ushort_string_dec(s) {
        Ok((name, n1)) => if 2 <= n1 <= s.len() {
            match props_dec(s.skip(n1), Seq::empty()) {
                Ok((ps, n2)) => Ok((CompoundView { name, props: ps }, n1 + n2)),
                Err(e) => Err(e),
            }
        } else {
            Err(ProtoError::MalformedFrame)
        },
        Err(e) => Err(e),
    }
}

/// Decode compound properties up to and including the `End` byte,
/// inserting each into `acc` (latest value wins).
pub open spec fn props_dec(
    s: Seq<u8>,
    acc: Seq<(Seq<u8>, NbtView)>,
) -> Result<(Seq<(Seq<u8>, NbtView)>, int), ProtoError>
    decreases s.len(), 1int, 0int,
{
    if s.len() < 1 {
        Err(ProtoError::TransportError)
    } else if s[0] == TAG_END {
        Ok((acc, 1))
    } else if s[0] == TAG_COMPOUND {
        match named_dec(s.skip(1)) {
            Ok((c, n)) => if 0 <= n <= s.len() - 1 {
                match props_dec(s.skip(1 + n), props_set(acc, c.name, NbtView::Compound(c))) {
                    Ok((ps, m)) => Ok((ps, 1 + n + m)),
                    Err(e) => Err(e),
                }
            } else {
                Err(ProtoError::MalformedFrame)
            },
            Err(e) => Err(e),
        }
    } else if 1 <= s[0] <= 12 {
        match ushort_string_dec(s.skip(1)) {
            Ok((k, n1)) => if 2 <= n1 <= s.len() - 1 {
                match payload_dec(s.skip(1 + n1), s[0]) {
                    Ok((v, n2)) => if 0 <= n2 <= s.len() - 1 - n1 {
                        match props_dec(s.skip(1 + n1 + n2), props_set(acc, k, v)) {
                            Ok((ps, m)) => Ok((ps, 1 + n1 + n2 + m)),
                            Err(e) => Err(e),
                        }
                    } else {
                        Err(ProtoError::MalformedFrame)
                    },
                    Err(e) => Err(e),
                }
            } else {
                Err(ProtoError::MalformedFrame)
            },
            Err(e) => Err(e),
        }
    } else {
        Err(ProtoError::MalformedFrame)
    }
}

/// Decode `n` homogeneous list elements of tag `etag`.
pub open spec fn elems_dec(s: Seq<u8>, etag: u8, n: int, acc: Seq<NbtView>) -> Result<
    (Seq<NbtView>, int),
    ProtoError,
>
    decreases s.len(), n, 2int,
{
    if n <= 0 {
        Ok((acc, 0))
    } else {
        match payload_dec(s, etag) {
            Ok((v, m)) => if 1 <= m <= s.len() {
                match elems_dec(s.skip(m), etag, n - 1, acc.push(v)) {
                    Ok((es, mm)) => Ok((es, m + mm)),
                    Err(e) => Err(e),
                }
            } else {
                Err(ProtoError::MalformedFrame)
            },
            Err(e) => Err(e),
        }
    }
}

/// Bytes reinterpreted as signed bytes.
pub open spec fn i8s_of(s: Seq<u8>) -> Seq<i8> {
    s.map_values(|x: u8| i8_of_u8(x))
}

/// Decode `n` big-endian signed 32-bit values.
pub open spec fn i32s_dec(s: Seq<u8>, n: int, acc: Seq<i32>) -> Result<(Seq<i32>, int), ProtoError>
    decreases n,
{
    if n <= 0 {
        Ok((acc, 0))
    } else {
        match u32_dec(s) {
            Ok((v, _)) => match i32s_dec(s.skip(4), n - 1, acc.push(i32_of_u32(v))) {
                Ok((es, m)) => Ok((es, 4 + m)),
                Err(e) => Err(e),
            },
            Err(e) => Err(e),
        }
    }
}

/// Decode `n` big-endian signed 64-bit values.
pub open spec fn i64s_dec(s: Seq<u8>, n: int, acc: Seq<i64>) -> Result<(Seq<i64>, int), ProtoError>
    decreases n,
{
    if n <= 0 {
        Ok((acc, 0))
    } else {
        match u64_dec(s) {
            Ok((v, _)) => match i64s_dec(s.skip(8), n - 1, acc.push(i64_of_u64(v))) {
                Ok((es, m)) => Ok((es, 8 + m)),
                Err(e) => Err(e),
            },
            Err(e) => Err(e),
        }
    }
}

/// Decode a whole NBT document: the byte 10, then a named compound.
pub open spec fn compound_dec(s: Seq<u8>) -> Result<(CompoundView, int), ProtoError> {
    if s.len() < 1 {
        Err(ProtoError::TransportError)
    } else if s[0] != TAG_COMPOUND {
        Err(ProtoError::MalformedFrame)
    } else {
        match named_dec(s.skip(1)) {
            Ok((c, n)) => Ok((c, 1 + n)),
            Err(e) => Err(e),
        }
    }
}

// ---------------------------------------------------------------------
// Helper lemmas about the recursive definitions
// ---------------------------------------------------------------------

/// Appending one property appends its encoding.
pub proof fn lemma_props_enc_push(s: Seq<(Seq<u8>, NbtView)>, k: Seq<u8>, v: NbtView)
    ensures
        props_enc(s.push((k, v))) == props_enc(s) + prop_enc(k, v),
    decreases s,
{
    let t = s.push((k, v));
    if s.len() == 0 {
        assert(t[0] == (k, v));
        assert(t.subrange(1, t.len() as int) =~= Seq::<(Seq<u8>, NbtView)>::empty());
        assert(props_enc(t.subrange(1, t.len() as int)) == Seq::<u8>::empty());
        assert(props_enc(t) == prop_enc(k, v) + Seq::<u8>::empty());
        assert(props_enc(t) =~= props_enc(s) + prop_enc(k, v));
    } else {
        assert(t[0] == s[0]);
        assert(t.subrange(1, t.len() as int) =~= s.subrange(1, s.len() as int).push((k, v)));
        lemma_props_enc_push(s.subrange(1, s.len() as int), k, v);
        assert(props_enc(t) == prop_enc(s[0].0, s[0].1) + (props_enc(s.subrange(1, s.len() as int))
            + prop_enc(k, v)));
        assert(props_enc(t) =~= props_enc(s) + prop_enc(k, v));
    }
}

/// Appending one list element appends its encoding.
pub proof fn lemma_elems_enc_push(s: Seq<NbtView>, v: NbtView)
    ensures
        elems_enc(s.push(v)) == elems_enc(s) + payload_enc(v),
    decreases s,
{
    let t = s.push(v);
    if s.len() == 0 {
        assert(t[0] == v);
        assert(t.subrange(1, t.len() as int) =~= Seq::<NbtView>::empty());
        assert(elems_enc(t.subrange(1, t.len() as int)) == Seq::<u8>::empty());
        assert(elems_enc(t) == payload_enc(v) + Seq::<u8>::empty());
        assert(elems_enc(t) =~= elems_enc(s) + payload_enc(v));
    } else {
        assert(t[0] == s[0]);
        assert(t.subrange(1, t.len() as int) =~= s.subrange(1, s.len() as int).push(v));
        lemma_elems_enc_push(s.subrange(1, s.len() as int), v);
        assert(elems_enc(t) == payload_enc(s[0]) + (elems_enc(s.subrange(1, s.len() as int))
            + payload_enc(v)));
        assert(elems_enc(t) =~= elems_enc(s) + payload_enc(v));
    }
}

/// Appending one element appends its big-endian bytes.
pub proof fn lemma_i32s_bytes_push(s: Seq<i32>, x: i32)
    ensures
        i32s_bytes(s.push(x)) == i32s_bytes(s) + u32_be(u32_of_i32(x)),
    decreases s,
{
    let t = s.push(x);
    if s.len() == 0 {
        assert(t[0] == x);
        assert(t.subrange(1, t.len() as int) =~= Seq::<i32>::empty());
        assert(i32s_bytes(t.subrange(1, t.len() as int)) == Seq::<u8>::empty());
        assert(i32s_bytes(t) == u32_be(u32_of_i32(x)) + Seq::<u8>::empty());
        assert(i32s_bytes(t) =~= i32s_bytes(s) + u32_be(u32_of_i32(x)));
    } else {
        assert(t[0] == s[0]);
        assert(t.subrange(1, t.len() as int) =~= s.subrange(1, s.len() as int).push(x));
        lemma_i32s_bytes_push(s.subrange(1, s.len() as int), x);
        assert(i32s_bytes(t) == u32_be(u32_of_i32(s[0])) + (i32s_bytes(
            s.subrange(1, s.len() as int),
        ) + u32_be(u32_of_i32(x))));
        assert(i32s_bytes(t) =~= i32s_bytes(s) + u32_be(u32_of_i32(x)));
    }
}

/// Appending one element appends its big-endian bytes.
pub proof fn lemma_i64s_bytes_push(s: Seq<i64>, x: i64)
    ensures
        i64s_bytes(s.push(x)) == i64s_bytes(s) + u64_be(u64_of_i64(x)),
    decreases s,
{
    let t = s.push(x);
    if s.len() == 0 {
        assert(t[0] == x);
        assert(t.subrange(1, t.len() as int) =~= Seq::<i64>::empty());
        assert(i64s_bytes(t.subrange(1, t.len() as int)) == Seq::<u8>::empty());
        assert(i64s_bytes(t) == u64_be(u64_of_i64(x)) + Seq::<u8>::empty());
        assert(i64s_bytes(t) =~= i64s_bytes(s) + u64_be(u64_of_i64(x)));
    } else {
        assert(t[0] == s[0]);
        assert(t.subrange(1, t.len() as int) =~= s.subrange(1, s.len() as int).push(x));
        lemma_i64s_bytes_push(s.subrange(1, s.len() as int), x);
        assert(i64s_bytes(t) == u64_be(u64_of_i64(s[0])) + (i64s_bytes(
            s.subrange(1, s.len() as int),
        ) + u64_be(u64_of_i64(x))));
        assert(i64s_bytes(t) =~= i64s_bytes(s) + u64_be(u64_of_i64(x)));
    }
}

/// What the model of a property sequence holds, element by element.
pub proof fn lemma_props_view(s: Seq<(Vec<u8>, Nbt)>)
    ensures
        props_view(s).len() == s.len(),
        forall|i: int|
            0 <= i < s.len() ==> #[trigger] props_view(s)[i] == (s[i].0@, nbt_view(s[i].1)),
    decreases s,
{
    if s.len() > 0 {
        let t = s.subrange(0, s.len() - 1);
        lemma_props_view(t);
        assert(forall|i: int| 0 <= i < t.len() ==> t[i] == s[i]);
    }
}

/// What the model of a compound sequence holds, element by element.
pub proof fn lemma_compounds_view(s: Seq<CompoundNbt>)
    ensures
        compounds_view(s).len() == s.len(),
        forall|i: int|
            0 <= i < s.len() ==> #[trigger] compounds_view(s)[i] == NbtView::Compound(
                compound_view(s[i]),
            ),
    decreases s,
{
    if s.len() > 0 {
        let t = s.subrange(0, s.len() - 1);
        lemma_compounds_view(t);
        assert(forall|i: int| 0 <= i < t.len() ==> t[i] == s[i]);
    }
}

/// Well-formedness of a list distributes to each element.
pub proof fn lemma_elems_wf_index(s: Seq<NbtView>, etag: u8, i: int)
    requires
        elems_wf(s, etag),
        0 <= i < s.len(),
    ensures
        nbt_wf(s[i]),
        nbt_tag(s[i]) == etag,
    decreases i,
{
    if i > 0 {
        lemma_elems_wf_index(s.subrange(1, s.len() as int), etag, i - 1);
    }
}

/// Well-formedness of a property sequence distributes to each property.
pub proof fn lemma_props_wf_index(s: Seq<(Seq<u8>, NbtView)>, i: int)
    requires
        props_wf(s),
        0 <= i < s.len(),
    ensures
        s[i].0.len() <= 0xffff,
        nbt_wf(s[i].1),
    decreases i,
{
    if i > 0 {
        lemma_props_wf_index(s.subrange(1, s.len() as int), i - 1);
    }
}

// ---------------------------------------------------------------------
// Exec writers
// ---------------------------------------------------------------------

/// The tag byte of a value.
pub fn nbt_tag_of(v: &Nbt) -> (r: u8)
    ensures
        r == nbt_tag(v@),
{
    match v {
        Nbt::Compound(_) => TAG_COMPOUND,
        Nbt::Byte(_) => TAG_BYTE,
        Nbt::Short(_) => TAG_SHORT,
        Nbt::Int(_) => TAG_INT,
        Nbt::Long(_) => TAG_LONG,
        Nbt::Float(_) => TAG_FLOAT,
        Nbt::Double(_) => TAG_DOUBLE,
        Nbt::ByteArray(_) => TAG_BYTE_ARRAY,
        Nbt::String(_) => TAG_STRING,
        Nbt::List(_) => TAG_LIST,
        Nbt::IntArray(_) => TAG_INT_ARRAY,
        Nbt::LongArray(_) => TAG_LONG_ARRAY,
    }
}

/// Append one tag byte.
pub fn write_tagtype(out: &mut Vec<u8>, tt: u8)
    ensures
        final(out)@ == old(out)@ + seq![tt],
{
    write_ubyte(out, tt);
}

/// Append the payload of one value (for a compound: name and body).
pub fn write_nbt_payload(out: &mut Vec<u8>, v: &Nbt)
    requires
        nbt_wf(v@),
    ensures
        final(out)@ == old(out)@ + payload_enc(v@),
    decreases v,
{
    match v {
        Nbt::Byte(x) => {
            write_ibyte(out, *x);
        },
        Nbt::Short(x) => {
            write_short(out, *x);
        },
        Nbt::Int(x) => {
            write_int(out, *x);
        },
        Nbt::Long(x) => {
            write_long(out, *x);
        },
        Nbt::Float(b) => {
            write_float_bits(out, *b);
        },
        Nbt::Double(b) => {
            write_double_bits(out, *b);
        },
        Nbt::String(sv) => {
            write_ushort_string(out, sv);
        },
        Nbt::ByteArray(a) => {
            write_int(out, a.len() as i32);
            let ghost mid = out@;
            let mut i: usize = 0;
            while i < a.len()
                invariant
                    i <= a@.len(),
                    out@ == mid + i8s_bytes(a@.take(i as int)),
                decreases a@.len() - i,
            {
                write_ibyte(out, a[i]);
                i = i + 1;
                proof {
                    assert(i8s_bytes(a@.take(i as int)) =~= i8s_bytes(a@.take(i - 1)).push(
                        u8_of_i8(a@[i - 1]),
                    ));
                    assert(out@ =~= mid + i8s_bytes(a@.take(i as int)));
                }
            }
            proof {
                assert(a@.take(a@.len() as int) =~= a@);
                assert(out@ =~= old(out)@ + payload_enc(v@));
            }
        },
        Nbt::IntArray(a) => {
            write_int(out, a.len() as i32);
            let ghost mid = out@;
            let mut i: usize = 0;
            while i < a.len()
                invariant
                    i <= a@.len(),
                    out@ == mid + i32s_bytes(a@.take(i as int)),
                decreases a@.len() - i,
            {
                write_int(out, a[i]);
                i = i + 1;
                proof {
                    assert(a@.take(i as int).drop_last() =~= a@.take(i - 1));
                    lemma_i32s_bytes_push(a@.take(i - 1), a@[i - 1]);
                    assert(a@.take(i as int) =~= a@.take(i - 1).push(a@[i - 1]));
                    assert(out@ =~= mid + i32s_bytes(a@.take(i as int)));
                }
            }
            proof {
                assert(a@.take(a@.len() as int) =~= a@);
                assert(out@ =~= old(out)@ + payload_enc(v@));
            }
        },
        Nbt::LongArray(a) => {
            write_int(out, a.len() as i32);
            let ghost mid = out@;
            let mut i: usize = 0;
            while i < a.len()
                invariant
                    i <= a@.len(),
                    out@ == mid + i64s_bytes(a@.take(i as int)),
                decreases a@.len() - i,
            {
                write_long(out, a[i]);
                i = i + 1;
                proof {
                    lemma_i64s_bytes_push(a@.take(i - 1), a@[i - 1]);
                    assert(a@.take(i as int) =~= a@.take(i - 1).push(a@[i - 1]));
                    assert(out@ =~= mid + i64s_bytes(a@.take(i as int)));
                }
            }
            proof {
                assert(a@.take(a@.len() as int) =~= a@);
                assert(out@ =~= old(out)@ + payload_enc(v@));
            }
        },
        Nbt::List(l) => {
            write_nbt_list(out, l);
        },
        Nbt::Compound(c) => {
            write_compound_nbt_no_tagtype(out, c);
        },
    }
}

/// Append a list payload: element tag byte, element count, elements.
fn write_nbt_list(out: &mut Vec<u8>, l: &NbtList)
    requires
        nbt_wf(NbtView::List(l@)),
    ensures
        final(out)@ == old(out)@ + payload_enc(NbtView::List(l@)),
    decreases l,
{
    let ghost lv = list_view(*l);
    match l {
        NbtList::Byte(ev) => {
            write_tagtype(out, TAG_BYTE);
            write_int(out, ev.len() as i32);
            let ghost mid = out@;
            let mut i: usize = 0;
            while i < ev.len()
                invariant
                    i <= ev@.len(),
                    lv == list_view(*l),
                    l is Byte && l->Byte_0 == *ev,
                    out@ == mid + elems_enc(lv.elems.take(i as int)),
                decreases ev@.len() - i,
            {
                write_ibyte(out, ev[i]);
                i = i + 1;
                proof {
                    lemma_elems_enc_push(lv.elems.take(i - 1), lv.elems[i - 1]);
                    assert(lv.elems.take(i as int) =~= lv.elems.take(i - 1).push(
                        lv.elems[i - 1],
                    ));
                    assert(out@ =~= mid + elems_enc(lv.elems.take(i as int)));
                }
            }
            proof {
                assert(lv.elems.take(lv.elems.len() as int) =~= lv.elems);
                assert(out@ =~= old(out)@ + payload_enc(NbtView::List(lv)));
            }
        },
        NbtList::Short(ev) => {
            write_tagtype(out, TAG_SHORT);
            write_int(out, ev.len() as i32);
            let ghost mid = out@;
            let mut i: usize = 0;
            while i < ev.len()
                invariant
                    i <= ev@.len(),
                    lv == list_view(*l),
                    l is Short && l->Short_0 == *ev,
                    out@ == mid + elems_enc(lv.elems.take(i as int)),
                decreases ev@.len() - i,
            {
                write_short(out, ev[i]);
                i = i + 1;
                proof {
                    lemma_elems_enc_push(lv.elems.take(i - 1), lv.elems[i - 1]);
                    assert(lv.elems.take(i as int) =~= lv.elems.take(i - 1).push(
                        lv.elems[i - 1],
                    ));
                    assert(out@ =~= mid + elems_enc(lv.elems.take(i as int)));
                }
            }
            proof {
                assert(lv.elems.take(lv.elems.len() as int) =~= lv.elems);
                assert(out@ =~= old(out)@ + payload_enc(NbtView::List(lv)));
            }
        },
        NbtList::Int(ev) => {
            write_tagtype(out, TAG_INT);
            write_int(out, ev.len() as i32);
            let ghost mid = out@;
            let mut i: usize = 0;
            while i < ev.len()
                invariant
                    i <= ev@.len(),
                    lv == list_view(*l),
                    l is Int && l->Int_0 == *ev,
                    out@ == mid + elems_enc(lv.elems.take(i as int)),
                decreases ev@.len() - i,
            {
                write_int(out, ev[i]);
                i = i + 1;
                proof {
                    lemma_elems_enc_push(lv.elems.take(i - 1), lv.elems[i - 1]);
                    assert(lv.elems.take(i as int) =~= lv.elems.take(i - 1).push(
                        lv.elems[i - 1],
                    ));
                    assert(out@ =~= mid + elems_enc(lv.elems.take(i as int)));
                }
            }
            proof {
                assert(lv.elems.take(lv.elems.len() as int) =~= lv.elems);
                assert(out@ =~= old(out)@ + payload_enc(NbtView::List(lv)));
            }
        },
        NbtList::Long(ev) => {
            write_tagtype(out, TAG_LONG);
            write_int(out, ev.len() as i32);
            let ghost mid = out@;
            let mut i: usize = 0;
            while i < ev.len()
                invariant
                    i <= ev@.len(),
                    lv == list_view(*l),
                    l is Long && l->Long_0 == *ev,
                    out@ == mid + elems_enc(lv.elems.take(i as int)),
                decreases ev@.len() - i,
            {
                write_long(out, ev[i]);
                i = i + 1;
                proof {
                    lemma_elems_enc_push(lv.elems.take(i - 1), lv.elems[i - 1]);
                    assert(lv.elems.take(i as int) =~= lv.elems.take(i - 1).push(
                        lv.elems[i - 1],
                    ));
                    assert(out@ =~= mid + elems_enc(lv.elems.take(i as int)));
                }
            }
            proof {
                assert(lv.elems.take(lv.elems.len() as int) =~= lv.elems);
                assert(out@ =~= old(out)@ + payload_enc(NbtView::List(lv)));
            }
        },
        NbtList::Float(ev) => {
            write_tagtype(out, TAG_FLOAT);
            write_int(out, ev.len() as i32);
            let ghost mid = out@;
            let mut i: usize = 0;
            while i < ev.len()
                invariant
                    i <= ev@.len(),
                    lv == list_view(*l),
                    l is Float && l->Float_0 == *ev,
                    out@ == mid + elems_enc(lv.elems.take(i as int)),
                decreases ev@.len() - i,
            {
                write_float_bits(out, ev[i]);
                i = i + 1;
                proof {
                    lemma_elems_enc_push(lv.elems.take(i - 1), lv.elems[i - 1]);
                    assert(lv.elems.take(i as int) =~= lv.elems.take(i - 1).push(
                        lv.elems[i - 1],
                    ));
                    assert(out@ =~= mid + elems_enc(lv.elems.take(i as int)));
                }
            }
            proof {
                assert(lv.elems.take(lv.elems.len() as int) =~= lv.elems);
                assert(out@ =~= old(out)@ + payload_enc(NbtView::List(lv)));
            }
        },
        NbtList::Double(ev) => {
            write_tagtype(out, TAG_DOUBLE);
            write_int(out, ev.len() as i32);
            let ghost mid = out@;
            let mut i: usize = 0;
            while i < ev.len()
                invariant
                    i <= ev@.len(),
                    lv == list_view(*l),
                    l is Double && l->Double_0 == *ev,
                    out@ == mid + elems_enc(lv.elems.take(i as int)),
                decreases ev@.len() - i,
            {
                write_double_bits(out, ev[i]);
                i = i + 1;
                proof {
                    lemma_elems_enc_push(lv.elems.take(i - 1), lv.elems[i - 1]);
                    assert(lv.elems.take(i as int) =~= lv.elems.take(i - 1).push(
                        lv.elems[i - 1],
                    ));
                    assert(out@ =~= mid + elems_enc(lv.elems.take(i as int)));
                }
            }
            proof {
                assert(lv.elems.take(lv.elems.len() as int) =~= lv.elems);
                assert(out@ =~= old(out)@ + payload_enc(NbtView::List(lv)));
            }
        },
        NbtList::String(ev) => {
            write_tagtype(out, TAG_STRING);
            write_int(out, ev.len() as i32);
            let ghost mid = out@;
            let mut i: usize = 0;
            while i < ev.len()
                invariant
                    i <= ev@.len(),
                    lv == list_view(*l),
                    l is String && l->String_0 == *ev,
                    nbt_wf(NbtView::List(lv)),
                    out@ == mid + elems_enc(lv.elems.take(i as int)),
                decreases ev@.len() - i,
            {
                proof {
                    lemma_elems_wf_index(lv.elems, TAG_STRING, i as int);
                }
                write_ushort_string(out, &ev[i]);
                i = i + 1;
                proof {
                    lemma_elems_enc_push(lv.elems.take(i - 1), lv.elems[i - 1]);
                    assert(lv.elems.take(i as int) =~= lv.elems.take(i - 1).push(
                        lv.elems[i - 1],
                    ));
                    assert(out@ =~= mid + elems_enc(lv.elems.take(i as int)));
                }
            }
            proof {
                assert(lv.elems.take(lv.elems.len() as int) =~= lv.elems);
                assert(out@ =~= old(out)@ + payload_enc(NbtView::List(lv)));
            }
        },
        NbtList::Compound(ev) => {
            proof {
                lemma_compounds_view(ev@);
            }
            write_tagtype(out, TAG_COMPOUND);
            write_int(out, ev.len() as i32);
            let ghost mid = out@;
            let mut i: usize = 0;
            while i < ev.len()
                invariant
                    i <= ev@.len(),
                    lv == list_view(*l),
                    l is Compound && l->Compound_0 == *ev,
                    nbt_wf(NbtView::List(lv)),
                    out@ == mid + elems_enc(lv.elems.take(i as int)),
                decreases ev@.len() - i,
            {
                proof {
                    lemma_compounds_view(ev@);
                    lemma_elems_wf_index(lv.elems, TAG_COMPOUND, i as int);
                }
                write_compound_nbt_no_tagtype(out, &ev[i]);
                i = i + 1;
                proof {
                    lemma_elems_enc_push(lv.elems.take(i - 1), lv.elems[i - 1]);
                    assert(lv.elems.take(i as int) =~= lv.elems.take(i - 1).push(
                        lv.elems[i - 1],
                    ));
                    assert(out@ =~= mid + elems_enc(lv.elems.take(i as int)));
                }
            }
            proof {
                assert(lv.elems.take(lv.elems.len() as int) =~= lv.elems);
                assert(out@ =~= old(out)@ + payload_enc(NbtView::List(lv)));
            }
        },
    }
}

/// Append a named compound without its leading tag byte: name string,
/// properties in order, `End` byte.
pub fn write_compound_nbt_no_tagtype(out: &mut Vec<u8>, nbt: &CompoundNbt)
    requires
        compound_wf(nbt@),
    ensures
        final(out)@ == old(out)@ + named_enc(nbt@),
    decreases nbt,
{
    write_ushort_string(out, &nbt.name);
    let ghost mid = out@;
    let ghost pv = props_view(nbt.props@);
    proof {
        lemma_props_view(nbt.props@);
    }
    let mut i: usize = 0;
    while i < nbt.props.len()
        invariant
            i <= nbt.props@.len(),
            pv == props_view(nbt.props@),
            props_wf(pv),
            pv.len() == nbt.props@.len(),
            forall|j: int| 0 <= j < nbt.props@.len() ==> #[trigger] pv[j] == (
                nbt.props@[j].0@,
                nbt_view(nbt.props@[j].1),
            ),
            out@ == mid + props_enc(pv.take(i as int)),
        decreases nbt.props@.len() - i,
    {
        proof {
            lemma_props_wf_index(pv, i as int);
        }
        let p = &nbt.props[i];
        match &p.1 {
            Nbt::Compound(cc) => {
                write_tagtype(out, TAG_COMPOUND);
                write_compound_nbt_no_tagtype(out, cc);
            },
            other => {
                write_tagtype(out, nbt_tag_of(other));
                write_ushort_string(out, &p.0);
                write_nbt_payload(out, other);
            },
        }
        i = i + 1;
        proof {
            lemma_props_enc_push(pv.take(i - 1), pv[i - 1].0, pv[i - 1].1);
            assert(pv.take(i as int) =~= pv.take(i - 1).push(pv[i - 1]));
            assert(out@ =~= mid + props_enc(pv.take(i as int)));
        }
    }
    write_tagtype(out, TAG_END);
    proof {
        assert(pv.take(pv.len() as int) =~= pv);
        assert(out@ =~= old(out)@ + named_enc(nbt@));
    }
}

/// Append a whole NBT document: the compound tag byte, then the named
/// compound.
pub fn write_compound_nbt(out: &mut Vec<u8>, nbt: &CompoundNbt)
    requires
        compound_wf(nbt@),
    ensures
        final(out)@ == old(out)@ + compound_enc(nbt@),
{
    write_tagtype(out, TAG_COMPOUND);
    write_compound_nbt_no_tagtype(out, nbt);
    proof {
        assert(out@ =~= old(out)@ + compound_enc(nbt@));
    }
}

// ---------------------------------------------------------------------
// The compound as a container
// ---------------------------------------------------------------------

/// Whether two byte strings hold the same bytes.
fn bytes_eq(a: &Vec<u8>, b: &Vec<u8>) -> (r: bool)
    ensures
        r == (a@ == b@),
{
    if a.len() != b.len() {
        return false;
    }
    let mut i: usize = 0;
    while i < a.len()
        invariant
            i <= a@.len(),
            a@.len() == b@.len(),
            forall|j: int| 0 <= j < i ==> a@[j] == b@[j],
        decreases a@.len() - i,
    {
        if a[i] != b[i] {
            return false;
        }
        i = i + 1;
    }
    proof {
        assert(a@ =~= b@);
    }
    true
}

/// A copy of a byte string.
fn clone_bytes(v: &Vec<u8>) -> (r: Vec<u8>)
    ensures
        r@ == v@,
{
    let mut r: Vec<u8> = Vec::new();
    let mut i: usize = 0;
    while i < v.len()
        invariant
            i <= v@.len(),
            r@ == v@.take(i as int),
        decreases v@.len() - i,
    {
        r.push(v[i]);
        i = i + 1;
        proof {
            assert(r@ =~= v@.take(i as int));
        }
    }
    proof {
        assert(v@.take(v@.len() as int) =~= v@);
    }
    r
}

/// Insert a property into a raw property sequence: replace the first
/// property of that name, or append.
fn props_insert(props: &mut Vec<(Vec<u8>, Nbt)>, k: Vec<u8>, v: Nbt)
    ensures
        props_view(final(props)@) == props_set(props_view(old(props)@), k@, nbt_view(v)),
{
    let ghost pv = props_view(old(props)@);
    proof {
        lemma_props_view(old(props)@);
        lemma_find_key(pv, k@);
    }
    let mut i: usize = 0;
    while i < props.len()
        invariant
            i <= props@.len(),
            *props == *old(props),
            pv == props_view(props@),
            pv.len() == props@.len(),
            forall|j: int| 0 <= j < props@.len() ==> #[trigger] pv[j] == (
                props@[j].0@,
                nbt_view(props@[j].1),
            ),
            forall|j: int| 0 <= j < i ==> props@[j].0@ != k@,
        decreases props@.len() - i,
    {
        let hit = bytes_eq(&props[i].0, &k);
        if hit {
            proof {
                lemma_find_key(pv, k@);
                assert(pv[i as int].0 == k@);
                let fk = find_key(pv, k@);
                assert(forall|j: int| 0 <= j < i ==> pv[j].0 != k@);
                assert(fk == i);
            }
            props.set(i, (k, v));
            proof {
                lemma_props_view(props@);
                assert(props_view(props@) =~= pv.update(i as int, (k@, nbt_view(v))));
            }
            return ;
        }
        i = i + 1;
    }
    proof {
        lemma_find_key(pv, k@);
        assert(find_key(pv, k@) < 0) by {
            lemma_find_key(pv, k@);
            if find_key(pv, k@) >= 0 {
                assert(pv[find_key(pv, k@)].0 == k@);
            }
        }
    }
    props.push((k, v));
    proof {
        lemma_props_view(props@);
        assert(props_view(props@) =~= pv.push((k@, nbt_view(v))));
    }
}

impl CompoundNbt {
    /// An empty compound of the given name.
    pub fn new(name: Vec<u8>) -> (r: CompoundNbt)
        ensures
            r@.name == name@,
            r@.props == Seq::<(Seq<u8>, NbtView)>::empty(),
    {
        CompoundNbt { name, props: Vec::new() }
    }

    /// Insert a property; on a repeated name the latest value wins and
    /// keeps its place in the order.
    pub fn set(&mut self, name: Vec<u8>, value: Nbt)
        ensures
            final(self)@.name == old(self)@.name,
            final(self)@.props == props_set(old(self)@.props, name@, value@),
    {
        props_insert(&mut self.props, name, value);
    }

    /// Look a property up by name.
    pub fn get(&self, name: &Vec<u8>) -> (r: Option<&Nbt>)
        ensures
            ({
                match r {
                    Option::Some(v) => props_lookup(self@.props, name@) == Option::Some(v@),
                    Option::None => props_lookup(self@.props, name@) is None,
                }
            }),
    {
        let ghost pv = self@.props;
        proof {
            lemma_props_view(self.props@);
            lemma_find_key(pv, name@);
        }
        let mut i: usize = 0;
        while i < self.props.len()
            invariant
                i <= self.props@.len(),
                pv == self@.props,
                pv == props_view(self.props@),
                pv.len() == self.props@.len(),
                forall|j: int| 0 <= j < self.props@.len() ==> #[trigger] pv[j] == (
                    self.props@[j].0@,
                    nbt_view(self.props@[j].1),
                ),
                forall|j: int| 0 <= j < i ==> self.props@[j].0@ != name@,
            decreases self.props@.len() - i,
        {
            let p = &self.props[i];
            if bytes_eq(&p.0, name) {
                proof {
                    lemma_find_key(pv, name@);
                    assert(pv[i as int].0 == name@);
                    assert(forall|j: int| 0 <= j < i ==> pv[j].0 != name@);
                    assert(find_key(pv, name@) == i);
                }
                return Option::Some(&p.1);
            }
            i = i + 1;
        }
        proof {
            assert(find_key(pv, name@) < 0) by {
                lemma_find_key(pv, name@);
                if find_key(pv, name@) >= 0 {
                    assert(pv[find_key(pv, name@)].0 == name@);
                }
            }
        }
        Option::None
    }

    /// The compound's name.
    pub fn name(&self) -> (r: &Vec<u8>)
        ensures
            r@ == self@.name,
    {
        &self.name
    }

    /// The properties, in insertion order.
    pub fn props(&self) -> (r: &Vec<(Vec<u8>, Nbt)>)
        ensures
            props_view(r@) == self@.props,
    {
        &self.props
    }
}

// ---------------------------------------------------------------------
// Exec readers
// ---------------------------------------------------------------------

/// Decode a tag byte: 0 to 12, anything else is malformed.
pub open spec fn tag_dec(s: Seq<u8>) -> Result<(u8, int), ProtoError> {
    match u8_dec(s) {
        Ok((b, n)) => if b <= 12 {
            Ok((b, n))
        } else {
            Err(ProtoError::MalformedFrame)
        },
        Err(e) => Err(e),
    }
}

/// Read a tag byte; values above 12 are malformed.
pub fn read_tagtype(buf: &Vec<u8>, pos: usize) -> (r: Result<(u8, usize), ProtoError>)
    requires
        pos <= buf@.len(),
    ensures
        ({
            match tag_dec(buf@.skip(pos as int)) {
                Ok((b, n)) => r == Ok::<(u8, usize), ProtoError>((b, (pos + n) as usize)),
                Err(e) => r == Err::<(u8, usize), ProtoError>(e),
            }
        }),
{
    match read_ubyte(buf, pos) {
        Ok((b, p)) => if b <= 12 {
            Ok((b, p))
        } else {
            Err(ProtoError::MalformedFrame)
        },
        Err(e) => Err(e),
    }
}

// ---------------------------------------------------------------------
// Consumed-byte bounds of the spec decoders
// ---------------------------------------------------------------------

/// A successful payload decode consumes at least one byte and never more
/// than the input has.
pub proof fn lemma_payload_dec_bounds(s: Seq<u8>, tag: u8)
    ensures
        payload_dec(s, tag) matches Ok((v, n)) ==> 1 <= n <= s.len(),
    decreases s.len(), 0int, 1int,
{
    if tag == TAG_LIST {
        if s.len() >= 5 && list_etag_ok(s[0]) {
            match u32_dec(s.subrange(1, s.len() as int)) {
                Ok((lv, _)) => {
                    let len = i32_of_u32(lv) as int;
                    if len >= 0 {
                        lemma_elems_dec_bounds(s.skip(5), s[0], len, Seq::empty());
                    }
                },
                Err(_) => {},
            }
        }
    } else if tag == TAG_COMPOUND {
        lemma_named_dec_bounds(s);
    } else if tag == TAG_INT_ARRAY {
        match u32_dec(s) {
            Ok((lv, _)) => {
                let len = i32_of_u32(lv) as int;
                if len >= 0 {
                    lemma_i32s_dec_bounds(s.skip(4), len, Seq::empty());
                }
            },
            Err(_) => {},
        }
    } else if tag == TAG_LONG_ARRAY {
        match u32_dec(s) {
            Ok((lv, _)) => {
                let len = i32_of_u32(lv) as int;
                if len >= 0 {
                    lemma_i64s_dec_bounds(s.skip(4), len, Seq::empty());
                }
            },
            Err(_) => {},
        }
    }
}

/// A successful named-compound decode consumes at least its name prefix
/// and `End` byte, and never more than the input has.
pub proof fn lemma_named_dec_bounds(s: Seq<u8>)
    ensures
        named_dec(s) matches Ok((c, n)) ==> 3 <= n <= s.len(),
    decreases s.len(), 0int, 0int,
{
    match ushort_string_dec(s) {
        Ok((_, n1)) => if 2 <= n1 <= s.len() {
            lemma_props_dec_bounds(s.skip(n1), Seq::empty());
        } else {
        },
        Err(_) => {},
    }
}

/// A successful property-sequence decode consumes at least the `End`
/// byte, and never more than the input has.
pub proof fn lemma_props_dec_bounds(s: Seq<u8>, acc: Seq<(Seq<u8>, NbtView)>)
    ensures
        props_dec(s, acc) matches Ok((ps, n)) ==> 1 <= n <= s.len(),
    decreases s.len(), 1int, 0int,
{
    if s.len() >= 1 && s[0] != TAG_END {
        if s[0] == TAG_COMPOUND {
            match named_dec(s.skip(1)) {
                Ok((c, n)) => if 0 <= n <= s.len() - 1 {
                    lemma_props_dec_bounds(
                        s.skip(1 + n),
                        props_set(acc, c.name, NbtView::Compound(c)),
                    );
                } else {
                },
                Err(_) => {},
            }
        } else if 1 <= s[0] <= 12 {
            match ushort_string_dec(s.skip(1)) {
                Ok((k, n1)) => if 2 <= n1 <= s.len() - 1 {
                    match payload_dec(s.skip(1 + n1), s[0]) {
                        Ok((v, n2)) => if 0 <= n2 <= s.len() - 1 - n1 {
                            lemma_props_dec_bounds(s.skip(1 + n1 + n2), props_set(acc, k, v));
                        } else {
                        },
                        Err(_) => {},
                    }
                } else {
                },
                Err(_) => {},
            }
        }
    }
}

/// A successful element-sequence decode consumes no more than the input
/// has.
pub proof fn lemma_elems_dec_bounds(s: Seq<u8>, etag: u8, n: int, acc: Seq<NbtView>)
    ensures
        elems_dec(s, etag, n, acc) matches Ok((es, m)) ==> 0 <= m <= s.len(),
    decreases s.len(), n, 2int,
{
    if n > 0 {
        match payload_dec(s, etag) {
            Ok((v, m)) => if 1 <= m <= s.len() {
                lemma_elems_dec_bounds(s.skip(m), etag, n - 1, acc.push(v));
            } else {
            },
            Err(_) => {},
        }
    }
}

/// A successful 32-bit array decode consumes no more than the input has.
pub proof fn lemma_i32s_dec_bounds(s: Seq<u8>, n: int, acc: Seq<i32>)
    ensures
        i32s_dec(s, n, acc) matches Ok((es, m)) ==> 0 <= m <= s.len(),
    decreases n,
{
    if n > 0 {
        match u32_dec(s) {
            Ok((v, _)) => {
                lemma_i32s_dec_bounds(s.skip(4), n - 1, acc.push(i32_of_u32(v)));
            },
            Err(_) => {},
        }
    }
}

/// A successful 64-bit array decode consumes no more than the input has.
pub proof fn lemma_i64s_dec_bounds(s: Seq<u8>, n: int, acc: Seq<i64>)
    ensures
        i64s_dec(s, n, acc) matches Ok((es, m)) ==> 0 <= m <= s.len(),
    decreases n,
{
    if n > 0 {
        match u64_dec(s) {
            Ok((v, _)) => {
                lemma_i64s_dec_bounds(s.skip(8), n - 1, acc.push(i64_of_u64(v)));
            },
            Err(_) => {},
        }
    }
}


/// Read `n` list elements of signed bytes.
fn read_list_bytes(buf: &Vec<u8>, pos: usize, n: usize) -> (r: Result<
    (Vec<i8>, usize),
    ProtoError,
>)
    requires
        pos <= buf@.len(),
    ensures
        ({
            match elems_dec(buf@.skip(pos as int), TAG_BYTE, n as int, Seq::empty()) {
                Ok((es, m)) => r matches Ok(p) && bytes_view(p.0@) == es && p.1 == pos + m,
                Err(e) => r == Err::<(Vec<i8>, usize), ProtoError>(e),
            }
        }),
{
    let ghost s0 = buf@.skip(pos as int);
    let mut ev: Vec<i8> = Vec::new();
    let mut p: usize = pos;
    let mut i: usize = 0;
    proof {
        assert(buf@.len() == buf.len());
        assert(bytes_view(ev@) =~= Seq::<NbtView>::empty());
    }
    while i < n
        invariant
            buf@.len() == buf.len(),
            pos <= p <= buf@.len(),
            i <= n,
            s0 == buf@.skip(pos as int),
            ({
                match elems_dec(buf@.skip(p as int), TAG_BYTE, n - i, bytes_view(ev@)) {
                    Ok((es, m)) => elems_dec(s0, TAG_BYTE, n as int, Seq::empty()) == Ok::<
                        (Seq<NbtView>, int),
                        ProtoError,
                    >((es, (p - pos) + m)),
                    Err(e) => elems_dec(s0, TAG_BYTE, n as int, Seq::empty()) == Err::<
                        (Seq<NbtView>, int),
                        ProtoError,
                    >(e),
                }
            }),
        decreases n - i,
    {
        let ghost acc0 = bytes_view(ev@);
        let ghost p0 = p;
        let ghost i0 = i;
        match read_byte(buf, p) {
            Ok((x, q)) => {
                proof {
                    assert(q == p + 1);
                    assert(buf@.skip(p as int).skip(1) =~= buf@.skip(q as int));
                }
                ev.push(x);
                p = q;
                i = i + 1;
                proof {
                    assert(bytes_view(ev@) =~= acc0.push(NbtView::Byte(x)));
                    assert(payload_dec(buf@.skip(p0 as int), TAG_BYTE) matches Ok(pv) && pv.0
                        == NbtView::Byte(x) && pv.1 == 1);
                    assert(elems_dec(buf@.skip(p0 as int), TAG_BYTE, n - i0, acc0) == (
                    match elems_dec(buf@.skip(p as int), TAG_BYTE, n - i, bytes_view(ev@)) {
                        Ok((es, mm)) => Ok::<(Seq<NbtView>, int), ProtoError>((es, 1 + mm)),
                        Err(e) => Err::<(Seq<NbtView>, int), ProtoError>(e),
                    }));
                }
            },
            Err(e) => {
                return Err(e);
            },
        }
    }
    Ok((ev, p))
}

/// Read `n` list elements of signed 16-bit values.
fn read_list_shorts(buf: &Vec<u8>, pos: usize, n: usize) -> (r: Result<
    (Vec<i16>, usize),
    ProtoError,
>)
    requires
        pos <= buf@.len(),
    ensures
        ({
            match elems_dec(buf@.skip(pos as int), TAG_SHORT, n as int, Seq::empty()) {
                Ok((es, m)) => r matches Ok(p) && shorts_view(p.0@) == es && p.1 == pos + m,
                Err(e) => r == Err::<(Vec<i16>, usize), ProtoError>(e),
            }
        }),
{
    let ghost s0 = buf@.skip(pos as int);
    let mut ev: Vec<i16> = Vec::new();
    let mut p: usize = pos;
    let mut i: usize = 0;
    proof {
        assert(buf@.len() == buf.len());
        assert(shorts_view(ev@) =~= Seq::<NbtView>::empty());
    }
    while i < n
        invariant
            buf@.len() == buf.len(),
            pos <= p <= buf@.len(),
            i <= n,
            s0 == buf@.skip(pos as int),
            ({
                match elems_dec(buf@.skip(p as int), TAG_SHORT, n - i, shorts_view(ev@)) {
                    Ok((es, m)) => elems_dec(s0, TAG_SHORT, n as int, Seq::empty()) == Ok::<
                        (Seq<NbtView>, int),
                        ProtoError,
                    >((es, (p - pos) + m)),
                    Err(e) => elems_dec(s0, TAG_SHORT, n as int, Seq::empty()) == Err::<
                        (Seq<NbtView>, int),
                        ProtoError,
                    >(e),
                }
            }),
        decreases n - i,
    {
        let ghost acc0 = shorts_view(ev@);
        let ghost p0 = p;
        let ghost i0 = i;
        match read_short(buf, p) {
            Ok((x, q)) => {
                proof {
                    assert(q == p + 2);
                    assert(buf@.skip(p as int).skip(2) =~= buf@.skip(q as int));
                }
                ev.push(x);
                p = q;
                i = i + 1;
                proof {
                    assert(shorts_view(ev@) =~= acc0.push(NbtView::Short(x)));
                    assert(payload_dec(buf@.skip(p0 as int), TAG_SHORT) matches Ok(pv) && pv.0
                        == NbtView::Short(x) && pv.1 == 2);
                    assert(elems_dec(buf@.skip(p0 as int), TAG_SHORT, n - i0, acc0) == (
                    match elems_dec(buf@.skip(p as int), TAG_SHORT, n - i, shorts_view(ev@)) {
                        Ok((es, mm)) => Ok::<(Seq<NbtView>, int), ProtoError>((es, 2 + mm)),
                        Err(e) => Err::<(Seq<NbtView>, int), ProtoError>(e),
                    }));
                }
            },
            Err(e) => {
                return Err(e);
            },
        }
    }
    Ok((ev, p))
}

/// Read `n` list elements of signed 32-bit values.
fn read_list_ints(buf: &Vec<u8>, pos: usize, n: usize) -> (r: Result<
    (Vec<i32>, usize),
    ProtoError,
>)
    requires
        pos <= buf@.len(),
    ensures
        ({
            match elems_dec(buf@.skip(pos as int), TAG_INT, n as int, Seq::empty()) {
                Ok((es, m)) => r matches Ok(p) && ints_view(p.0@) == es && p.1 == pos + m,
                Err(e) => r == Err::<(Vec<i32>, usize), ProtoError>(e),
            }
        }),
{
    let ghost s0 = buf@.skip(pos as int);
    let mut ev: Vec<i32> = Vec::new();
    let mut p: usize = pos;
    let mut i: usize = 0;
    proof {
        assert(buf@.len() == buf.len());
        assert(ints_view(ev@) =~= Seq::<NbtView>::empty());
    }
    while i < n
        invariant
            buf@.len() == buf.len(),
            pos <= p <= buf@.len(),
            i <= n,
            s0 == buf@.skip(pos as int),
            ({
                match elems_dec(buf@.skip(p as int), TAG_INT, n - i, ints_view(ev@)) {
                    Ok((es, m)) => elems_dec(s0, TAG_INT, n as int, Seq::empty()) == Ok::<
                        (Seq<NbtView>, int),
                        ProtoError,
                    >((es, (p - pos) + m)),
                    Err(e) => elems_dec(s0, TAG_INT, n as int, Seq::empty()) == Err::<
                        (Seq<NbtView>, int),
                        ProtoError,
                    >(e),
                }
            }),
        decreases n - i,
    {
        let ghost acc0 = ints_view(ev@);
        let ghost p0 = p;
        let ghost i0 = i;
        match read_int(buf, p) {
            Ok((x, q)) => {
                proof {
                    assert(q == p + 4);
                    assert(buf@.skip(p as int).skip(4) =~= buf@.skip(q as int));
                }
                ev.push(x);
                p = q;
                i = i + 1;
                proof {
                    assert(ints_view(ev@) =~= acc0.push(NbtView::Int(x)));
                    assert(payload_dec(buf@.skip(p0 as int), TAG_INT) matches Ok(pv) && pv.0
                        == NbtView::Int(x) && pv.1 == 4);
                    assert(elems_dec(buf@.skip(p0 as int), TAG_INT, n - i0, acc0) == (
                    match elems_dec(buf@.skip(p as int), TAG_INT, n - i, ints_view(ev@)) {
                        Ok((es, mm)) => Ok::<(Seq<NbtView>, int), ProtoError>((es, 4 + mm)),
                        Err(e) => Err::<(Seq<NbtView>, int), ProtoError>(e),
                    }));
                }
            },
            Err(e) => {
                return Err(e);
            },
        }
    }
    Ok((ev, p))
}

/// Read `n` list elements of signed 64-bit values.
fn read_list_longs(buf: &Vec<u8>, pos: usize, n: usize) -> (r: Result<
    (Vec<i64>, usize),
    ProtoError,
>)
    requires
        pos <= buf@.len(),
    ensures
        ({
            match elems_dec(buf@.skip(pos as int), TAG_LONG, n as int, Seq::empty()) {
                Ok((es, m)) => r matches Ok(p) && longs_view(p.0@) == es && p.1 == pos + m,
                Err(e) => r == Err::<(Vec<i64>, usize), ProtoError>(e),
            }
        }),
{
    let ghost s0 = buf@.skip(pos as int);
    let mut ev: Vec<i64> = Vec::new();
    let mut p: usize = pos;
    let mut i: usize = 0;
    proof {
        assert(buf@.len() == buf.len());
        assert(longs_view(ev@) =~= Seq::<NbtView>::empty());
    }
    while i < n
        invariant
            buf@.len() == buf.len(),
            pos <= p <= buf@.len(),
            i <= n,
            s0 == buf@.skip(pos as int),
            ({
                match elems_dec(buf@.skip(p as int), TAG_LONG, n - i, longs_view(ev@)) {
                    Ok((es, m)) => elems_dec(s0, TAG_LONG, n as int, Seq::empty()) == Ok::<
                        (Seq<NbtView>, int),
                        ProtoError,
                    >((es, (p - pos) + m)),
                    Err(e) => elems_dec(s0, TAG_LONG, n as int, Seq::empty()) == Err::<
                        (Seq<NbtView>, int),
                        ProtoError,
                    >(e),
                }
            }),
        decreases n - i,
    {
        let ghost acc0 = longs_view(ev@);
        let ghost p0 = p;
        let ghost i0 = i;
        match read_long(buf, p) {
            Ok((x, q)) => {
                proof {
                    assert(q == p + 8);
                    assert(buf@.skip(p as int).skip(8) =~= buf@.skip(q as int));
                }
                ev.push(x);
                p = q;
                i = i + 1;
                proof {
                    assert(longs_view(ev@) =~= acc0.push(NbtView::Long(x)));
                    assert(payload_dec(buf@.skip(p0 as int), TAG_LONG) matches Ok(pv) && pv.0
                        == NbtView::Long(x) && pv.1 == 8);
                    assert(elems_dec(buf@.skip(p0 as int), TAG_LONG, n - i0, acc0) == (
                    match elems_dec(buf@.skip(p as int), TAG_LONG, n - i, longs_view(ev@)) {
                        Ok((es, mm)) => Ok::<(Seq<NbtView>, int), ProtoError>((es, 8 + mm)),
                        Err(e) => Err::<(Seq<NbtView>, int), ProtoError>(e),
                    }));
                }
            },
            Err(e) => {
                return Err(e);
            },
        }
    }
    Ok((ev, p))
}

/// Read `n` list elements of 32-bit IEEE-754 bit patterns.
fn read_list_floats(buf: &Vec<u8>, pos: usize, n: usize) -> (r: Result<
    (Vec<u32>, usize),
    ProtoError,
>)
    requires
        pos <= buf@.len(),
    ensures
        ({
            match elems_dec(buf@.skip(pos as int), TAG_FLOAT, n as int, Seq::empty()) {
                Ok((es, m)) => r matches Ok(p) && floats_view(p.0@) == es && p.1 == pos + m,
                Err(e) => r == Err::<(Vec<u32>, usize), ProtoError>(e),
            }
        }),
{
    let ghost s0 = buf@.skip(pos as int);
    let mut ev: Vec<u32> = Vec::new();
    let mut p: usize = pos;
    let mut i: usize = 0;
    proof {
        assert(buf@.len() == buf.len());
        assert(floats_view(ev@) =~= Seq::<NbtView>::empty());
    }
    while i < n
        invariant
            buf@.len() == buf.len(),
            pos <= p <= buf@.len(),
            i <= n,
            s0 == buf@.skip(pos as int),
            ({
                match elems_dec(buf@.skip(p as int), TAG_FLOAT, n - i, floats_view(ev@)) {
                    Ok((es, m)) => elems_dec(s0, TAG_FLOAT, n as int, Seq::empty()) == Ok::<
                        (Seq<NbtView>, int),
                        ProtoError,
                    >((es, (p - pos) + m)),
                    Err(e) => elems_dec(s0, TAG_FLOAT, n as int, Seq::empty()) == Err::<
                        (Seq<NbtView>, int),
                        ProtoError,
                    >(e),
                }
            }),
        decreases n - i,
    {
        let ghost acc0 = floats_view(ev@);
        let ghost p0 = p;
        let ghost i0 = i;
        match read_float_bits(buf, p) {
            Ok((x, q)) => {
                proof {
                    assert(q == p + 4);
                    assert(buf@.skip(p as int).skip(4) =~= buf@.skip(q as int));
                }
                ev.push(x);
                p = q;
                i = i + 1;
                proof {
                    assert(floats_view(ev@) =~= acc0.push(NbtView::Float(x)));
                    assert(payload_dec(buf@.skip(p0 as int), TAG_FLOAT) matches Ok(pv) && pv.0
                        == NbtView::Float(x) && pv.1 == 4);
                    assert(elems_dec(buf@.skip(p0 as int), TAG_FLOAT, n - i0, acc0) == (
                    match elems_dec(buf@.skip(p as int), TAG_FLOAT, n - i, floats_view(ev@)) {
                        Ok((es, mm)) => Ok::<(Seq<NbtView>, int), ProtoError>((es, 4 + mm)),
                        Err(e) => Err::<(Seq<NbtView>, int), ProtoError>(e),
                    }));
                }
            },
            Err(e) => {
                return Err(e);
            },
        }
    }
    Ok((ev, p))
}

/// Read `n` list elements of 64-bit IEEE-754 bit patterns.
fn read_list_doubles(buf: &Vec<u8>, pos: usize, n: usize) -> (r: Result<
    (Vec<u64>, usize),
    ProtoError,
>)
    requires
        pos <= buf@.len(),
    ensures
        ({
            match elems_dec(buf@.skip(pos as int), TAG_DOUBLE, n as int, Seq::empty()) {
                Ok((es, m)) => r matches Ok(p) && doubles_view(p.0@) == es && p.1 == pos + m,
                Err(e) => r == Err::<(Vec<u64>, usize), ProtoError>(e),
            }
        }),
{
    let ghost s0 = buf@.skip(pos as int);
    let mut ev: Vec<u64> = Vec::new();
    let mut p: usize = pos;
    let mut i: usize = 0;
    proof {
        assert(buf@.len() == buf.len());
        assert(doubles_view(ev@) =~= Seq::<NbtView>::empty());
    }
    while i < n
        invariant
            buf@.len() == buf.len(),
            pos <= p <= buf@.len(),
            i <= n,
            s0 == buf@.skip(pos as int),
            ({
                match elems_dec(buf@.skip(p as int), TAG_DOUBLE, n - i, doubles_view(ev@)) {
                    Ok((es, m)) => elems_dec(s0, TAG_DOUBLE, n as int, Seq::empty()) == Ok::<
                        (Seq<NbtView>, int),
                        ProtoError,
                    >((es, (p - pos) + m)),
                    Err(e) => elems_dec(s0, TAG_DOUBLE, n as int, Seq::empty()) == Err::<
                        (Seq<NbtView>, int),
                        ProtoError,
                    >(e),
                }
            }),
        decreases n - i,
    {
        let ghost acc0 = doubles_view(ev@);
        let ghost p0 = p;
        let ghost i0 = i;
        match read_double_bits(buf, p) {
            Ok((x, q)) => {
                proof {
                    assert(q == p + 8);
                    assert(buf@.skip(p as int).skip(8) =~= buf@.skip(q as int));
                }
                ev.push(x);
                p = q;
                i = i + 1;
                proof {
                    assert(doubles_view(ev@) =~= acc0.push(NbtView::Double(x)));
                    assert(payload_dec(buf@.skip(p0 as int), TAG_DOUBLE) matches Ok(pv) && pv.0
                        == NbtView::Double(x) && pv.1 == 8);
                    assert(elems_dec(buf@.skip(p0 as int), TAG_DOUBLE, n - i0, acc0) == (
                    match elems_dec(buf@.skip(p as int), TAG_DOUBLE, n - i, doubles_view(ev@)) {
                        Ok((es, mm)) => Ok::<(Seq<NbtView>, int), ProtoError>((es, 8 + mm)),
                        Err(e) => Err::<(Seq<NbtView>, int), ProtoError>(e),
                    }));
                }
            },
            Err(e) => {
                return Err(e);
            },
        }
    }
    Ok((ev, p))
}

/// Read `n` list elements that are u16-length-prefixed strings.
fn read_list_strings(buf: &Vec<u8>, pos: usize, n: usize) -> (r: Result<
    (Vec<Vec<u8>>, usize),
    ProtoError,
>)
    requires
        pos <= buf@.len(),
    ensures
        ({
            match elems_dec(buf@.skip(pos as int), TAG_STRING, n as int, Seq::empty()) {
                Ok((es, m)) => r matches Ok(p) && strings_view(p.0@) == es && p.1 == pos + m,
                Err(e) => r == Err::<(Vec<Vec<u8>>, usize), ProtoError>(e),
            }
        }),
{
    let ghost s0 = buf@.skip(pos as int);
    let mut ev: Vec<Vec<u8>> = Vec::new();
    let mut p: usize = pos;
    let mut i: usize = 0;
    proof {
        assert(buf@.len() == buf.len());
        assert(strings_view(ev@) =~= Seq::<NbtView>::empty());
    }
    while i < n
        invariant
            buf@.len() == buf.len(),
            pos <= p <= buf@.len(),
            i <= n,
            s0 == buf@.skip(pos as int),
            ({
                match elems_dec(buf@.skip(p as int), TAG_STRING, n - i, strings_view(ev@)) {
                    Ok((es, m)) => elems_dec(s0, TAG_STRING, n as int, Seq::empty()) == Ok::<
                        (Seq<NbtView>, int),
                        ProtoError,
                    >((es, (p - pos) + m)),
                    Err(e) => elems_dec(s0, TAG_STRING, n as int, Seq::empty()) == Err::<
                        (Seq<NbtView>, int),
                        ProtoError,
                    >(e),
                }
            }),
        decreases n - i,
    {
        let ghost acc0 = strings_view(ev@);
        let ghost p0 = p;
        let ghost i0 = i;
        match read_ushort_string(buf, p) {
            Ok((x, q)) => {
                let ghost xv = x@;
                proof {
                    assert(p <= q <= buf@.len());
                    assert(buf@.skip(p as int).skip(q - p) =~= buf@.skip(q as int));
                }
                ev.push(x);
                p = q;
                i = i + 1;
                proof {
                    assert(strings_view(ev@) =~= acc0.push(NbtView::String(xv)));
                    assert(payload_dec(buf@.skip(p0 as int), TAG_STRING) matches Ok(pv) && pv.0
                        == NbtView::String(xv) && pv.1 == p - p0);
                    assert(elems_dec(buf@.skip(p0 as int), TAG_STRING, n - i0, acc0) == (
                    match elems_dec(buf@.skip(p as int), TAG_STRING, n - i, strings_view(ev@)) {
                        Ok((es, mm)) => Ok::<(Seq<NbtView>, int), ProtoError>(
                            (es, (p - p0) + mm),
                        ),
                        Err(e) => Err::<(Seq<NbtView>, int), ProtoError>(e),
                    }));
                }
            },
            Err(e) => {
                return Err(e);
            },
        }
    }
    Ok((ev, p))
}

/// Read `n` list elements that are named compounds (name and body, with
/// no tag byte of their own).
fn read_list_compounds(buf: &Vec<u8>, pos: usize, n: usize) -> (r: Result<
    (Vec<CompoundNbt>, usize),
    ProtoError,
>)
    requires
        pos <= buf@.len(),
    ensures
        ({
            match elems_dec(buf@.skip(pos as int), TAG_COMPOUND, n as int, Seq::empty()) {
                Ok((es, m)) => r matches Ok(p) && compounds_view(p.0@) == es && p.1 == pos + m,
                Err(e) => r == Err::<(Vec<CompoundNbt>, usize), ProtoError>(e),
            }
        }),
    decreases buf@.len() - pos, 0int, 1int,
{
    let ghost s0 = buf@.skip(pos as int);
    let mut ev: Vec<CompoundNbt> = Vec::new();
    let mut p: usize = pos;
    let mut i: usize = 0;
    proof {
        assert(buf@.len() == buf.len());
        assert(compounds_view(ev@) =~= Seq::<NbtView>::empty());
    }
    while i < n
        invariant
            buf@.len() == buf.len(),
            pos <= p <= buf@.len(),
            i <= n,
            s0 == buf@.skip(pos as int),
            ({
                match elems_dec(buf@.skip(p as int), TAG_COMPOUND, n - i, compounds_view(ev@)) {
                    Ok((es, m)) => elems_dec(s0, TAG_COMPOUND, n as int, Seq::empty()) == Ok::<
                        (Seq<NbtView>, int),
                        ProtoError,
                    >((es, (p - pos) + m)),
                    Err(e) => elems_dec(s0, TAG_COMPOUND, n as int, Seq::empty()) == Err::<
                        (Seq<NbtView>, int),
                        ProtoError,
                    >(e),
                }
            }),
        decreases n - i,
    {
        let ghost acc0 = compounds_view(ev@);
        let ghost p0 = p;
        let ghost i0 = i;
        proof {
            lemma_named_dec_bounds(buf@.skip(p as int));
        }
        match read_named_compound(buf, p) {
            Ok((x, q)) => {
                let ghost xv = x@;
                proof {
                    assert(p <= q <= buf@.len());
                    assert(buf@.skip(p as int).skip(q - p) =~= buf@.skip(q as int));
                }
                let ghost before = ev@;
                ev.push(x);
                p = q;
                i = i + 1;
                proof {
                    assert(ev@.subrange(0, ev@.len() - 1) =~= before);
                    assert(compounds_view(ev@) =~= acc0.push(NbtView::Compound(xv)));
                    assert(payload_dec(buf@.skip(p0 as int), TAG_COMPOUND) matches Ok(pv) && pv.0
                        == NbtView::Compound(xv) && pv.1 == p - p0);
                    assert(elems_dec(buf@.skip(p0 as int), TAG_COMPOUND, n - i0, acc0) == (
                    match elems_dec(
                        buf@.skip(p as int),
                        TAG_COMPOUND,
                        n - i,
                        compounds_view(ev@),
                    ) {
                        Ok((es, mm)) => Ok::<(Seq<NbtView>, int), ProtoError>(
                            (es, (p - p0) + mm),
                        ),
                        Err(e) => Err::<(Seq<NbtView>, int), ProtoError>(e),
                    }));
                }
            },
            Err(e) => {
                return Err(e);
            },
        }
    }
    Ok((ev, p))
}

/// Read the payload of one value with tag byte `tag`; for a compound
/// this is its name string and body.
#[verifier::rlimit(100)]
pub fn read_nbt(buf: &Vec<u8>, pos: usize, tag: u8) -> (r: Result<(Nbt, usize), ProtoError>)
    requires
        pos <= buf@.len(),
    ensures
        ({
            match payload_dec(buf@.skip(pos as int), tag) {
                Ok((v, n)) => r matches Ok(p) && p.0@ == v && p.1 == pos + n,
                Err(e) => r == Err::<(Nbt, usize), ProtoError>(e),
            }
        }),
    decreases buf@.len() - pos, 1int, 0int,
{
    let ghost s = buf@.skip(pos as int);
    proof {
        assert(buf@.len() == buf.len());
    }
    if tag == TAG_BYTE {
        match read_byte(buf, pos) {
            Ok((x, p)) => Ok((Nbt::Byte(x), p)),
            Err(e) => Err(e),
        }
    } else if tag == TAG_SHORT {
        match read_short(buf, pos) {
            Ok((x, p)) => Ok((Nbt::Short(x), p)),
            Err(e) => Err(e),
        }
    } else if tag == TAG_INT {
        match read_int(buf, pos) {
            Ok((x, p)) => Ok((Nbt::Int(x), p)),
            Err(e) => Err(e),
        }
    } else if tag == TAG_LONG {
        match read_long(buf, pos) {
            Ok((x, p)) => Ok((Nbt::Long(x), p)),
            Err(e) => Err(e),
        }
    } else if tag == TAG_FLOAT {
        match read_float_bits(buf, pos) {
            Ok((x, p)) => Ok((Nbt::Float(x), p)),
            Err(e) => Err(e),
        }
    } else if tag == TAG_DOUBLE {
        match read_double_bits(buf, pos) {
            Ok((x, p)) => Ok((Nbt::Double(x), p)),
            Err(e) => Err(e),
        }
    } else if tag == TAG_STRING {
        match read_ushort_string(buf, pos) {
            Ok((x, p)) => Ok((Nbt::String(x), p)),
            Err(e) => Err(e),
        }
    } else if tag == TAG_BYTE_ARRAY {
        let (len, p1) = match read_int(buf, pos) {
            Ok(x) => x,
            Err(e) => {
                return Err(e);
            },
        };
        if len < 0 {
            return Err(ProtoError::MalformedFrame);
        }
        let n = len as usize;
        if n > buf.len() - p1 {
            return Err(ProtoError::TransportError);
        }
        let mut arr: Vec<i8> = Vec::new();
        let mut i: usize = 0;
        while i < n
            invariant
                buf@.len() == buf.len(),
                pos <= buf@.len(),
                i <= n,
                p1 == pos + 4,
                p1 + n <= buf@.len(),
                tag == TAG_BYTE_ARRAY,
                u32_dec(buf@.skip(pos as int)) matches Ok(h) && i32_of_u32(h.0) == len && h.1
                    == 4,
                0 <= len && len == n,
                arr@ == i8s_of(buf@.subrange(p1 as int, p1 + i)),
            decreases n - i,
        {
            match read_byte(buf, p1 + i) {
                Ok((x, _)) => {
                    arr.push(x);
                },
                Err(_) => {
                    // Unreachable: the whole array is in bounds.
                    proof {
                        assert(false);
                    }
                },
            }
            i = i + 1;
            proof {
                assert(arr@ =~= i8s_of(buf@.subrange(p1 as int, p1 + i)));
            }
        }
        proof {
            assert(buf@.subrange(p1 as int, p1 + n) =~= s.subrange(4, 4 + len));
        }
        Ok((Nbt::ByteArray(arr), p1 + n))
    } else if tag == TAG_INT_ARRAY {
        let (len, p1) = match read_int(buf, pos) {
            Ok(x) => x,
            Err(e) => {
                return Err(e);
            },
        };
        if len < 0 {
            return Err(ProtoError::MalformedFrame);
        }
        let n = len as usize;
        proof {
            assert(s.skip(4) =~= buf@.skip(p1 as int));
        }
        let mut arr: Vec<i32> = Vec::new();
        let mut p: usize = p1;
        let mut i: usize = 0;
        while i < n
            invariant
                buf@.len() == buf.len(),
                pos <= buf@.len(),
                p1 <= p <= buf@.len(),
                i <= n,
                p1 == pos + 4,
                tag == TAG_INT_ARRAY,
                u32_dec(buf@.skip(pos as int)) matches Ok(h) && i32_of_u32(h.0) == len && h.1
                    == 4,
                0 <= len && len == n,
                ({
                    match i32s_dec(buf@.skip(p as int), n - i, arr@) {
                        Ok((es, m)) => i32s_dec(buf@.skip(p1 as int), n as int, Seq::empty())
                            == Ok::<(Seq<i32>, int), ProtoError>((es, (p - p1) + m)),
                        Err(e) => i32s_dec(buf@.skip(p1 as int), n as int, Seq::empty()) == Err::<
                            (Seq<i32>, int),
                            ProtoError,
                        >(e),
                    }
                }),
            decreases n - i,
        {
            match read_int(buf, p) {
                Ok((x, q)) => {
                    proof {
                        assert(buf@.skip(p as int).skip(4) =~= buf@.skip(q as int));
                    }
                    arr.push(x);
                    p = q;
                    i = i + 1;
                },
                Err(e) => {
                    proof {
                        assert(buf@.skip(pos as int).skip(4) =~= buf@.skip(p1 as int));
                    }
                    return Err(e);
                },
            }
        }
        proof {
            assert(buf@.skip(pos as int).skip(4) =~= buf@.skip(p1 as int));
        }
        Ok((Nbt::IntArray(arr), p))
    } else if tag == TAG_LONG_ARRAY {
        let (len, p1) = match read_int(buf, pos) {
            Ok(x) => x,
            Err(e) => {
                return Err(e);
            },
        };
        if len < 0 {
            return Err(ProtoError::MalformedFrame);
        }
        let n = len as usize;
        proof {
            assert(s.skip(4) =~= buf@.skip(p1 as int));
        }
        let mut arr: Vec<i64> = Vec::new();
        let mut p: usize = p1;
        let mut i: usize = 0;
        while i < n
            invariant
                buf@.len() == buf.len(),
                pos <= buf@.len(),
                p1 <= p <= buf@.len(),
                i <= n,
                p1 == pos + 4,
                tag == TAG_LONG_ARRAY,
                u32_dec(buf@.skip(pos as int)) matches Ok(h) && i32_of_u32(h.0) == len && h.1
                    == 4,
                0 <= len && len == n,
                ({
                    match i64s_dec(buf@.skip(p as int), n - i, arr@) {
                        Ok((es, m)) => i64s_dec(buf@.skip(p1 as int), n as int, Seq::empty())
                            == Ok::<(Seq<i64>, int), ProtoError>((es, (p - p1) + m)),
                        Err(e) => i64s_dec(buf@.skip(p1 as int), n as int, Seq::empty()) == Err::<
                            (Seq<i64>, int),
                            ProtoError,
                        >(e),
                    }
                }),
            decreases n - i,
        {
            match read_long(buf, p) {
                Ok((x, q)) => {
                    proof {
                        assert(buf@.skip(p as int).skip(8) =~= buf@.skip(q as int));
                    }
                    arr.push(x);
                    p = q;
                    i = i + 1;
                },
                Err(e) => {
                    proof {
                        assert(buf@.skip(pos as int).skip(4) =~= buf@.skip(p1 as int));
                    }
                    return Err(e);
                },
            }
        }
        proof {
            assert(buf@.skip(pos as int).skip(4) =~= buf@.skip(p1 as int));
        }
        Ok((Nbt::LongArray(arr), p))
    } else if tag == TAG_LIST {
        if buf.len() - pos < 5 {
            return Err(ProtoError::TransportError);
        }
        let etag = buf[pos];
        let (len, p1) = match read_int(buf, pos + 1) {
            Ok(x) => x,
            Err(e) => {
                // Unreachable: at least five bytes were checked above.
                proof {
                    assert(false);
                }
                return Err(e);
            },
        };
        proof {
            assert(s.subrange(1, s.len() as int) =~= buf@.skip(pos + 1));
            assert(s.skip(5) =~= buf@.skip(p1 as int));
        }
        if etag == TAG_BYTE {
            if len < 0 {
                return Err(ProtoError::MalformedFrame);
            }
            match read_list_bytes(buf, p1, len as usize) {
                Ok((ev, p)) => Ok((Nbt::List(NbtList::Byte(ev)), p)),
                Err(e) => Err(e),
            }
        } else if etag == TAG_SHORT {
            if len < 0 {
                return Err(ProtoError::MalformedFrame);
            }
            match read_list_shorts(buf, p1, len as usize) {
                Ok((ev, p)) => Ok((Nbt::List(NbtList::Short(ev)), p)),
                Err(e) => Err(e),
            }
        } else if etag == TAG_INT {
            if len < 0 {
                return Err(ProtoError::MalformedFrame);
            }
            match read_list_ints(buf, p1, len as usize) {
                Ok((ev, p)) => Ok((Nbt::List(NbtList::Int(ev)), p)),
                Err(e) => Err(e),
            }
        } else if etag == TAG_LONG {
            if len < 0 {
                return Err(ProtoError::MalformedFrame);
            }
            match read_list_longs(buf, p1, len as usize) {
                Ok((ev, p)) => Ok((Nbt::List(NbtList::Long(ev)), p)),
                Err(e) => Err(e),
            }
        } else if etag == TAG_FLOAT {
            if len < 0 {
                return Err(ProtoError::MalformedFrame);
            }
            match read_list_floats(buf, p1, len as usize) {
                Ok((ev, p)) => Ok((Nbt::List(NbtList::Float(ev)), p)),
                Err(e) => Err(e),
            }
        } else if etag == TAG_DOUBLE {
            if len < 0 {
                return Err(ProtoError::MalformedFrame);
            }
            match read_list_doubles(buf, p1, len as usize) {
                Ok((ev, p)) => Ok((Nbt::List(NbtList::Double(ev)), p)),
                Err(e) => Err(e),
            }
        } else if etag == TAG_STRING {
            if len < 0 {
                return Err(ProtoError::MalformedFrame);
            }
            match read_list_strings(buf, p1, len as usize) {
                Ok((ev, p)) => Ok((Nbt::List(NbtList::String(ev)), p)),
                Err(e) => Err(e),
            }
        } else if etag == TAG_COMPOUND {
            if len < 0 {
                return Err(ProtoError::MalformedFrame);
            }
            match read_list_compounds(buf, p1, len as usize) {
                Ok((ev, p)) => Ok((Nbt::List(NbtList::Compound(ev)), p)),
                Err(e) => Err(e),
            }
        } else {
            Err(ProtoError::MalformedFrame)
        }
    } else if tag == TAG_COMPOUND {
        match read_named_compound(buf, pos) {
            Ok((c, p)) => Ok((Nbt::Compound(c), p)),
            Err(e) => Err(e),
        }
    } else {
        Err(ProtoError::MalformedFrame)
    }
}

/// Read a named compound: name string, properties, `End` byte.
#[verifier::rlimit(60)]
fn read_named_compound(buf: &Vec<u8>, pos: usize) -> (r: Result<
    (CompoundNbt, usize),
    ProtoError,
>)
    requires
        pos <= buf@.len(),
    ensures
        ({
            match named_dec(buf@.skip(pos as int)) {
                Ok((c, n)) => r matches Ok(p) && p.0@ == c && p.1 == pos + n,
                Err(e) => r == Err::<(CompoundNbt, usize), ProtoError>(e),
            }
        }),
    decreases buf@.len() - pos, 0int, 0int,
{
    let ghost s0 = buf@.skip(pos as int);
    proof {
        assert(buf@.len() == buf.len());
    }
    let (name, p1) = match read_ushort_string(buf, pos) {
        Ok(x) => x,
        Err(e) => {
            return Err(e);
        },
    };
    proof {
        assert(s0.skip(p1 - pos) =~= buf@.skip(p1 as int));
    }
    let mut props: Vec<(Vec<u8>, Nbt)> = Vec::new();
    let mut p: usize = p1;
    loop
        invariant
            buf@.len() == buf.len(),
            pos <= buf@.len(),
            pos + 2 <= p1 <= p <= buf@.len(),
            s0 == buf@.skip(pos as int),
            ushort_string_dec(s0) matches Ok(h) && h.0 == name@ && h.1 == p1 - pos,
            ({
                match props_dec(buf@.skip(p as int), props_view(props@)) {
                    Ok((ps, m)) => named_dec(s0) == Ok::<(CompoundView, int), ProtoError>(
                        (CompoundView { name: name@, props: ps }, (p - pos) + m),
                    ),
                    Err(e) => named_dec(s0) == Err::<(CompoundView, int), ProtoError>(e),
                }
            }),
        decreases buf@.len() - p,
    {
        let ghost sp = buf@.skip(p as int);
        let (tag, q) = match read_tagtype(buf, p) {
            Ok(x) => x,
            Err(e) => {
                return Err(e);
            },
        };
        if tag == TAG_END {
            let c = CompoundNbt { name, props };
            return Ok((c, q));
        } else if tag == TAG_COMPOUND {
            proof {
                assert(sp.skip(1) =~= buf@.skip(q as int));
                lemma_named_dec_bounds(buf@.skip(q as int));
            }
            let (cc, p2) = match read_named_compound(buf, q) {
                Ok(x) => x,
                Err(e) => {
                    return Err(e);
                },
            };
            proof {
                assert(sp.skip(1 + (p2 - q)) =~= buf@.skip(p2 as int));
            }
            let key = clone_bytes(&cc.name);
            props_insert(&mut props, key, Nbt::Compound(cc));
            p = p2;
        } else {
            proof {
                assert(sp.skip(1) =~= buf@.skip(q as int));
            }
            let (key, p2) = match read_ushort_string(buf, q) {
                Ok(x) => x,
                Err(e) => {
                    return Err(e);
                },
            };
            proof {
                assert(sp.skip(1 + (p2 - q)) =~= buf@.skip(p2 as int));
                lemma_payload_dec_bounds(buf@.skip(p2 as int), tag);
            }
            let (val, p3) = match read_nbt(buf, p2, tag) {
                Ok(x) => x,
                Err(e) => {
                    return Err(e);
                },
            };
            proof {
                assert(sp.skip(1 + (p2 - q) + (p3 - p2)) =~= buf@.skip(p3 as int));
            }
            props_insert(&mut props, key, val);
            p = p3;
        }
    }
}

impl Nbt {
    /// Read a whole NBT document from the buffer: the root is always a
    /// compound, introduced by its tag byte.
    pub fn read_compound(buf: &Vec<u8>, pos: usize) -> (r: Result<
        (CompoundNbt, usize),
        ProtoError,
    >)
        requires
            pos <= buf@.len(),
        ensures
            ({
                match compound_dec(buf@.skip(pos as int)) {
                    Ok((c, n)) => r matches Ok(p) && p.0@ == c && p.1 == pos + n,
                    Err(e) => r == Err::<(CompoundNbt, usize), ProtoError>(e),
                }
            }),
    {
        let ghost s = buf@.skip(pos as int);
        proof {
            assert(buf@.len() == buf.len());
        }
        let (tag, p1) = match read_tagtype(buf, pos) {
            Ok(x) => x,
            Err(e) => {
                if pos == buf.len() {
                    return Err(ProtoError::TransportError);
                }
                return Err(ProtoError::MalformedFrame);
            },
        };
        if tag != TAG_COMPOUND {
            return Err(ProtoError::MalformedFrame);
        }
        proof {
            assert(s.skip(1) =~= buf@.skip(p1 as int));
        }
        match read_named_compound(buf, p1) {
            Ok((c, p2)) => Ok((c, p2)),
            Err(e) => Err(e),
        }
    }
}

// ---------------------------------------------------------------------
// Round trip: decoding an encoding yields the value back
// ---------------------------------------------------------------------

/// No payload encoding is empty.
proof fn lemma_payload_enc_len(v: NbtView)
    ensures
        payload_enc(v).len() >= 1,
{
    match v {
        NbtView::Compound(c) => {
            assert(payload_enc(v).len() >= 1);
        },
        _ => {},
    }
}

/// Decoding an encoded 32-bit array yields its elements back.
proof fn lemma_i32s_rt(a: Seq<i32>, acc: Seq<i32>, rest: Seq<u8>)
    ensures
        i32s_dec(i32s_bytes(a) + rest, a.len() as int, acc) == Ok::<(Seq<i32>, int), ProtoError>(
            (acc + a, i32s_bytes(a).len() as int),
        ),
    decreases a,
{
    if a.len() == 0 {
        assert(acc + a =~= acc);
        assert(i32s_bytes(a) + rest =~= rest);
    } else {
        let tail = a.subrange(1, a.len() as int);
        let s = i32s_bytes(a) + rest;
        lemma_u32_enc_dec(u32_of_i32(a[0]), i32s_bytes(tail) + rest);
        assert(u32_be(u32_of_i32(a[0])) + (i32s_bytes(tail) + rest) =~= s);
        assert(s.skip(4) =~= i32s_bytes(tail) + rest);
        assert(i32_of_u32(u32_of_i32(a[0])) == a[0]);
        lemma_i32s_rt(tail, acc.push(a[0]), rest);
        assert(acc.push(a[0]) + tail =~= acc + a);
    }
}

/// Decoding an encoded 64-bit array yields its elements back.
pub proof fn lemma_i64s_rt(a: Seq<i64>, acc: Seq<i64>, rest: Seq<u8>)
    ensures
        i64s_dec(i64s_bytes(a) + rest, a.len() as int, acc) == Ok::<(Seq<i64>, int), ProtoError>(
            (acc + a, i64s_bytes(a).len() as int),
        ),
    decreases a,
{
    if a.len() == 0 {
        assert(acc + a =~= acc);
        assert(i64s_bytes(a) + rest =~= rest);
    } else {
        let tail = a.subrange(1, a.len() as int);
        let s = i64s_bytes(a) + rest;
        lemma_u64_enc_dec(u64_of_i64(a[0]), i64s_bytes(tail) + rest);
        assert(u64_be(u64_of_i64(a[0])) + (i64s_bytes(tail) + rest) =~= s);
        assert(s.skip(8) =~= i64s_bytes(tail) + rest);
        assert(i64_of_u64(u64_of_i64(a[0])) == a[0]);
        lemma_i64s_rt(tail, acc.push(a[0]), rest);
        assert(acc.push(a[0]) + tail =~= acc + a);
    }
}

/// Decoding an encoded payload yields the value back and consumes
/// exactly the encoding.
#[verifier::rlimit(100)]
#[verifier::spinoff_prover]
proof fn lemma_payload_rt(v: NbtView, rest: Seq<u8>)
    requires
        nbt_wf(v),
        nbt_canonical(v),
    ensures
        payload_dec(payload_enc(v) + rest, nbt_tag(v)) == Ok::<(NbtView, int), ProtoError>(
            (v, payload_enc(v).len() as int),
        ),
    decreases v,
{
    let s = payload_enc(v) + rest;
    match v {
        NbtView::Byte(x) => {
            assert(s[0] == u8_of_i8(x));
            assert(i8_of_u8(u8_of_i8(x)) == x);
        },
        NbtView::Short(x) => {
            lemma_u16_enc_dec(u16_of_i16(x), rest);
            assert(i16_of_u16(u16_of_i16(x)) == x);
        },
        NbtView::Int(x) => {
            lemma_u32_enc_dec(u32_of_i32(x), rest);
            assert(i32_of_u32(u32_of_i32(x)) == x);
        },
        NbtView::Long(x) => {
            lemma_u64_enc_dec(u64_of_i64(x), rest);
            assert(i64_of_u64(u64_of_i64(x)) == x);
        },
        NbtView::Float(b) => {
            lemma_u32_enc_dec(b, rest);
        },
        NbtView::Double(b) => {
            lemma_u64_enc_dec(b, rest);
        },
        NbtView::ByteArray(a) => {
            lemma_u32_enc_dec(a.len() as u32, i8s_bytes(a) + rest);
            assert(u32_be(a.len() as u32) + (i8s_bytes(a) + rest) =~= s);
            assert(i32_of_u32(a.len() as u32) == a.len());
            assert(s.subrange(4, 4 + a.len() as int) =~= i8s_bytes(a));
            assert(i8s_of(i8s_bytes(a)) =~= a);
        },
        NbtView::String(b) => {
            lemma_ushort_string_enc_dec(b, rest);
        },
        NbtView::List(l) => {
            let ec = elems_enc(l.elems);
            lemma_u32_enc_dec(l.elems.len() as u32, ec + rest);
            assert(s.subrange(1, s.len() as int) =~= u32_be(l.elems.len() as u32) + (ec + rest));
            assert(i32_of_u32(l.elems.len() as u32) == l.elems.len());
            assert(s.skip(5) =~= ec + rest);
            assert(s[0] == l.etag);
            lemma_elems_rt(l.elems, l.etag, Seq::empty(), rest);
            assert(Seq::<NbtView>::empty() + l.elems =~= l.elems);
            assert(v == NbtView::List(NbtListView { etag: l.etag, elems: l.elems }));
        },
        NbtView::Compound(c) => {
            lemma_named_rt(c, rest);
        },
        NbtView::IntArray(a) => {
            lemma_u32_enc_dec(a.len() as u32, i32s_bytes(a) + rest);
            assert(u32_be(a.len() as u32) + (i32s_bytes(a) + rest) =~= s);
            assert(i32_of_u32(a.len() as u32) == a.len());
            assert(s.skip(4) =~= i32s_bytes(a) + rest);
            lemma_i32s_rt(a, Seq::empty(), rest);
            assert(Seq::<i32>::empty() + a =~= a);
        },
        NbtView::LongArray(a) => {
            lemma_u32_enc_dec(a.len() as u32, i64s_bytes(a) + rest);
            assert(u32_be(a.len() as u32) + (i64s_bytes(a) + rest) =~= s);
            assert(i32_of_u32(a.len() as u32) == a.len());
            assert(s.skip(4) =~= i64s_bytes(a) + rest);
            lemma_i64s_rt(a, Seq::empty(), rest);
            assert(Seq::<i64>::empty() + a =~= a);
        },
    }
}

/// Decoding an encoded element sequence yields the elements back.
proof fn lemma_elems_rt(s: Seq<NbtView>, etag: u8, acc: Seq<NbtView>, rest: Seq<u8>)
    requires
        elems_wf(s, etag),
        elems_canonical(s),
    ensures
        elems_dec(elems_enc(s) + rest, etag, s.len() as int, acc) == Ok::<
            (Seq<NbtView>, int),
            ProtoError,
        >((acc + s, elems_enc(s).len() as int)),
    decreases s,
{
    if s.len() == 0 {
        assert(acc + s =~= acc);
    } else {
        let tail = s.subrange(1, s.len() as int);
        let w = elems_enc(s) + rest;
        assert(elems_enc(s) == payload_enc(s[0]) + elems_enc(tail));
        assert(payload_enc(s[0]) + (elems_enc(tail) + rest) =~= w);
        lemma_payload_rt(s[0], elems_enc(tail) + rest);
        lemma_payload_enc_len(s[0]);
        let plen = payload_enc(s[0]).len() as int;
        assert(w.skip(plen) =~= elems_enc(tail) + rest);
        lemma_elems_rt(tail, etag, acc.push(s[0]), rest);
        assert(acc.push(s[0]) + tail =~= acc + s);
    }
}

/// Decoding an encoded named compound yields it back.
#[verifier::rlimit(100)]
#[verifier::spinoff_prover]
proof fn lemma_named_rt(c: CompoundView, rest: Seq<u8>)
    requires
        compound_wf(c),
        compound_canonical(c),
    ensures
        named_dec(named_enc(c) + rest) == Ok::<(CompoundView, int), ProtoError>(
            (c, named_enc(c).len() as int),
        ),
    decreases c,
{
    let s = named_enc(c) + rest;
    let after = props_enc(c.props) + seq![TAG_END] + rest;
    lemma_ushort_string_enc_dec(c.name, after);
    assert(ushort_string_enc(c.name) + after =~= s);
    let n1 = 2 + c.name.len() as int;
    assert(s.skip(n1) =~= props_enc(c.props) + seq![TAG_END] + rest);
    assert(keys_unique(Seq::<(Seq<u8>, NbtView)>::empty() + c.props)) by {
        assert(Seq::<(Seq<u8>, NbtView)>::empty() + c.props =~= c.props);
    }
    lemma_props_rt(c.props, Seq::empty(), rest);
    assert(Seq::<(Seq<u8>, NbtView)>::empty() + c.props =~= c.props);
    assert(c == CompoundView { name: c.name, props: c.props });
}

/// Decoding encoded properties (up to and including the `End` byte)
/// appends them to the accumulator, provided no name repeats.
#[verifier::rlimit(100)]
#[verifier::spinoff_prover]
proof fn lemma_props_rt(ps: Seq<(Seq<u8>, NbtView)>, acc: Seq<(Seq<u8>, NbtView)>, rest: Seq<u8>)
    requires
        props_wf(ps),
        props_canonical(ps),
        keys_unique(acc + ps),
    ensures
        props_dec(props_enc(ps) + seq![TAG_END] + rest, acc) == Ok::<
            (Seq<(Seq<u8>, NbtView)>, int),
            ProtoError,
        >((acc + ps, props_enc(ps).len() as int + 1)),
    decreases ps,
{
    let s = props_enc(ps) + seq![TAG_END] + rest;
    if ps.len() == 0 {
        assert(s =~= seq![TAG_END] + rest);
        assert(s[0] == TAG_END);
        assert(acc + ps =~= acc);
    } else {
        let p0 = ps[0];
        let tail = ps.subrange(1, ps.len() as int);
        assert(p0.0.len() <= 0xffff && nbt_wf(p0.1) && props_wf(tail));
        assert(nbt_canonical(p0.1) && props_canonical(tail));
        assert(props_enc(ps) == prop_enc(p0.0, p0.1) + props_enc(tail));
        let after = props_enc(tail) + seq![TAG_END] + rest;
        // The first property's name is fresh for the accumulator.
        assert(forall|j: int| 0 <= j < acc.len() ==> (acc + ps)[j] == acc[j]);
        assert((acc + ps)[acc.len() as int] == p0);
        assert(forall|j: int| 0 <= j < acc.len() ==> acc[j].0 != p0.0);
        lemma_find_key(acc, p0.0);
        assert(find_key(acc, p0.0) < 0) by {
            if find_key(acc, p0.0) >= 0 {
                assert(acc[find_key(acc, p0.0)].0 == p0.0);
            }
        }
        assert(props_set(acc, p0.0, p0.1) == acc.push(p0));
        // Uniqueness carries to the accumulator extended by the head.
        assert(acc + ps =~= acc.push(p0) + tail);
        match p0.1 {
            NbtView::Compound(cc) => {
                assert(compound_wf(cc));
                assert(compound_canonical(cc));
                assert(s[0] == TAG_COMPOUND);
                assert(prop_enc(p0.0, p0.1) == seq![TAG_COMPOUND] + named_enc(cc));
                assert(s.skip(1) =~= named_enc(cc) + after);
                lemma_named_rt(cc, after);
                let n = named_enc(cc).len() as int;
                lemma_named_dec_bounds(s.skip(1));
                assert(s.skip(1 + n) =~= props_enc(tail) + seq![TAG_END] + rest);
                assert(cc.name == p0.0);
                assert(props_set(acc, cc.name, NbtView::Compound(cc)) == acc.push(p0));
                lemma_props_rt(tail, acc.push(p0), rest);
            },
            _ => {
                let tag = nbt_tag(p0.1);
                assert(prop_enc(p0.0, p0.1) == seq![tag] + ushort_string_enc(p0.0) + payload_enc(
                    p0.1,
                ));
                assert(s[0] == tag);
                assert(1 <= tag <= 12 && tag != TAG_END && tag != TAG_COMPOUND);
                assert(s.skip(1) =~= ushort_string_enc(p0.0) + (payload_enc(p0.1) + after));
                lemma_ushort_string_enc_dec(p0.0, payload_enc(p0.1) + after);
                let n1 = 2 + p0.0.len() as int;
                assert(s.skip(1 + n1) =~= payload_enc(p0.1) + after);
                lemma_payload_rt(p0.1, after);
                lemma_payload_enc_len(p0.1);
                let n2 = payload_enc(p0.1).len() as int;
                assert(s.skip(1 + n1 + n2) =~= props_enc(tail) + seq![TAG_END] + rest);
                lemma_props_rt(tail, acc.push(p0), rest);
            },
        }
    }
}

/// NBT round trip: any well-formed, canonical compound decodes back
/// from its document encoding (followed by anything), consuming exactly
/// the encoding.  Canonical means property names are unique and every
/// compound-valued property is keyed by the compound's own name; inputs
/// outside that (a duplicated name, or a compound stored under a key
/// other than its name) do not survive the wire format, which keeps one
/// name slot per compound and one value per name.
pub proof fn lemma_nbt_round_trip(c: CompoundView, rest: Seq<u8>)
    requires
        compound_wf(c),
        compound_canonical(c),
    ensures
        compound_dec(compound_enc(c) + rest) == Ok::<(CompoundView, int), ProtoError>(
            (c, compound_enc(c).len() as int),
        ),
{
    let s = compound_enc(c) + rest;
    assert(s[0] == TAG_COMPOUND);
    assert(s.skip(1) =~= named_enc(c) + rest);
    lemma_named_rt(c, rest);
}

impl View for Nbt {
    type V = NbtView;

    open spec fn view(&self) -> NbtView {
        nbt_view(*self)
    }
}

impl View for NbtList {
    type V = NbtListView;

    open spec fn view(&self) -> NbtListView {
        list_view(*self)
    }
}

impl View for CompoundNbt {
    type V = CompoundView;

    open spec fn view(&self) -> CompoundView {
        compound_view(*self)
    }
}

} // verus!
