//! The binary wire encoding of catalogs.
//!
//! A catalog is the only data (as opposed to pointers) that crosses the
//! module boundary, so it gets a compact, self-describing binary encoding:
//! little-endian fixed-width integers, length-prefixed strings of 32-bit
//! code points, one tag byte per tagged union.
//!
//! For each wire entity there is a specification-level encoder, a
//! specification-level decoder, and a pair of executable functions proved
//! to match them. The decoding of every encoded value is proved to give
//! back that value.

use vstd::bytes::lemma_auto_spec_u32_to_from_le_bytes;
use vstd::bytes::lemma_auto_spec_u64_to_from_le_bytes;
use vstd::bytes::spec_u32_from_le_bytes;
use vstd::bytes::spec_u32_to_le_bytes;
use vstd::bytes::spec_u64_from_le_bytes;
use vstd::bytes::spec_u64_to_le_bytes;
use vstd::bytes::u32_from_le_bytes;
use vstd::bytes::u32_to_le_bytes;
use vstd::bytes::u64_from_le_bytes;
use vstd::bytes::u64_to_le_bytes;
use vstd::prelude::*;
use vstd::slice::slice_subrange;
use vstd::string::StrSliceExecFns;

use crate::error::ScriptApiError;
use crate::script_api::paths_unique;
use crate::script_api::DataLayout;
use crate::script_api::ScriptApi;
use crate::script_api::FunctionDefinition;
use crate::script_api::FunctionDefinitionV;
use crate::script_api::DataType;
use crate::script_api::DataTypeV;
use crate::script_api::Primitive;
use crate::script_api::ScriptType;
use crate::script_api::ScriptTypeV;
use crate::script_api::StructDefinition;
use crate::script_api::StructDefinitionV;
use crate::script_api::view_fields;
use crate::script_api::view_struct_definition;

verus! {

/// `enc` occurs in `b` starting at `pos`.
pub open spec fn prefix_at(b: Seq<u8>, pos: int, enc: Seq<u8>) -> bool {
    &&& 0 <= pos
    &&& pos + enc.len() <= b.len()
    &&& b.subrange(pos, pos + enc.len()) == enc
}

/// Splitting a prefix made of two parts.
proof fn lemma_prefix_concat(b: Seq<u8>, pos: int, x: Seq<u8>, y: Seq<u8>)
    requires
        prefix_at(b, pos, x + y),
    ensures
        prefix_at(b, pos, x),
        prefix_at(b, pos + x.len(), y),
{
    let l = x.len() + y.len();
    assert forall|i: int| 0 <= i < x.len() implies b[pos + i] == x[i] by {
        assert(b.subrange(pos, pos + l)[i] == (x + y)[i]);
    }
    assert forall|i: int| 0 <= i < y.len() implies b[pos + x.len() + i] == y[i] by {
        assert(b.subrange(pos, pos + l)[x.len() + i] == (x + y)[x.len() + i]);
    }
    assert(b.subrange(pos, pos + x.len()) =~= x);
    assert(b.subrange(pos + x.len(), pos + x.len() + y.len()) =~= y);
}

/// Relies on `String::push`: appends the given character to the end of the
/// string.
#[verifier::external_body]
fn push_char(s: &mut String, c: char)
    ensures
        final(s)@ == old(s)@.push(c),
{
    s.push(c)
}

/// A character's code point.
pub open spec fn char_code(c: char) -> u32 {
    c as u32
}

/// Two characters with the same code point are the same character.
proof fn lemma_char_code_injective(a: char, b: char)
    requires
        a as u32 == b as u32,
    ensures
        a == b,
{
}

/// Relies on `char::from_u32`: returns the character with the given code
/// point exactly when one exists, and `None` otherwise.
#[verifier::external_body]
fn char_from_u32(x: u32) -> (r: Option<char>)
    ensures
        r matches Some(c) ==> c as u32 == x,
        forall|c: char| #[trigger] char_code(c) == x ==> r == Some(c),
{
    char::from_u32(x)
}

// ---------------------------------------------------------------------
// Unsigned 64-bit integers: 8 bytes, little endian.
// ---------------------------------------------------------------------
/// Decoding 8 little-endian bytes at `pos`.
pub open spec fn spec_decode_u64(b: Seq<u8>, pos: int) -> Option<(u64, int)> {
    if 0 <= pos && pos + 8 <= b.len() {
        Some((spec_u64_from_le_bytes(b.subrange(pos, pos + 8)), pos + 8))
    } else {
        None
    }
}

/// Every encoded integer decodes to itself.
proof fn lemma_decode_encode_u64(b: Seq<u8>, pos: int, x: u64)
    requires
        prefix_at(b, pos, spec_u64_to_le_bytes(x)),
    ensures
        spec_decode_u64(b, pos) == Some((x, pos + 8)),
{
    lemma_auto_spec_u64_to_from_le_bytes();
}

fn encode_u64(x: u64, out: &mut Vec<u8>)
    ensures
        final(out)@ == old(out)@ + spec_u64_to_le_bytes(x),
{
    let mut bs = u64_to_le_bytes(x);
    out.append(&mut bs);
}

fn decode_u64(bytes: &Vec<u8>, pos: usize) -> (r: Option<(u64, usize)>)
    ensures
        match r {
            Some((x, p)) => spec_decode_u64(bytes@, pos as int) == Some((x, p as int)) && pos < p
                <= bytes@.len(),
            None => spec_decode_u64(bytes@, pos as int) is None,
        },
{
    if bytes.len() >= 8 && pos <= bytes.len() - 8 {
        let s = slice_subrange(bytes.as_slice(), pos, pos + 8);
        let x = u64_from_le_bytes(s);
        Some((x, pos + 8))
    } else {
        None
    }
}

// ---------------------------------------------------------------------
// Characters: the code point as 4 bytes, little endian.
// ---------------------------------------------------------------------
/// The wire form of one character.
pub open spec fn spec_encode_char(c: char) -> Seq<u8> {
    spec_u32_to_le_bytes(c as u32)
}

/// Decoding 4 little-endian bytes at `pos` as a code point.
pub open spec fn spec_decode_char(b: Seq<u8>, pos: int) -> Option<(char, int)> {
    if 0 <= pos && pos + 4 <= b.len() {
        let x = spec_u32_from_le_bytes(b.subrange(pos, pos + 4));
        if exists|c: char| #[trigger] char_code(c) == x {
            Some((choose|c: char| #[trigger] char_code(c) == x, pos + 4))
        } else {
            None
        }
    } else {
        None
    }
}

/// Every encoded character decodes to itself.
proof fn lemma_decode_encode_char(b: Seq<u8>, pos: int, c: char)
    requires
        prefix_at(b, pos, spec_encode_char(c)),
    ensures
        spec_decode_char(b, pos) == Some((c, pos + 4)),
{
    lemma_auto_spec_u32_to_from_le_bytes();
    let x = spec_u32_from_le_bytes(b.subrange(pos, pos + 4));
    assert(x == c as u32);
    assert(char_code(c) == x);
    assert(exists|d: char| #[trigger] char_code(d) == x);
    let d = choose|d: char| #[trigger] char_code(d) == x;
    assert(char_code(d) == x);
    lemma_char_code_injective(d, c);
}

fn encode_char(c: char, out: &mut Vec<u8>)
    ensures
        final(out)@ == old(out)@ + spec_encode_char(c),
{
    let mut bs = u32_to_le_bytes(c as u32);
    out.append(&mut bs);
}

fn decode_char(bytes: &Vec<u8>, pos: usize) -> (r: Option<(char, usize)>)
    ensures
        match r {
            Some((c, p)) => spec_decode_char(bytes@, pos as int) == Some((c, p as int)) && pos < p
                <= bytes@.len(),
            None => spec_decode_char(bytes@, pos as int) is None,
        },
{
    if bytes.len() >= 4 && pos <= bytes.len() - 4 {
        let s = slice_subrange(bytes.as_slice(), pos, pos + 4);
        let x = u32_from_le_bytes(s);
        match char_from_u32(x) {
            Some(c) => {
                proof {
                    assert(char_code(c) == x);
                    assert(exists|d: char| #[trigger] char_code(d) == x);
                    let d = choose|d: char| #[trigger] char_code(d) == x;
                    assert(char_code(d) == x);
                    lemma_char_code_injective(d, c);
                }
                Some((c, pos + 4))
            },
            None => {
                proof {
                    assert(spec_decode_char(bytes@, pos as int) is None);
                }
                None
            },
        }
    } else {
        None
    }
}

// ---------------------------------------------------------------------
// Strings: a 64-bit character count, then each character.
// ---------------------------------------------------------------------
/// The string's length fits the wire format's 64-bit length field.
pub open spec fn str_fits(s: Seq<char>) -> bool {
    s.len() <= u64::MAX
}

/// The wire form of a character sequence, without its count.
pub open spec fn spec_encode_chars(s: Seq<char>) -> Seq<u8>
    decreases s.len(),
{
    if s.len() == 0 {
        Seq::empty()
    } else {
        spec_encode_char(s[0]) + spec_encode_chars(s.drop_first())
    }
}

/// The wire form of a string.
pub open spec fn spec_encode_str(s: Seq<char>) -> Seq<u8> {
    spec_u64_to_le_bytes(s.len() as u64) + spec_encode_chars(s)
}

/// Decoding `count` consecutive characters at `pos`.
pub open spec fn spec_decode_chars(b: Seq<u8>, pos: int, count: nat) -> Option<(Seq<char>, int)>
    decreases count,
{
    if count == 0 {
        Some((Seq::empty(), pos))
    } else {
        match spec_decode_char(b, pos) {
            None => None,
            Some((c, p)) => match spec_decode_chars(b, p, (count - 1) as nat) {
                None => None,
                Some((s, q)) => Some((seq![c] + s, q)),
            },
        }
    }
}

/// Decoding a string at `pos`.
pub open spec fn spec_decode_str(b: Seq<u8>, pos: int) -> Option<(Seq<char>, int)> {
    match spec_decode_u64(b, pos) {
        None => None,
        Some((n, p)) => spec_decode_chars(b, p, n as nat),
    }
}

/// Appending one character to a sequence appends its wire form.
proof fn lemma_encode_chars_push(s: Seq<char>, c: char)
    ensures
        spec_encode_chars(s.push(c)) == spec_encode_chars(s) + spec_encode_char(c),
    decreases s.len(),
{
    if s.len() == 0 {
        assert(s.push(c).drop_first() =~= Seq::<char>::empty());
        assert(s.push(c)[0] == c);
        assert(spec_encode_chars(s.push(c).drop_first()) =~= Seq::<u8>::empty());
        assert(spec_encode_chars(s.push(c)) =~= spec_encode_char(c));
        assert(spec_encode_chars(s) + spec_encode_char(c) =~= spec_encode_char(c));
    } else {
        lemma_encode_chars_push(s.drop_first(), c);
        assert(s.push(c).drop_first() =~= s.drop_first().push(c));
        assert(spec_encode_chars(s.push(c)) =~= spec_encode_chars(s) + spec_encode_char(c));
    }
}

/// Every encoded character sequence decodes to itself.
proof fn lemma_decode_encode_chars(b: Seq<u8>, pos: int, s: Seq<char>)
    requires
        prefix_at(b, pos, spec_encode_chars(s)),
    ensures
        spec_decode_chars(b, pos, s.len()) == Some((s, pos + 4 * s.len())),
    decreases s.len(),
{
    if s.len() == 0 {
        assert(spec_decode_chars(b, pos, 0) == Some((Seq::<char>::empty(), pos)));
        assert(s =~= Seq::<char>::empty());
    } else {
        lemma_auto_spec_u32_to_from_le_bytes();
        assert(spec_encode_chars(s) == spec_encode_char(s[0]) + spec_encode_chars(s.drop_first()));
        assert(spec_encode_char(s[0]).len() == 4);
        lemma_prefix_concat(b, pos, spec_encode_char(s[0]), spec_encode_chars(s.drop_first()));
        lemma_decode_encode_char(b, pos, s[0]);
        lemma_decode_encode_chars(b, pos + 4, s.drop_first());
        assert(seq![s[0]] + s.drop_first() =~= s);
    }
}

/// Every encoded string whose length fits the wire format decodes to
/// itself.
proof fn lemma_decode_encode_str(b: Seq<u8>, pos: int, s: Seq<char>)
    requires
        str_fits(s),
        prefix_at(b, pos, spec_encode_str(s)),
    ensures
        spec_decode_str(b, pos) == Some((s, pos + 8 + 4 * s.len())),
{
    lemma_auto_spec_u64_to_from_le_bytes();
    assert(spec_u64_to_le_bytes(s.len() as u64).len() == 8);
    lemma_prefix_concat(b, pos, spec_u64_to_le_bytes(s.len() as u64), spec_encode_chars(s));
    lemma_decode_encode_u64(b, pos, s.len() as u64);
    lemma_decode_encode_chars(b, pos + 8, s);
    assert((s.len() as u64) as nat == s.len());
}

fn encode_str(s: &str, out: &mut Vec<u8>)
    ensures
        final(out)@ == old(out)@ + spec_encode_str(s@),
        str_fits(s@),
{
    let n = s.unicode_len();
    encode_u64(n as u64, out);
    let mut i: usize = 0;
    while i < n
        invariant
            n == s@.len(),
            i <= n,
            out@ == old(out)@ + spec_u64_to_le_bytes(n as u64) + spec_encode_chars(s@.take(i as int)),
        decreases n - i,
    {
        let c = s.get_char(i);
        encode_char(c, out);
        proof {
            lemma_encode_chars_push(s@.take(i as int), c);
            assert(s@.take(i + 1 as int) =~= s@.take(i as int).push(c));
            assert(out@ =~= old(out)@ + spec_u64_to_le_bytes(n as u64) + spec_encode_chars(
                s@.take(i + 1 as int),
            ));
        }
        i = i + 1;
    }
    proof {
        assert(s@.take(n as int) =~= s@);
        assert(out@ =~= old(out)@ + spec_encode_str(s@));
    }
}

fn decode_str(bytes: &Vec<u8>, pos: usize) -> (r: Option<(String, usize)>)
    ensures
        match r {
            Some((s, p)) => spec_decode_str(bytes@, pos as int) == Some((s@, p as int)) && pos < p
                <= bytes@.len(),
            None => spec_decode_str(bytes@, pos as int) is None,
        },
{
    match decode_u64(bytes, pos) {
        None => None,
        Some((n, p8)) => {
            let mut out = String::new();
            let mut cur: usize = p8;
            let mut i: u64 = 0;
            proof {
                match spec_decode_chars(bytes@, p8 as int, n as nat) {
                    Some((s, q)) => {
                        assert(Seq::<char>::empty() + s =~= s);
                    },
                    None => {},
                }
            }
            while i < n
                invariant
                    i <= n,
                    pos < p8 <= cur <= bytes@.len(),
                    spec_decode_u64(bytes@, pos as int) == Some((n, p8 as int)),
                    out@.len() == i,
                    spec_decode_chars(bytes@, p8 as int, n as nat) == (
                    match spec_decode_chars(bytes@, cur as int, (n - i) as nat) {
                        Some((s, q)) => Some::<(Seq<char>, int)>((out@ + s, q)),
                        None => None::<(Seq<char>, int)>,
                    }),
                decreases n - i,
            {
                match decode_char(bytes, cur) {
                    None => {
                        proof {
                            assert(spec_decode_chars(bytes@, cur as int, (n - i) as nat) is None);
                            assert(spec_decode_chars(bytes@, p8 as int, n as nat) is None);
                        }
                        return None;
                    },
                    Some((c, p)) => {
                        let ghost prev = out@;
                        push_char(&mut out, c);
                        proof {
                            assert(((n - i) as nat - 1) as nat == (n - (i + 1)) as nat);
                            match spec_decode_chars(bytes@, p as int, (n - (i + 1)) as nat) {
                                Some((s, q)) => {
                                    assert(prev + (seq![c] + s) =~= out@ + s);
                                },
                                None => {},
                            }
                            assert(spec_decode_chars(bytes@, p8 as int, n as nat) == (
                            match spec_decode_chars(bytes@, p as int, (n - (i + 1)) as nat) {
                                Some((s, q)) => Some::<(Seq<char>, int)>((out@ + s, q)),
                                None => None::<(Seq<char>, int)>,
                            }));
                        }
                        cur = p;
                        i = i + 1;
                    },
                }
            }
            proof {
                assert((n - i) as nat == 0);
                assert(spec_decode_chars(bytes@, cur as int, (n - i) as nat) == Some::<
                    (Seq<char>, int),
                >((Seq::<char>::empty(), cur as int)));
                assert(out@ + Seq::<char>::empty() =~= out@);
                assert(spec_decode_chars(bytes@, p8 as int, n as nat) == Some::<(Seq<char>, int)>(
                    (out@, cur as int),
                ));
            }
            Some((out, cur))
        },
    }
}

// ---------------------------------------------------------------------
// Single bytes: tags of unions and options.
// ---------------------------------------------------------------------
/// Decoding one byte at `pos`.
pub open spec fn spec_decode_u8(b: Seq<u8>, pos: int) -> Option<(u8, int)> {
    if 0 <= pos && pos + 1 <= b.len() {
        Some((b[pos], pos + 1))
    } else {
        None
    }
}

fn encode_u8(x: u8, out: &mut Vec<u8>)
    ensures
        final(out)@ == old(out)@ + seq![x],
{
    out.push(x);
    proof {
        assert(out@ =~= old(out)@ + seq![x]);
    }
}

fn decode_u8(bytes: &Vec<u8>, pos: usize) -> (r: Option<(u8, usize)>)
    ensures
        match r {
            Some((x, p)) => spec_decode_u8(bytes@, pos as int) == Some((x, p as int)) && pos < p
                <= bytes@.len(),
            None => spec_decode_u8(bytes@, pos as int) is None,
        },
{
    if pos < bytes.len() {
        Some((bytes[pos], pos + 1))
    } else {
        None
    }
}

/// A one-byte prefix decodes to that byte.
proof fn lemma_decode_encode_u8(b: Seq<u8>, pos: int, x: u8)
    requires
        prefix_at(b, pos, seq![x]),
    ensures
        spec_decode_u8(b, pos) == Some((x, pos + 1)),
{
    assert(b.subrange(pos, pos + 1)[0] == b[pos]);
}

// ---------------------------------------------------------------------
// Layouts: size then alignment, each as a 64-bit integer.
// ---------------------------------------------------------------------
/// The wire form of a layout.
pub open spec fn spec_encode_layout(l: DataLayout) -> Seq<u8> {
    spec_u64_to_le_bytes(l.spec_size() as u64) + spec_u64_to_le_bytes(l.spec_align() as u64)
}

/// Decoding a layout at `pos`. The raw parts are taken as they come; layout
/// validity is checked where a layout is built, not here.
pub open spec fn spec_decode_layout(b: Seq<u8>, pos: int) -> Option<(DataLayout, int)> {
    match spec_decode_u64(b, pos) {
        None => None,
        Some((x, p1)) => match spec_decode_u64(b, p1) {
            None => None,
            Some((y, p2)) => if x <= usize::MAX && y <= usize::MAX {
                Some((DataLayout::spec_raw(x as usize, y as usize), p2))
            } else {
                None
            },
        },
    }
}

/// Every encoded layout decodes to itself.
proof fn lemma_decode_encode_layout(b: Seq<u8>, pos: int, l: DataLayout)
    requires
        prefix_at(b, pos, spec_encode_layout(l)),
    ensures
        spec_decode_layout(b, pos) == Some((l, pos + 16)),
{
    lemma_auto_spec_u64_to_from_le_bytes();
    lemma_prefix_concat(
        b,
        pos,
        spec_u64_to_le_bytes(l.spec_size() as u64),
        spec_u64_to_le_bytes(l.spec_align() as u64),
    );
    lemma_decode_encode_u64(b, pos, l.spec_size() as u64);
    lemma_decode_encode_u64(b, pos + 8, l.spec_align() as u64);
    l.lemma_spec_raw_id();
}

fn encode_layout(l: &DataLayout, out: &mut Vec<u8>)
    ensures
        final(out)@ == old(out)@ + spec_encode_layout(*l),
{
    encode_u64(l.size() as u64, out);
    encode_u64(l.align() as u64, out);
    proof {
        assert(out@ =~= old(out)@ + spec_encode_layout(*l));
    }
}

fn decode_layout(bytes: &Vec<u8>, pos: usize) -> (r: Option<(DataLayout, usize)>)
    ensures
        match r {
            Some((l, p)) => spec_decode_layout(bytes@, pos as int) == Some((l, p as int)) && pos < p
                <= bytes@.len(),
            None => spec_decode_layout(bytes@, pos as int) is None,
        },
{
    match decode_u64(bytes, pos) {
        None => None,
        Some((x, p1)) => match decode_u64(bytes, p1) {
            None => None,
            Some((y, p2)) => {
                if x <= usize::MAX as u64 && y <= usize::MAX as u64 {
                    Some((DataLayout::raw(x as usize, y as usize), p2))
                } else {
                    None
                }
            },
        },
    }
}

// ---------------------------------------------------------------------
// Primitive types: one tag byte.
// ---------------------------------------------------------------------
/// The tag byte of each primitive type.
pub open spec fn spec_primitive_tag(p: Primitive) -> u8 {
    match p {
        Primitive::U8 => 0,
        Primitive::U16 => 1,
        Primitive::U32 => 2,
        Primitive::U64 => 3,
        Primitive::U128 => 4,
        Primitive::I8 => 5,
        Primitive::I16 => 6,
        Primitive::I32 => 7,
        Primitive::I64 => 8,
        Primitive::I128 => 9,
        Primitive::F32 => 10,
        Primitive::F64 => 11,
        Primitive::Char => 12,
        Primitive::Bool => 13,
    }
}

/// The primitive type carrying each tag byte, if any.
pub open spec fn spec_primitive_of_tag(t: u8) -> Option<Primitive> {
    if t == 0 {
        Some(Primitive::U8)
    } else if t == 1 {
        Some(Primitive::U16)
    } else if t == 2 {
        Some(Primitive::U32)
    } else if t == 3 {
        Some(Primitive::U64)
    } else if t == 4 {
        Some(Primitive::U128)
    } else if t == 5 {
        Some(Primitive::I8)
    } else if t == 6 {
        Some(Primitive::I16)
    } else if t == 7 {
        Some(Primitive::I32)
    } else if t == 8 {
        Some(Primitive::I64)
    } else if t == 9 {
        Some(Primitive::I128)
    } else if t == 10 {
        Some(Primitive::F32)
    } else if t == 11 {
        Some(Primitive::F64)
    } else if t == 12 {
        Some(Primitive::Char)
    } else if t == 13 {
        Some(Primitive::Bool)
    } else {
        None
    }
}

/// The wire form of a primitive type.
pub open spec fn spec_encode_primitive(p: Primitive) -> Seq<u8> {
    seq![spec_primitive_tag(p)]
}

/// Decoding a primitive type at `pos`.
pub open spec fn spec_decode_primitive(b: Seq<u8>, pos: int) -> Option<(Primitive, int)> {
    match spec_decode_u8(b, pos) {
        None => None,
        Some((t, p)) => match spec_primitive_of_tag(t) {
            None => None,
            Some(prim) => Some((prim, p)),
        },
    }
}

/// Every encoded primitive type decodes to itself.
proof fn lemma_decode_encode_primitive(b: Seq<u8>, pos: int, p: Primitive)
    requires
        prefix_at(b, pos, spec_encode_primitive(p)),
    ensures
        spec_decode_primitive(b, pos) == Some((p, pos + 1)),
{
    lemma_decode_encode_u8(b, pos, spec_primitive_tag(p));
}

fn encode_primitive(p: &Primitive, out: &mut Vec<u8>)
    ensures
        final(out)@ == old(out)@ + spec_encode_primitive(*p),
{
    let t: u8 = match p {
        Primitive::U8 => 0,
        Primitive::U16 => 1,
        Primitive::U32 => 2,
        Primitive::U64 => 3,
        Primitive::U128 => 4,
        Primitive::I8 => 5,
        Primitive::I16 => 6,
        Primitive::I32 => 7,
        Primitive::I64 => 8,
        Primitive::I128 => 9,
        Primitive::F32 => 10,
        Primitive::F64 => 11,
        Primitive::Char => 12,
        Primitive::Bool => 13,
    };
    encode_u8(t, out);
}

fn decode_primitive(bytes: &Vec<u8>, pos: usize) -> (r: Option<(Primitive, usize)>)
    ensures
        match r {
            Some((prim, p)) => spec_decode_primitive(bytes@, pos as int) == Some((prim, p as int))
                && pos < p <= bytes@.len(),
            None => spec_decode_primitive(bytes@, pos as int) is None,
        },
{
    match decode_u8(bytes, pos) {
        None => None,
        Some((t, p)) => {
            let prim = if t == 0 {
                Some(Primitive::U8)
            } else if t == 1 {
                Some(Primitive::U16)
            } else if t == 2 {
                Some(Primitive::U32)
            } else if t == 3 {
                Some(Primitive::U64)
            } else if t == 4 {
                Some(Primitive::U128)
            } else if t == 5 {
                Some(Primitive::I8)
            } else if t == 6 {
                Some(Primitive::I16)
            } else if t == 7 {
                Some(Primitive::I32)
            } else if t == 8 {
                Some(Primitive::I64)
            } else if t == 9 {
                Some(Primitive::I128)
            } else if t == 10 {
                Some(Primitive::F32)
            } else if t == 11 {
                Some(Primitive::F64)
            } else if t == 12 {
                Some(Primitive::Char)
            } else if t == 13 {
                Some(Primitive::Bool)
            } else {
                None
            };
            match prim {
                Some(prim) => Some((prim, p)),
                None => None,
            }
        },
    }
}

// ---------------------------------------------------------------------
// Optional type paths: a tag byte, then the string when present.
// ---------------------------------------------------------------------
/// The optional string's content fits the wire format.
pub open spec fn opt_str_fits(o: Option<Seq<char>>) -> bool {
    match o {
        Some(s) => str_fits(s),
        None => true,
    }
}

/// The wire form of an optional string.
pub open spec fn spec_encode_opt_str(o: Option<Seq<char>>) -> Seq<u8> {
    match o {
        None => seq![0u8],
        Some(s) => seq![1u8] + spec_encode_str(s),
    }
}

/// Decoding an optional string at `pos`.
pub open spec fn spec_decode_opt_str(b: Seq<u8>, pos: int) -> Option<(Option<Seq<char>>, int)> {
    match spec_decode_u8(b, pos) {
        None => None,
        Some((t, p)) => if t == 0 {
            Some((None, p))
        } else if t == 1 {
            match spec_decode_str(b, p) {
                None => None,
                Some((s, q)) => Some((Some(s), q)),
            }
        } else {
            None
        },
    }
}

/// Every encoded optional string decodes to itself.
proof fn lemma_decode_encode_opt_str(b: Seq<u8>, pos: int, o: Option<Seq<char>>)
    requires
        opt_str_fits(o),
        prefix_at(b, pos, spec_encode_opt_str(o)),
    ensures
        spec_decode_opt_str(b, pos) == Some(
            (o, pos + spec_encode_opt_str(o).len()),
        ),
{
    match o {
        None => {
            lemma_decode_encode_u8(b, pos, 0u8);
        },
        Some(s) => {
            lemma_prefix_concat(b, pos, seq![1u8], spec_encode_str(s));
            lemma_decode_encode_u8(b, pos, 1u8);
            lemma_decode_encode_str(b, pos + 1, s);
            lemma_auto_spec_u64_to_from_le_bytes();
            lemma_encode_chars_len(s);
        },
    }
}

/// The wire form of a character sequence is four bytes per character.
proof fn lemma_encode_chars_len(s: Seq<char>)
    ensures
        spec_encode_chars(s).len() == 4 * s.len(),
    decreases s.len(),
{
    lemma_auto_spec_u32_to_from_le_bytes();
    if s.len() > 0 {
        lemma_encode_chars_len(s.drop_first());
    }
}

fn encode_opt_str(o: &Option<String>, out: &mut Vec<u8>)
    ensures
        final(out)@ == old(out)@ + spec_encode_opt_str(match *o {
            Some(s) => Some(s@),
            None => None,
        }),
        opt_str_fits(match *o {
            Some(s) => Some(s@),
            None => None,
        }),
{
    match o {
        None => {
            encode_u8(0, out);
        },
        Some(s) => {
            encode_u8(1, out);
            encode_str(s.as_str(), out);
            proof {
                assert(out@ =~= old(out)@ + spec_encode_opt_str(Some(s@)));
            }
        },
    }
}

fn decode_opt_str(bytes: &Vec<u8>, pos: usize) -> (r: Option<(Option<String>, usize)>)
    ensures
        match r {
            Some((o, p)) => spec_decode_opt_str(bytes@, pos as int) == Some(
                (
                    match o {
                        Some(s) => Some(s@),
                        None => None,
                    },
                    p as int,
                ),
            ) && pos < p <= bytes@.len(),
            None => spec_decode_opt_str(bytes@, pos as int) is None,
        },
{
    match decode_u8(bytes, pos) {
        None => None,
        Some((t, p)) => {
            if t == 0 {
                Some((None, p))
            } else if t == 1 {
                match decode_str(bytes, p) {
                    None => None,
                    Some((s, q)) => Some((Some(s), q)),
                }
            } else {
                None
            }
        },
    }
}

// ---------------------------------------------------------------------
// Function definitions: the argument count, then each argument as a name
// and a type path, then the optional return type path.
// ---------------------------------------------------------------------
/// Both strings of an argument entry fit the wire format.
pub open spec fn pair_fits(p: (Seq<char>, Seq<char>)) -> bool {
    str_fits(p.0) && str_fits(p.1)
}

/// Every argument entry and the count fit the wire format.
pub open spec fn pairs_fit(ps: Seq<(Seq<char>, Seq<char>)>) -> bool {
    &&& ps.len() <= u64::MAX
    &&& forall|i: int| 0 <= i < ps.len() ==> #[trigger] pair_fits(ps[i])
}

/// A function definition fits the wire format.
pub open spec fn fd_fits(f: FunctionDefinitionV) -> bool {
    pairs_fit(f.arguments) && opt_str_fits(f.return_type)
}

/// The wire form of one argument entry.
pub open spec fn spec_encode_pair(p: (Seq<char>, Seq<char>)) -> Seq<u8> {
    spec_encode_str(p.0) + spec_encode_str(p.1)
}

/// The wire form of an argument list, without its count.
pub open spec fn spec_encode_pairs(ps: Seq<(Seq<char>, Seq<char>)>) -> Seq<u8>
    decreases ps.len(),
{
    if ps.len() == 0 {
        Seq::empty()
    } else {
        spec_encode_pair(ps[0]) + spec_encode_pairs(ps.drop_first())
    }
}

/// The wire form of a function definition.
pub open spec fn spec_encode_fd(f: FunctionDefinitionV) -> Seq<u8> {
    spec_u64_to_le_bytes(f.arguments.len() as u64) + spec_encode_pairs(f.arguments)
        + spec_encode_opt_str(f.return_type)
}

/// Decoding one argument entry at `pos`.
pub open spec fn spec_decode_pair(b: Seq<u8>, pos: int) -> Option<((Seq<char>, Seq<char>), int)> {
    match spec_decode_str(b, pos) {
        None => None,
        Some((a, p)) => match spec_decode_str(b, p) {
            None => None,
            Some((c, q)) => Some(((a, c), q)),
        },
    }
}

/// Decoding `count` argument entries at `pos`.
pub open spec fn spec_decode_pairs(b: Seq<u8>, pos: int, count: nat) -> Option<
    (Seq<(Seq<char>, Seq<char>)>, int),
>
    decreases count,
{
    if count == 0 {
        Some((Seq::empty(), pos))
    } else {
        match spec_decode_pair(b, pos) {
            None => None,
            Some((e, p)) => match spec_decode_pairs(b, p, (count - 1) as nat) {
                None => None,
                Some((es, q)) => Some((seq![e] + es, q)),
            },
        }
    }
}

/// Decoding a function definition at `pos`.
pub open spec fn spec_decode_fd(b: Seq<u8>, pos: int) -> Option<(FunctionDefinitionV, int)> {
    match spec_decode_u64(b, pos) {
        None => None,
        Some((n, p)) => match spec_decode_pairs(b, p, n as nat) {
            None => None,
            Some((args, q)) => match spec_decode_opt_str(b, q) {
                None => None,
                Some((ret, r)) => Some(
                    (FunctionDefinitionV { arguments: args, return_type: ret }, r),
                ),
            },
        },
    }
}

/// Appending one entry to an argument list appends its wire form.
proof fn lemma_encode_pairs_push(ps: Seq<(Seq<char>, Seq<char>)>, e: (Seq<char>, Seq<char>))
    ensures
        spec_encode_pairs(ps.push(e)) == spec_encode_pairs(ps) + spec_encode_pair(e),
    decreases ps.len(),
{
    if ps.len() == 0 {
        assert(ps.push(e).drop_first() =~= Seq::<(Seq<char>, Seq<char>)>::empty());
        assert(ps.push(e)[0] == e);
        assert(spec_encode_pairs(ps.push(e).drop_first()) =~= Seq::<u8>::empty());
        assert(spec_encode_pairs(ps.push(e)) =~= spec_encode_pair(e));
        assert(spec_encode_pairs(ps) + spec_encode_pair(e) =~= spec_encode_pair(e));
    } else {
        lemma_encode_pairs_push(ps.drop_first(), e);
        assert(ps.push(e).drop_first() =~= ps.drop_first().push(e));
        assert(spec_encode_pairs(ps.push(e)) =~= spec_encode_pairs(ps) + spec_encode_pair(e));
    }
}

/// Every encoded argument entry decodes to itself.
proof fn lemma_decode_encode_pair(b: Seq<u8>, pos: int, e: (Seq<char>, Seq<char>))
    requires
        pair_fits(e),
        prefix_at(b, pos, spec_encode_pair(e)),
    ensures
        spec_decode_pair(b, pos) == Some((e, pos + spec_encode_pair(e).len())),
{
    lemma_auto_spec_u64_to_from_le_bytes();
    lemma_encode_chars_len(e.0);
    lemma_encode_chars_len(e.1);
    lemma_prefix_concat(b, pos, spec_encode_str(e.0), spec_encode_str(e.1));
    lemma_decode_encode_str(b, pos, e.0);
    lemma_decode_encode_str(b, pos + spec_encode_str(e.0).len(), e.1);
    assert((e.0, e.1) == e);
}

/// Every encoded argument list decodes to itself.
proof fn lemma_decode_encode_pairs(b: Seq<u8>, pos: int, ps: Seq<(Seq<char>, Seq<char>)>)
    requires
        pairs_fit(ps),
        prefix_at(b, pos, spec_encode_pairs(ps)),
    ensures
        spec_decode_pairs(b, pos, ps.len()) == Some((ps, pos + spec_encode_pairs(ps).len())),
    decreases ps.len(),
{
    if ps.len() == 0 {
        assert(ps =~= Seq::<(Seq<char>, Seq<char>)>::empty());
    } else {
        assert(spec_encode_pairs(ps) == spec_encode_pair(ps[0]) + spec_encode_pairs(
            ps.drop_first(),
        ));
        lemma_prefix_concat(b, pos, spec_encode_pair(ps[0]), spec_encode_pairs(ps.drop_first()));
        assert(pair_fits(ps[0]));
        lemma_decode_encode_pair(b, pos, ps[0]);
        assert(pairs_fit(ps.drop_first()));
        lemma_decode_encode_pairs(b, pos + spec_encode_pair(ps[0]).len(), ps.drop_first());
        assert(seq![ps[0]] + ps.drop_first() =~= ps);
    }
}

/// Every encoded function definition decodes to itself.
proof fn lemma_decode_encode_fd(b: Seq<u8>, pos: int, f: FunctionDefinitionV)
    requires
        fd_fits(f),
        prefix_at(b, pos, spec_encode_fd(f)),
    ensures
        spec_decode_fd(b, pos) == Some((f, pos + spec_encode_fd(f).len())),
{
    lemma_auto_spec_u64_to_from_le_bytes();
    let part1 = spec_u64_to_le_bytes(f.arguments.len() as u64);
    let part2 = spec_encode_pairs(f.arguments);
    let part3 = spec_encode_opt_str(f.return_type);
    assert(spec_encode_fd(f) == part1 + part2 + part3);
    assert((part1 + part2 + part3) =~= part1 + (part2 + part3));
    lemma_prefix_concat(b, pos, part1, part2 + part3);
    lemma_prefix_concat(b, pos + 8, part2, part3);
    lemma_decode_encode_u64(b, pos, f.arguments.len() as u64);
    lemma_decode_encode_pairs(b, pos + 8, f.arguments);
    lemma_decode_encode_opt_str(b, pos + 8 + part2.len(), f.return_type);
    assert(FunctionDefinitionV { arguments: f.arguments, return_type: f.return_type } == f);
}

fn encode_fd(f: &FunctionDefinition, out: &mut Vec<u8>)
    ensures
        final(out)@ == old(out)@ + spec_encode_fd(f@),
        fd_fits(f@),
{
    let n = f.arguments.len();
    encode_u64(n as u64, out);
    let ghost header = old(out)@ + spec_u64_to_le_bytes(n as u64);
    let mut i: usize = 0;
    while i < n
        invariant
            n == f.arguments.len(),
            i <= n,
            header == old(out)@ + spec_u64_to_le_bytes(n as u64),
            out@ == header + spec_encode_pairs(f@.arguments.take(i as int)),
            forall|j: int| 0 <= j < i ==> #[trigger] pair_fits(f@.arguments[j]),
        decreases n - i,
    {
        let a = &f.arguments[i];
        encode_str(a.0.as_str(), out);
        encode_str(a.1.as_str(), out);
        proof {
            assert(f@.arguments[i as int] == (a.0@, a.1@));
            lemma_encode_pairs_push(f@.arguments.take(i as int), (a.0@, a.1@));
            assert(f@.arguments.take(i + 1 as int) =~= f@.arguments.take(i as int).push(
                (a.0@, a.1@),
            ));
            assert(out@ =~= header + spec_encode_pairs(f@.arguments.take(i + 1 as int)));
        }
        i = i + 1;
    }
    encode_opt_str(&f.return_type, out);
    proof {
        assert(f@.arguments.take(n as int) =~= f@.arguments);
        assert(out@ =~= old(out)@ + spec_encode_fd(f@));
    }
}

fn decode_fd(bytes: &Vec<u8>, pos: usize) -> (r: Option<(FunctionDefinition, usize)>)
    ensures
        match r {
            Some((f, p)) => spec_decode_fd(bytes@, pos as int) == Some((f@, p as int)) && pos < p
                <= bytes@.len(),
            None => spec_decode_fd(bytes@, pos as int) is None,
        },
{
    match decode_u64(bytes, pos) {
        None => None,
        Some((n, p8)) => {
            let mut args: Vec<(String, String)> = Vec::new();
            let mut cur: usize = p8;
            let mut i: u64 = 0;
            let ghost view_of = |v: Seq<(String, String)>|
                v.map_values(|a: (String, String)| (a.0@, a.1@));
            proof {
                assert(view_of(args@) =~= Seq::<(Seq<char>, Seq<char>)>::empty());
                match spec_decode_pairs(bytes@, p8 as int, n as nat) {
                    Some((es, q)) => {
                        assert(Seq::<(Seq<char>, Seq<char>)>::empty() + es =~= es);
                    },
                    None => {},
                }
            }
            while i < n
                invariant
                    i <= n,
                    pos < p8 <= cur <= bytes@.len(),
                    spec_decode_u64(bytes@, pos as int) == Some((n, p8 as int)),
                    view_of == (|v: Seq<(String, String)>|
                        v.map_values(|a: (String, String)| (a.0@, a.1@))),
                    view_of(args@).len() == i,
                    spec_decode_pairs(bytes@, p8 as int, n as nat) == (
                    match spec_decode_pairs(bytes@, cur as int, (n - i) as nat) {
                        Some((es, q)) => Some::<(Seq<(Seq<char>, Seq<char>)>, int)>(
                            (view_of(args@) + es, q),
                        ),
                        None => None::<(Seq<(Seq<char>, Seq<char>)>, int)>,
                    }),
                decreases n - i,
            {
                match decode_str(bytes, cur) {
                    None => {
                        proof {
                            assert(spec_decode_pair(bytes@, cur as int) is None);
                            assert(spec_decode_pairs(bytes@, cur as int, (n - i) as nat) is None);
                            assert(spec_decode_pairs(bytes@, p8 as int, n as nat) is None);
                        }
                        return None;
                    },
                    Some((a, p1)) => {
                        match decode_str(bytes, p1) {
                            None => {
                                proof {
                                    assert(spec_decode_pair(bytes@, cur as int) is None);
                                    assert(spec_decode_pairs(
                                        bytes@,
                                        cur as int,
                                        (n - i) as nat,
                                    ) is None);
                                    assert(spec_decode_pairs(bytes@, p8 as int, n as nat) is None);
                                }
                                return None;
                            },
                            Some((c, p2)) => {
                                let ghost prev = view_of(args@);
                                args.push((a, c));
                                proof {
                                    assert(view_of(args@) =~= prev.push((a@, c@)));
                                    assert(spec_decode_pair(bytes@, cur as int) == Some(
                                        ((a@, c@), p2 as int),
                                    ));
                                    assert(((n - i) as nat - 1) as nat == (n - (i + 1)) as nat);
                                    match spec_decode_pairs(
                                        bytes@,
                                        p2 as int,
                                        (n - (i + 1)) as nat,
                                    ) {
                                        Some((es, q)) => {
                                            assert(prev + (seq![(a@, c@)] + es) =~= view_of(args@)
                                                + es);
                                        },
                                        None => {},
                                    }
                                    assert(spec_decode_pairs(bytes@, p8 as int, n as nat) == (
                                    match spec_decode_pairs(
                                        bytes@,
                                        p2 as int,
                                        (n - (i + 1)) as nat,
                                    ) {
                                        Some((es, q)) => Some::<(Seq<(Seq<char>, Seq<char>)>, int)>(
                                            (view_of(args@) + es, q),
                                        ),
                                        None => None::<(Seq<(Seq<char>, Seq<char>)>, int)>,
                                    }));
                                }
                                cur = p2;
                                i = i + 1;
                            },
                        }
                    },
                }
            }
            proof {
                assert((n - i) as nat == 0);
                assert(view_of(args@) + Seq::<(Seq<char>, Seq<char>)>::empty() =~= view_of(args@));
                assert(spec_decode_pairs(bytes@, p8 as int, n as nat) == Some::<
                    (Seq<(Seq<char>, Seq<char>)>, int),
                >((view_of(args@), cur as int)));
            }
            match decode_opt_str(bytes, cur) {
                None => None,
                Some((ret, q)) => {
                    let f = FunctionDefinition { arguments: args, return_type: ret };
                    proof {
                        assert(f@.arguments =~= view_of(f.arguments@));
                        assert(spec_decode_fd(bytes@, pos as int) == Some((f@, q as int)));
                    }
                    Some((f, q))
                },
            }
        },
    }
}

// ---------------------------------------------------------------------
// Method definition lists: each function definition in order.
// ---------------------------------------------------------------------
/// The wire form of a method list, without its count.
pub open spec fn spec_encode_fds(fs: Seq<FunctionDefinitionV>) -> Seq<u8>
    decreases fs.len(),
{
    if fs.len() == 0 {
        Seq::empty()
    } else {
        spec_encode_fd(fs[0]) + spec_encode_fds(fs.drop_first())
    }
}

/// Decoding `count` function definitions at `pos`.
pub open spec fn spec_decode_fds(b: Seq<u8>, pos: int, count: nat) -> Option<
    (Seq<FunctionDefinitionV>, int),
>
    decreases count,
{
    if count == 0 {
        Some((Seq::empty(), pos))
    } else {
        match spec_decode_fd(b, pos) {
            None => None,
            Some((f, p)) => match spec_decode_fds(b, p, (count - 1) as nat) {
                None => None,
                Some((fs, q)) => Some((seq![f] + fs, q)),
            },
        }
    }
}

/// Appending one definition to a method list appends its wire form.
proof fn lemma_encode_fds_push(fs: Seq<FunctionDefinitionV>, f: FunctionDefinitionV)
    ensures
        spec_encode_fds(fs.push(f)) == spec_encode_fds(fs) + spec_encode_fd(f),
    decreases fs.len(),
{
    if fs.len() == 0 {
        assert(fs.push(f).drop_first() =~= Seq::<FunctionDefinitionV>::empty());
        assert(fs.push(f)[0] == f);
        assert(spec_encode_fds(fs.push(f).drop_first()) =~= Seq::<u8>::empty());
        assert(spec_encode_fds(fs.push(f)) =~= spec_encode_fd(f));
        assert(spec_encode_fds(fs) + spec_encode_fd(f) =~= spec_encode_fd(f));
    } else {
        lemma_encode_fds_push(fs.drop_first(), f);
        assert(fs.push(f).drop_first() =~= fs.drop_first().push(f));
        assert(spec_encode_fds(fs.push(f)) =~= spec_encode_fds(fs) + spec_encode_fd(f));
    }
}

/// Every encoded method list decodes to itself.
proof fn lemma_decode_encode_fds(b: Seq<u8>, pos: int, fs: Seq<FunctionDefinitionV>)
    requires
        forall|i: int| 0 <= i < fs.len() ==> #[trigger] fd_fits(fs[i]),
        prefix_at(b, pos, spec_encode_fds(fs)),
    ensures
        spec_decode_fds(b, pos, fs.len()) == Some((fs, pos + spec_encode_fds(fs).len())),
    decreases fs.len(),
{
    if fs.len() == 0 {
        assert(fs =~= Seq::<FunctionDefinitionV>::empty());
    } else {
        assert(spec_encode_fds(fs) == spec_encode_fd(fs[0]) + spec_encode_fds(fs.drop_first()));
        lemma_prefix_concat(b, pos, spec_encode_fd(fs[0]), spec_encode_fds(fs.drop_first()));
        assert(fd_fits(fs[0]));
        lemma_decode_encode_fd(b, pos, fs[0]);
        assert(forall|i: int|
            0 <= i < fs.drop_first().len() ==> #[trigger] fd_fits(fs.drop_first()[i]));
        lemma_decode_encode_fds(b, pos + spec_encode_fd(fs[0]).len(), fs.drop_first());
        assert(seq![fs[0]] + fs.drop_first() =~= fs);
    }
}

// ---------------------------------------------------------------------
// Script types, struct definitions, data shapes and field lists: mutually
// recursive tagged unions.
// ---------------------------------------------------------------------
/// A script type fits the wire format.
pub open spec fn st_fits(t: ScriptTypeV) -> bool
    decreases t,
{
    match t {
        ScriptTypeV::Struct(sd) => sd_fits(sd),
        ScriptTypeV::Function(f) => fd_fits(f),
    }
}

/// A struct definition fits the wire format.
pub open spec fn sd_fits(sd: StructDefinitionV) -> bool
    decreases sd,
{
    &&& dt_fits(sd.component_type)
    &&& sd.method_definitions.len() <= u64::MAX
    &&& forall|i: int|
        0 <= i < sd.method_definitions.len() ==> #[trigger] fd_fits(sd.method_definitions[i])
}

/// A data shape fits the wire format.
pub open spec fn dt_fits(d: DataTypeV) -> bool
    decreases d,
{
    match d {
        DataTypeV::Pointer(t) => st_fits(*t),
        DataTypeV::Struct { fields } => fields.len() <= u64::MAX && fields_fit(fields),
        DataTypeV::Primitive(_) => true,
    }
}

/// Every entry of a field list fits the wire format.
pub open spec fn fields_fit(fs: Seq<(Seq<char>, StructDefinitionV)>) -> bool
    decreases fs,
{
    if fs.len() == 0 {
        true
    } else {
        str_fits(fs[0].0) && sd_fits(fs[0].1) && fields_fit(fs.drop_first())
    }
}

/// The wire form of a script type.
pub open spec fn spec_encode_script_type(t: ScriptTypeV) -> Seq<u8>
    decreases t,
{
    match t {
        ScriptTypeV::Struct(sd) => seq![0u8] + spec_encode_struct_def(sd),
        ScriptTypeV::Function(f) => seq![1u8] + spec_encode_fd(f),
    }
}

/// The wire form of a struct definition.
pub open spec fn spec_encode_struct_def(sd: StructDefinitionV) -> Seq<u8>
    decreases sd,
{
    spec_encode_layout(sd.layout) + spec_encode_data_type(sd.component_type) + spec_u64_to_le_bytes(
        sd.method_definitions.len() as u64,
    ) + spec_encode_fds(sd.method_definitions)
}

/// The wire form of a data shape.
pub open spec fn spec_encode_data_type(d: DataTypeV) -> Seq<u8>
    decreases d,
{
    match d {
        DataTypeV::Pointer(t) => seq![0u8] + spec_encode_script_type(*t),
        DataTypeV::Struct { fields } => seq![1u8] + spec_u64_to_le_bytes(fields.len() as u64)
            + spec_encode_fields(fields),
        DataTypeV::Primitive(p) => seq![2u8] + spec_encode_primitive(p),
    }
}

/// The wire form of a field list, without its count.
pub open spec fn spec_encode_fields(fs: Seq<(Seq<char>, StructDefinitionV)>) -> Seq<u8>
    decreases fs,
{
    if fs.len() == 0 {
        Seq::empty()
    } else {
        spec_encode_str(fs[0].0) + spec_encode_struct_def(fs[0].1) + spec_encode_fields(
            fs.drop_first(),
        )
    }
}

/// Decoding a script type at `pos`.
pub open spec fn spec_decode_script_type(b: Seq<u8>, pos: int) -> Option<(ScriptTypeV, int)>
    decreases b.len() - pos,
{
    match spec_decode_u8(b, pos) {
        None => None,
        Some((t, p)) => if t == 0 {
            match spec_decode_struct_def(b, p) {
                None => None,
                Some((sd, q)) => Some((ScriptTypeV::Struct(sd), q)),
            }
        } else if t == 1 {
            match spec_decode_fd(b, p) {
                None => None,
                Some((f, q)) => Some((ScriptTypeV::Function(f), q)),
            }
        } else {
            None
        },
    }
}

/// Decoding a struct definition at `pos`.
pub open spec fn spec_decode_struct_def(b: Seq<u8>, pos: int) -> Option<(StructDefinitionV, int)>
    decreases b.len() - pos,
{
    match spec_decode_layout(b, pos) {
        None => None,
        Some((l, p1)) => match spec_decode_data_type(b, p1) {
            None => None,
            Some((dt, p2)) => match spec_decode_u64(b, p2) {
                None => None,
                Some((n, p3)) => match spec_decode_fds(b, p3, n as nat) {
                    None => None,
                    Some((fs, p4)) => Some(
                        (
                            StructDefinitionV {
                                layout: l,
                                component_type: dt,
                                method_definitions: fs,
                            },
                            p4,
                        ),
                    ),
                },
            },
        },
    }
}

/// Decoding a data shape at `pos`.
pub open spec fn spec_decode_data_type(b: Seq<u8>, pos: int) -> Option<(DataTypeV, int)>
    decreases b.len() - pos,
{
    match spec_decode_u8(b, pos) {
        None => None,
        Some((t, p)) => if t == 0 {
            match spec_decode_script_type(b, p) {
                None => None,
                Some((st, q)) => Some((DataTypeV::Pointer(Box::new(st)), q)),
            }
        } else if t == 1 {
            match spec_decode_u64(b, p) {
                None => None,
                Some((n, p2)) => match spec_decode_fields(b, p2, n as nat) {
                    None => None,
                    Some((fs, q)) => Some((DataTypeV::Struct { fields: fs }, q)),
                },
            }
        } else if t == 2 {
            match spec_decode_primitive(b, p) {
                None => None,
                Some((prim, q)) => Some((DataTypeV::Primitive(prim), q)),
            }
        } else {
            None
        },
    }
}

/// Decoding `count` field entries at `pos`.
pub open spec fn spec_decode_fields(b: Seq<u8>, pos: int, count: nat) -> Option<
    (Seq<(Seq<char>, StructDefinitionV)>, int),
>
    decreases b.len() - pos,
{
    if count == 0 {
        Some((Seq::empty(), pos))
    } else {
        match spec_decode_str(b, pos) {
            None => None,
            Some((name, p1)) => if pos < p1 <= b.len() {
                match spec_decode_struct_def(b, p1) {
                    None => None,
                    Some((sd, p2)) => if p1 < p2 <= b.len() {
                        match spec_decode_fields(b, p2, (count - 1) as nat) {
                            None => None,
                            Some((fs, q)) => Some((seq![(name, sd)] + fs, q)),
                        }
                    } else {
                        None
                    },
                }
            } else {
                None
            },
        }
    }
}

/// Every encoded script type decodes to itself.
proof fn lemma_decode_encode_script_type(b: Seq<u8>, pos: int, t: ScriptTypeV)
    requires
        st_fits(t),
        prefix_at(b, pos, spec_encode_script_type(t)),
    ensures
        spec_decode_script_type(b, pos) == Some((t, pos + spec_encode_script_type(t).len())),
    decreases t,
{
    match t {
        ScriptTypeV::Struct(sd) => {
            lemma_prefix_concat(b, pos, seq![0u8], spec_encode_struct_def(sd));
            lemma_decode_encode_u8(b, pos, 0u8);
            lemma_decode_encode_struct_def(b, pos + 1, sd);
        },
        ScriptTypeV::Function(f) => {
            lemma_prefix_concat(b, pos, seq![1u8], spec_encode_fd(f));
            lemma_decode_encode_u8(b, pos, 1u8);
            lemma_decode_encode_fd(b, pos + 1, f);
        },
    }
}

/// Every encoded struct definition decodes to itself.
proof fn lemma_decode_encode_struct_def(b: Seq<u8>, pos: int, sd: StructDefinitionV)
    requires
        sd_fits(sd),
        prefix_at(b, pos, spec_encode_struct_def(sd)),
    ensures
        spec_decode_struct_def(b, pos) == Some((sd, pos + spec_encode_struct_def(sd).len())),
    decreases sd,
{
    lemma_auto_spec_u64_to_from_le_bytes();
    let e1 = spec_encode_layout(sd.layout);
    let e2 = spec_encode_data_type(sd.component_type);
    let e3 = spec_u64_to_le_bytes(sd.method_definitions.len() as u64);
    let e4 = spec_encode_fds(sd.method_definitions);
    assert(spec_encode_struct_def(sd) =~= e1 + (e2 + (e3 + e4)));
    lemma_prefix_concat(b, pos, e1, e2 + (e3 + e4));
    lemma_prefix_concat(b, pos + e1.len(), e2, e3 + e4);
    lemma_prefix_concat(b, pos + e1.len() + e2.len(), e3, e4);
    lemma_decode_encode_layout(b, pos, sd.layout);
    lemma_decode_encode_data_type(b, pos + 16, sd.component_type);
    lemma_decode_encode_u64(b, pos + 16 + e2.len(), sd.method_definitions.len() as u64);
    lemma_decode_encode_fds(b, pos + 16 + e2.len() + 8, sd.method_definitions);
    assert(StructDefinitionV {
        layout: sd.layout,
        component_type: sd.component_type,
        method_definitions: sd.method_definitions,
    } == sd);
}

/// Every encoded data shape decodes to itself.
proof fn lemma_decode_encode_data_type(b: Seq<u8>, pos: int, d: DataTypeV)
    requires
        dt_fits(d),
        prefix_at(b, pos, spec_encode_data_type(d)),
    ensures
        spec_decode_data_type(b, pos) == Some((d, pos + spec_encode_data_type(d).len())),
    decreases d,
{
    match d {
        DataTypeV::Pointer(t) => {
            lemma_prefix_concat(b, pos, seq![0u8], spec_encode_script_type(*t));
            lemma_decode_encode_u8(b, pos, 0u8);
            lemma_decode_encode_script_type(b, pos + 1, *t);
            assert(DataTypeV::Pointer(Box::new(*t)) == d);
        },
        DataTypeV::Struct { fields } => {
            lemma_auto_spec_u64_to_from_le_bytes();
            let e2 = spec_u64_to_le_bytes(fields.len() as u64);
            let e3 = spec_encode_fields(fields);
            assert(spec_encode_data_type(d) =~= seq![1u8] + (e2 + e3));
            lemma_prefix_concat(b, pos, seq![1u8], e2 + e3);
            lemma_prefix_concat(b, pos + 1, e2, e3);
            lemma_decode_encode_u8(b, pos, 1u8);
            lemma_decode_encode_u64(b, pos + 1, fields.len() as u64);
            lemma_decode_encode_fields(b, pos + 9, fields);
            assert(DataTypeV::Struct { fields } == d);
        },
        DataTypeV::Primitive(p) => {
            lemma_prefix_concat(b, pos, seq![2u8], spec_encode_primitive(p));
            lemma_decode_encode_u8(b, pos, 2u8);
            lemma_decode_encode_primitive(b, pos + 1, p);
        },
    }
}

/// Every encoded field list decodes to itself.
proof fn lemma_decode_encode_fields(b: Seq<u8>, pos: int, fs: Seq<(Seq<char>, StructDefinitionV)>)
    requires
        fields_fit(fs),
        prefix_at(b, pos, spec_encode_fields(fs)),
    ensures
        spec_decode_fields(b, pos, fs.len()) == Some((fs, pos + spec_encode_fields(fs).len())),
    decreases fs,
{
    if fs.len() == 0 {
        assert(fs =~= Seq::<(Seq<char>, StructDefinitionV)>::empty());
    } else {
        lemma_auto_spec_u64_to_from_le_bytes();
        let e1 = spec_encode_str(fs[0].0);
        let e2 = spec_encode_struct_def(fs[0].1);
        let e3 = spec_encode_fields(fs.drop_first());
        assert(spec_encode_fields(fs) =~= e1 + (e2 + e3));
        lemma_prefix_concat(b, pos, e1, e2 + e3);
        lemma_prefix_concat(b, pos + e1.len(), e2, e3);
        lemma_encode_chars_len(fs[0].0);
        lemma_decode_encode_str(b, pos, fs[0].0);
        let p1 = pos + e1.len();
        assert(pos < p1 <= b.len());
        lemma_decode_encode_struct_def(b, p1, fs[0].1);
        let p2 = p1 + e2.len();
        assert(spec_encode_layout(fs[0].1.layout).len() == 16);
        assert(e2.len() >= 16);
        assert(p1 < p2 <= b.len());
        lemma_decode_encode_fields(b, p2, fs.drop_first());
        assert((fs[0].0, fs[0].1) == fs[0]);
        assert(seq![fs[0]] + fs.drop_first() =~= fs);
    }
}

/// Appending one entry to a field list appends its wire form.
proof fn lemma_encode_fields_push(
    fs: Seq<(Seq<char>, StructDefinitionV)>,
    e: (Seq<char>, StructDefinitionV),
)
    ensures
        spec_encode_fields(fs.push(e)) == spec_encode_fields(fs) + spec_encode_str(e.0)
            + spec_encode_struct_def(e.1),
    decreases fs,
{
    if fs.len() == 0 {
        assert(fs.push(e).drop_first() =~= Seq::<(Seq<char>, StructDefinitionV)>::empty());
        assert(fs.push(e)[0] == e);
        assert(spec_encode_fields(fs.push(e).drop_first()) =~= Seq::<u8>::empty());
        assert(spec_encode_fields(fs.push(e)) =~= spec_encode_str(e.0) + spec_encode_struct_def(
            e.1,
        ));
        assert(spec_encode_fields(fs) + spec_encode_str(e.0) + spec_encode_struct_def(e.1)
            =~= spec_encode_str(e.0) + spec_encode_struct_def(e.1));
    } else {
        lemma_encode_fields_push(fs.drop_first(), e);
        assert(fs.push(e).drop_first() =~= fs.drop_first().push(e));
        assert(spec_encode_fields(fs.push(e)) =~= spec_encode_fields(fs) + spec_encode_str(e.0)
            + spec_encode_struct_def(e.1));
    }
}

/// A field list stays fit when a fit entry is appended.
proof fn lemma_fields_fit_push(
    fs: Seq<(Seq<char>, StructDefinitionV)>,
    e: (Seq<char>, StructDefinitionV),
)
    requires
        fields_fit(fs),
        str_fits(e.0),
        sd_fits(e.1),
    ensures
        fields_fit(fs.push(e)),
    decreases fs,
{
    if fs.len() == 0 {
        assert(fs.push(e).drop_first() =~= Seq::<(Seq<char>, StructDefinitionV)>::empty());
        assert(fs.push(e)[0] == e);
        assert(fields_fit(fs.push(e).drop_first()));
    } else {
        lemma_fields_fit_push(fs.drop_first(), e);
        assert(fs.push(e).drop_first() =~= fs.drop_first().push(e));
        assert(fs.push(e)[0] == fs[0]);
        assert(str_fits(fs.push(e)[0].0));
        assert(sd_fits(fs.push(e)[0].1));
        assert(fields_fit(fs.push(e).drop_first()));
    }
}

fn encode_script_type(t: &ScriptType, out: &mut Vec<u8>)
    ensures
        final(out)@ == old(out)@ + spec_encode_script_type(t@),
        st_fits(t@),
    decreases *t,
{
    match t {
        ScriptType::Struct(sd) => {
            encode_u8(0, out);
            encode_struct_def(sd, out);
            proof {
                assert(out@ =~= old(out)@ + spec_encode_script_type(t@));
            }
        },
        ScriptType::Function(f) => {
            encode_u8(1, out);
            encode_fd(f, out);
            proof {
                assert(out@ =~= old(out)@ + spec_encode_script_type(t@));
            }
        },
    }
}

fn encode_struct_def(sd: &StructDefinition, out: &mut Vec<u8>)
    ensures
        final(out)@ == old(out)@ + spec_encode_struct_def(sd@),
        sd_fits(sd@),
    decreases *sd,
{
    encode_layout(&sd.layout, out);
    encode_data_type(&sd.component_type, out);
    let n = sd.method_definitions.len();
    encode_u64(n as u64, out);
    let ghost header = old(out)@ + spec_encode_layout(sd@.layout) + spec_encode_data_type(
        sd@.component_type,
    ) + spec_u64_to_le_bytes(n as u64);
    let ghost gfs = sd@.method_definitions;
    proof {
        assert(gfs.len() == n);
        assert(out@ == header);
    }
    let mut i: usize = 0;
    while i < n
        invariant
            n == sd.method_definitions.len(),
            i <= n,
            gfs == sd@.method_definitions,
            gfs.len() == n,
            out@ == header + spec_encode_fds(gfs.take(i as int)),
            forall|j: int| 0 <= j < i ==> #[trigger] fd_fits(gfs[j]),
        decreases n - i,
    {
        encode_fd(&sd.method_definitions[i], out);
        proof {
            assert(gfs[i as int] == sd.method_definitions@[i as int]@);
            lemma_encode_fds_push(gfs.take(i as int), gfs[i as int]);
            assert(gfs.take(i + 1 as int) =~= gfs.take(i as int).push(gfs[i as int]));
            assert(out@ =~= header + spec_encode_fds(gfs.take(i + 1 as int)));
        }
        i = i + 1;
    }
    proof {
        assert(gfs.take(n as int) =~= gfs);
        assert(out@ =~= old(out)@ + spec_encode_struct_def(sd@));
    }
}

fn encode_data_type(d: &DataType, out: &mut Vec<u8>)
    ensures
        final(out)@ == old(out)@ + spec_encode_data_type(d@),
        dt_fits(d@),
    decreases *d,
{
    match d {
        DataType::Pointer(t) => {
            encode_u8(0, out);
            encode_script_type(t, out);
            proof {
                assert(out@ =~= old(out)@ + spec_encode_data_type(d@));
            }
        },
        DataType::Struct { fields } => {
            encode_u8(1, out);
            encode_u64(fields.len() as u64, out);
            encode_fields(fields, out);
            proof {
                crate::script_api::lemma_view_fields_index(fields@);
                assert(out@ =~= old(out)@ + spec_encode_data_type(d@));
            }
        },
        DataType::Primitive(p) => {
            encode_u8(2, out);
            encode_primitive(p, out);
            proof {
                assert(out@ =~= old(out)@ + spec_encode_data_type(d@));
            }
        },
    }
}

/// The wire form of each field of a struct shape, in order.
fn encode_fields(fields: &Vec<(String, StructDefinition)>, out: &mut Vec<u8>)
    ensures
        final(out)@ == old(out)@ + spec_encode_fields(view_fields(fields@)),
        fields_fit(view_fields(fields@)),
    decreases fields@,
{
    let ghost gfs = view_fields(fields@);
    proof {
        crate::script_api::lemma_view_fields_index(fields@);
        assert(gfs.take(0) =~= Seq::<(Seq<char>, StructDefinitionV)>::empty());
    }
    let n = fields.len();
    let mut i: usize = 0;
    while i < n
        invariant
            n == fields.len(),
            i <= n,
            gfs == view_fields(fields@),
            gfs.len() == n,
            forall|j: int|
                0 <= j < n ==> #[trigger] gfs[j] == (
                    fields@[j].0@,
                    view_struct_definition(fields@[j].1),
                ),
            out@ == old(out)@ + spec_encode_fields(gfs.take(i as int)),
            fields_fit(gfs.take(i as int)),
        decreases n - i,
    {
        let f = &fields[i];
        encode_str(f.0.as_str(), out);
        encode_struct_def(&f.1, out);
        proof {
            assert(gfs[i as int] == (f.0@, f.1@));
            lemma_encode_fields_push(gfs.take(i as int), gfs[i as int]);
            lemma_fields_fit_push(gfs.take(i as int), gfs[i as int]);
            assert(gfs.take(i + 1 as int) =~= gfs.take(i as int).push(gfs[i as int]));
            assert(out@ =~= old(out)@ + spec_encode_fields(gfs.take(i + 1 as int)));
        }
        i = i + 1;
    }
    proof {
        assert(gfs.take(n as int) =~= gfs);
    }
}

/// Decode `count` function definitions, starting at `pos`.
fn decode_fds(bytes: &Vec<u8>, pos: usize, count: u64) -> (r: Option<
    (Vec<FunctionDefinition>, usize),
>)
    requires
        pos <= bytes@.len(),
    ensures
        match r {
            Some((fs, p)) => spec_decode_fds(bytes@, pos as int, count as nat) == Some(
                (fs@.map_values(|f: FunctionDefinition| f@), p as int),
            ) && pos <= p <= bytes@.len(),
            None => spec_decode_fds(bytes@, pos as int, count as nat) is None,
        },
{
    let ghost view_of = |v: Seq<FunctionDefinition>| v.map_values(|f: FunctionDefinition| f@);
    let mut fs: Vec<FunctionDefinition> = Vec::new();
    let mut cur: usize = pos;
    let mut i: u64 = 0;
    proof {
        assert(view_of(fs@) =~= Seq::<FunctionDefinitionV>::empty());
        match spec_decode_fds(bytes@, pos as int, count as nat) {
            Some((es, q)) => {
                assert(Seq::<FunctionDefinitionV>::empty() + es =~= es);
            },
            None => {},
        }
    }
    while i < count
        invariant
            i <= count,
            pos <= cur <= bytes@.len(),
            view_of == (|v: Seq<FunctionDefinition>| v.map_values(|f: FunctionDefinition| f@)),
            view_of(fs@).len() == i,
            spec_decode_fds(bytes@, pos as int, count as nat) == (
            match spec_decode_fds(bytes@, cur as int, (count - i) as nat) {
                Some((es, q)) => Some::<(Seq<FunctionDefinitionV>, int)>((view_of(fs@) + es, q)),
                None => None::<(Seq<FunctionDefinitionV>, int)>,
            }),
        decreases count - i,
    {
        match decode_fd(bytes, cur) {
            None => {
                proof {
                    assert(spec_decode_fds(bytes@, cur as int, (count - i) as nat) is None);
                    assert(spec_decode_fds(bytes@, pos as int, count as nat) is None);
                }
                return None;
            },
            Some((f, p)) => {
                let ghost prev = view_of(fs@);
                let ghost fv = f@;
                fs.push(f);
                proof {
                    assert(view_of(fs@) =~= prev.push(fv));
                    assert(((count - i) as nat - 1) as nat == (count - (i + 1)) as nat);
                    match spec_decode_fds(bytes@, p as int, (count - (i + 1)) as nat) {
                        Some((es, q)) => {
                            assert(prev + (seq![fv] + es) =~= view_of(fs@) + es);
                        },
                        None => {},
                    }
                    assert(spec_decode_fds(bytes@, pos as int, count as nat) == (
                    match spec_decode_fds(bytes@, p as int, (count - (i + 1)) as nat) {
                        Some((es, q)) => Some::<(Seq<FunctionDefinitionV>, int)>(
                            (view_of(fs@) + es, q),
                        ),
                        None => None::<(Seq<FunctionDefinitionV>, int)>,
                    }));
                }
                cur = p;
                i = i + 1;
            },
        }
    }
    proof {
        assert((count - i) as nat == 0);
        assert(view_of(fs@) + Seq::<FunctionDefinitionV>::empty() =~= view_of(fs@));
        assert(spec_decode_fds(bytes@, pos as int, count as nat) == Some::<
            (Seq<FunctionDefinitionV>, int),
        >((view_of(fs@), cur as int)));
    }
    Some((fs, cur))
}

/// Decode one script type, starting at `pos`.
fn decode_script_type(bytes: &Vec<u8>, pos: usize) -> (r: Option<(ScriptType, usize)>)
    ensures
        match r {
            Some((t, p)) => spec_decode_script_type(bytes@, pos as int) == Some((t@, p as int))
                && pos < p <= bytes@.len(),
            None => spec_decode_script_type(bytes@, pos as int) is None,
        },
    decreases bytes@.len() - pos,
{
    match decode_u8(bytes, pos) {
        None => None,
        Some((tag, p)) => {
            if tag == 0 {
                match decode_struct_def(bytes, p) {
                    None => None,
                    Some((sd, q)) => Some((ScriptType::Struct(sd), q)),
                }
            } else if tag == 1 {
                match decode_fd(bytes, p) {
                    None => None,
                    Some((f, q)) => Some((ScriptType::Function(f), q)),
                }
            } else {
                None
            }
        },
    }
}

/// Decode one struct definition, starting at `pos`.
fn decode_struct_def(bytes: &Vec<u8>, pos: usize) -> (r: Option<(StructDefinition, usize)>)
    ensures
        match r {
            Some((sd, p)) => spec_decode_struct_def(bytes@, pos as int) == Some((sd@, p as int))
                && pos < p <= bytes@.len(),
            None => spec_decode_struct_def(bytes@, pos as int) is None,
        },
    decreases bytes@.len() - pos,
{
    match decode_layout(bytes, pos) {
        None => None,
        Some((layout, p1)) => match decode_data_type(bytes, p1) {
            None => None,
            Some((dt, p2)) => match decode_u64(bytes, p2) {
                None => None,
                Some((n, p3)) => match decode_fds(bytes, p3, n) {
                    None => None,
                    Some((fs, p4)) => {
                        let sd = StructDefinition {
                            layout,
                            component_type: dt,
                            method_definitions: fs,
                        };
                        proof {
                            assert(sd@.method_definitions =~= fs@.map_values(
                                |f: FunctionDefinition| f@,
                            ));
                            assert(spec_decode_struct_def(bytes@, pos as int) == Some(
                                (sd@, p4 as int),
                            ));
                        }
                        Some((sd, p4))
                    },
                },
            },
        },
    }
}

/// Decode one data shape, starting at `pos`.
fn decode_data_type(bytes: &Vec<u8>, pos: usize) -> (r: Option<(DataType, usize)>)
    ensures
        match r {
            Some((d, p)) => spec_decode_data_type(bytes@, pos as int) == Some((d@, p as int))
                && pos < p <= bytes@.len(),
            None => spec_decode_data_type(bytes@, pos as int) is None,
        },
    decreases bytes@.len() - pos,
{
    match decode_u8(bytes, pos) {
        None => None,
        Some((tag, p)) => {
            if tag == 0 {
                match decode_script_type(bytes, p) {
                    None => None,
                    Some((st, q)) => Some((DataType::Pointer(Box::new(st)), q)),
                }
            } else if tag == 1 {
                match decode_u64(bytes, p) {
                    None => None,
                    Some((n, p2)) => match decode_fields(bytes, p2, n) {
                        None => None,
                        Some((fs, q)) => {
                            let d = DataType::Struct { fields: fs };
                            proof {
                                crate::script_api::lemma_view_fields_index(fs@);
                                assert(spec_decode_data_type(bytes@, pos as int) == Some(
                                    (d@, q as int),
                                ));
                            }
                            Some((d, q))
                        },
                    },
                }
            } else if tag == 2 {
                match decode_primitive(bytes, p) {
                    None => None,
                    Some((prim, q)) => Some((DataType::Primitive(prim), q)),
                }
            } else {
                None
            }
        },
    }
}

/// Decode `count` field entries, starting at `pos`.
fn decode_fields(bytes: &Vec<u8>, pos: usize, count: u64) -> (r: Option<
    (Vec<(String, StructDefinition)>, usize),
>)
    requires
        pos <= bytes@.len(),
    ensures
        match r {
            Some((fs, p)) => spec_decode_fields(bytes@, pos as int, count as nat) == Some(
                (view_fields(fs@), p as int),
            ) && pos <= p <= bytes@.len(),
            None => spec_decode_fields(bytes@, pos as int, count as nat) is None,
        },
    decreases bytes@.len() - pos,
{
    let mut fs: Vec<(String, StructDefinition)> = Vec::new();
    let mut cur: usize = pos;
    let mut i: u64 = 0;
    proof {
        crate::script_api::lemma_view_fields_index(fs@);
        assert(view_fields(fs@) =~= Seq::<(Seq<char>, StructDefinitionV)>::empty());
        match spec_decode_fields(bytes@, pos as int, count as nat) {
            Some((es, q)) => {
                assert(Seq::<(Seq<char>, StructDefinitionV)>::empty() + es =~= es);
            },
            None => {},
        }
    }
    while i < count
        invariant
            i <= count,
            pos <= cur <= bytes@.len(),
            view_fields(fs@).len() == i,
            spec_decode_fields(bytes@, pos as int, count as nat) == (
            match spec_decode_fields(bytes@, cur as int, (count - i) as nat) {
                Some((es, q)) => Some::<(Seq<(Seq<char>, StructDefinitionV)>, int)>(
                    (view_fields(fs@) + es, q),
                ),
                None => None::<(Seq<(Seq<char>, StructDefinitionV)>, int)>,
            }),
        decreases count - i,
    {
        match decode_str(bytes, cur) {
            None => {
                proof {
                    assert(spec_decode_fields(bytes@, cur as int, (count - i) as nat) is None);
                    assert(spec_decode_fields(bytes@, pos as int, count as nat) is None);
                }
                return None;
            },
            Some((name, p1)) => {
                match decode_struct_def(bytes, p1) {
                    None => {
                        proof {
                            assert(spec_decode_fields(
                                bytes@,
                                cur as int,
                                (count - i) as nat,
                            ) is None);
                            assert(spec_decode_fields(bytes@, pos as int, count as nat) is None);
                        }
                        return None;
                    },
                    Some((sd, p2)) => {
                        let ghost prev = view_fields(fs@);
                        let ghost ev = (name@, sd@);
                        proof {
                            crate::script_api::lemma_view_fields_index(fs@);
                        }
                        fs.push((name, sd));
                        proof {
                            crate::script_api::lemma_view_fields_index(fs@);
                            assert(view_fields(fs@) =~= prev.push(ev));
                            assert(((count - i) as nat - 1) as nat == (count - (i + 1)) as nat);
                            match spec_decode_fields(bytes@, p2 as int, (count - (i + 1)) as nat) {
                                Some((es, q)) => {
                                    assert(prev + (seq![ev] + es) =~= view_fields(fs@) + es);
                                },
                                None => {},
                            }
                            assert(spec_decode_fields(bytes@, pos as int, count as nat) == (
                            match spec_decode_fields(bytes@, p2 as int, (count - (i + 1)) as nat) {
                                Some((es, q)) => Some::<(Seq<(Seq<char>, StructDefinitionV)>, int)>(
                                    (view_fields(fs@) + es, q),
                                ),
                                None => None::<(Seq<(Seq<char>, StructDefinitionV)>, int)>,
                            }));
                        }
                        cur = p2;
                        i = i + 1;
                    },
                }
            },
        }
    }
    proof {
        assert((count - i) as nat == 0);
        assert(view_fields(fs@) + Seq::<(Seq<char>, StructDefinitionV)>::empty() =~= view_fields(
            fs@,
        ));
        assert(spec_decode_fields(bytes@, pos as int, count as nat) == Some::<
            (Seq<(Seq<char>, StructDefinitionV)>, int),
        >((view_fields(fs@), cur as int)));
    }
    Some((fs, cur))
}

// ---------------------------------------------------------------------
// Catalogs: the entry count, then each entry as a path and a script type.
// ---------------------------------------------------------------------
/// A catalog entry fits the wire format.
pub open spec fn entry_fits(e: (Seq<char>, ScriptTypeV)) -> bool {
    str_fits(e.0) && st_fits(e.1)
}

/// A whole catalog fits the wire format.
pub open spec fn api_fits(v: Seq<(Seq<char>, ScriptTypeV)>) -> bool {
    &&& v.len() <= u64::MAX
    &&& forall|i: int| 0 <= i < v.len() ==> #[trigger] entry_fits(v[i])
}

/// The wire form of one catalog entry.
pub open spec fn spec_encode_entry(e: (Seq<char>, ScriptTypeV)) -> Seq<u8> {
    spec_encode_str(e.0) + spec_encode_script_type(e.1)
}

/// The wire form of a catalog's entry list, without its count.
pub open spec fn spec_encode_entries(es: Seq<(Seq<char>, ScriptTypeV)>) -> Seq<u8>
    decreases es.len(),
{
    if es.len() == 0 {
        Seq::empty()
    } else {
        spec_encode_entry(es[0]) + spec_encode_entries(es.drop_first())
    }
}

/// The wire form of a whole catalog.
pub open spec fn spec_encode_api(v: Seq<(Seq<char>, ScriptTypeV)>) -> Seq<u8> {
    spec_u64_to_le_bytes(v.len() as u64) + spec_encode_entries(v)
}

/// Decoding one catalog entry at `pos`.
pub open spec fn spec_decode_entry(b: Seq<u8>, pos: int) -> Option<((Seq<char>, ScriptTypeV), int)> {
    match spec_decode_str(b, pos) {
        None => None,
        Some((path, p)) => match spec_decode_script_type(b, p) {
            None => None,
            Some((t, q)) => Some(((path, t), q)),
        },
    }
}

/// Decoding `count` catalog entries at `pos`.
pub open spec fn spec_decode_entries(b: Seq<u8>, pos: int, count: nat) -> Option<
    (Seq<(Seq<char>, ScriptTypeV)>, int),
>
    decreases count,
{
    if count == 0 {
        Some((Seq::empty(), pos))
    } else {
        match spec_decode_entry(b, pos) {
            None => None,
            Some((e, p)) => match spec_decode_entries(b, p, (count - 1) as nat) {
                None => None,
                Some((es, q)) => Some((seq![e] + es, q)),
            },
        }
    }
}

/// Decoding a whole catalog from the start of a buffer.
pub open spec fn spec_decode_api(b: Seq<u8>) -> Option<(Seq<(Seq<char>, ScriptTypeV)>, int)> {
    match spec_decode_u64(b, 0) {
        None => None,
        Some((n, p)) => spec_decode_entries(b, p, n as nat),
    }
}

/// Appending one entry to a catalog appends its wire form.
proof fn lemma_encode_entries_push(es: Seq<(Seq<char>, ScriptTypeV)>, e: (Seq<char>, ScriptTypeV))
    ensures
        spec_encode_entries(es.push(e)) == spec_encode_entries(es) + spec_encode_entry(e),
    decreases es.len(),
{
    if es.len() == 0 {
        assert(es.push(e).drop_first() =~= Seq::<(Seq<char>, ScriptTypeV)>::empty());
        assert(es.push(e)[0] == e);
        assert(spec_encode_entries(es.push(e).drop_first()) =~= Seq::<u8>::empty());
        assert(spec_encode_entries(es.push(e)) =~= spec_encode_entry(e));
        assert(spec_encode_entries(es) + spec_encode_entry(e) =~= spec_encode_entry(e));
    } else {
        lemma_encode_entries_push(es.drop_first(), e);
        assert(es.push(e).drop_first() =~= es.drop_first().push(e));
        assert(spec_encode_entries(es.push(e)) =~= spec_encode_entries(es) + spec_encode_entry(e));
    }
}

/// Every encoded catalog entry decodes to itself.
proof fn lemma_decode_encode_entry(b: Seq<u8>, pos: int, e: (Seq<char>, ScriptTypeV))
    requires
        entry_fits(e),
        prefix_at(b, pos, spec_encode_entry(e)),
    ensures
        spec_decode_entry(b, pos) == Some((e, pos + spec_encode_entry(e).len())),
{
    lemma_auto_spec_u64_to_from_le_bytes();
    lemma_encode_chars_len(e.0);
    lemma_prefix_concat(b, pos, spec_encode_str(e.0), spec_encode_script_type(e.1));
    lemma_decode_encode_str(b, pos, e.0);
    lemma_decode_encode_script_type(b, pos + spec_encode_str(e.0).len(), e.1);
    assert((e.0, e.1) == e);
}

/// Every encoded catalog entry list decodes to itself.
proof fn lemma_decode_encode_entries(b: Seq<u8>, pos: int, es: Seq<(Seq<char>, ScriptTypeV)>)
    requires
        forall|i: int| 0 <= i < es.len() ==> #[trigger] entry_fits(es[i]),
        prefix_at(b, pos, spec_encode_entries(es)),
    ensures
        spec_decode_entries(b, pos, es.len()) == Some((es, pos + spec_encode_entries(es).len())),
    decreases es.len(),
{
    if es.len() == 0 {
        assert(es =~= Seq::<(Seq<char>, ScriptTypeV)>::empty());
    } else {
        assert(spec_encode_entries(es) == spec_encode_entry(es[0]) + spec_encode_entries(
            es.drop_first(),
        ));
        lemma_prefix_concat(b, pos, spec_encode_entry(es[0]), spec_encode_entries(es.drop_first()));
        assert(entry_fits(es[0]));
        lemma_decode_encode_entry(b, pos, es[0]);
        assert(forall|i: int|
            0 <= i < es.drop_first().len() ==> #[trigger] entry_fits(es.drop_first()[i]));
        lemma_decode_encode_entries(b, pos + spec_encode_entry(es[0]).len(), es.drop_first());
        assert(seq![es[0]] + es.drop_first() =~= es);
    }
}

/// The round trip of the catalog wire format: decoding the encoding of any
/// catalog value that fits the wire format's length fields gives back
/// exactly that value, consuming the whole encoding.
pub proof fn lemma_decode_encode_script_api(v: Seq<(Seq<char>, ScriptTypeV)>)
    requires
        api_fits(v),
    ensures
        spec_decode_api(spec_encode_api(v)) == Some((v, spec_encode_api(v).len() as int)),
{
    lemma_auto_spec_u64_to_from_le_bytes();
    let b = spec_encode_api(v);
    assert(b.subrange(0, b.len() as int) =~= b);
    assert(prefix_at(b, 0, spec_u64_to_le_bytes(v.len() as u64) + spec_encode_entries(v)));
    lemma_prefix_concat(b, 0, spec_u64_to_le_bytes(v.len() as u64), spec_encode_entries(v));
    lemma_decode_encode_u64(b, 0, v.len() as u64);
    lemma_decode_encode_entries(b, 8, v);
}

/// The wire form of a catalog: its entry count, then each entry in order.
pub fn encode_script_api(api: &ScriptApi) -> (r: Vec<u8>)
    ensures
        r@ == spec_encode_api(api@),
        api_fits(api@),
{
    let mut out: Vec<u8> = Vec::new();
    let n = api.len();
    encode_u64(n as u64, &mut out);
    let ghost header = spec_u64_to_le_bytes(n as u64);
    proof {
        assert(out@ =~= Seq::<u8>::empty() + header);
        assert(api@.take(0) =~= Seq::<(Seq<char>, ScriptTypeV)>::empty());
    }
    let mut i: usize = 0;
    while i < n
        invariant
            n == api@.len(),
            i <= n,
            header == spec_u64_to_le_bytes(n as u64),
            out@ == Seq::<u8>::empty() + header + spec_encode_entries(api@.take(i as int)),
            forall|j: int| 0 <= j < i ==> #[trigger] entry_fits(api@[j]),
        decreases n - i,
    {
        let e = api.entry_at(i);
        encode_str(e.0.as_str(), &mut out);
        encode_script_type(&e.1, &mut out);
        proof {
            assert(api@[i as int] == (e.0@, e.1@));
            lemma_encode_entries_push(api@.take(i as int), api@[i as int]);
            assert(api@.take(i + 1 as int) =~= api@.take(i as int).push(api@[i as int]));
            assert(out@ =~= Seq::<u8>::empty() + header + spec_encode_entries(
                api@.take(i + 1 as int),
            ));
        }
        i = i + 1;
    }
    proof {
        assert(api@.take(n as int) =~= api@);
        assert(out@ =~= spec_encode_api(api@));
    }
    out
}

/// Rebuild a catalog from its wire form. Succeeds exactly when the bytes
/// are a whole catalog encoding whose paths are pairwise distinct; any
/// malformed or duplicated input is rejected as a protocol error.
pub fn decode_script_api(bytes: &Vec<u8>) -> (r: Result<ScriptApi, ScriptApiError>)
    ensures
        r matches Ok(api) ==> spec_decode_api(bytes@) == Some((api@, bytes@.len() as int))
            && api.wf(),
        r is Ok <==> (spec_decode_api(bytes@) matches Some((v, q)) && q == bytes@.len()
            && paths_unique(v)),
        r is Err ==> r == Err::<ScriptApi, _>(ScriptApiError::ProtocolError),
{
    match decode_u64(bytes, 0) {
        None => Err(ScriptApiError::ProtocolError),
        Some((n, p8)) => {
            let mut api = ScriptApi::new();
            let mut cur: usize = p8;
            let mut i: u64 = 0;
            proof {
                match spec_decode_entries(bytes@, p8 as int, n as nat) {
                    Some((es, q)) => {
                        assert(Seq::<(Seq<char>, ScriptTypeV)>::empty() + es =~= es);
                    },
                    None => {},
                }
            }
            while i < n
                invariant
                    i <= n,
                    0 < p8 <= cur <= bytes@.len(),
                    spec_decode_u64(bytes@, 0) == Some((n, p8 as int)),
                    api.wf(),
                    api@.len() == i,
                    spec_decode_entries(bytes@, p8 as int, n as nat) == (
                    match spec_decode_entries(bytes@, cur as int, (n - i) as nat) {
                        Some((es, q)) => Some::<(Seq<(Seq<char>, ScriptTypeV)>, int)>(
                            (api@ + es, q),
                        ),
                        None => None::<(Seq<(Seq<char>, ScriptTypeV)>, int)>,
                    }),
                decreases n - i,
            {
                match decode_str(bytes, cur) {
                    None => {
                        proof {
                            assert(spec_decode_entry(bytes@, cur as int) is None);
                            assert(spec_decode_entries(bytes@, cur as int, (n - i) as nat) is None);
                            assert(spec_decode_entries(bytes@, p8 as int, n as nat) is None);
                        }
                        return Err(ScriptApiError::ProtocolError);
                    },
                    Some((path, p1)) => {
                        match decode_script_type(bytes, p1) {
                            None => {
                                proof {
                                    assert(spec_decode_entry(bytes@, cur as int) is None);
                                    assert(spec_decode_entries(
                                        bytes@,
                                        cur as int,
                                        (n - i) as nat,
                                    ) is None);
                                    assert(spec_decode_entries(bytes@, p8 as int, n as nat) is None);
                                }
                                return Err(ScriptApiError::ProtocolError);
                            },
                            Some((ty, p2)) => {
                                let ghost prev = api@;
                                let ghost ev = (path@, ty@);
                                proof {
                                    assert(spec_decode_entry(bytes@, cur as int) == Some(
                                        (ev, p2 as int),
                                    ));
                                }
                                match api.insert(path, ty) {
                                    Err(_) => {
                                        proof {
                                            assert(prev.contains(ev) || exists|k: int|
                                                0 <= k < prev.len() && prev[k].0 == ev.0);
                                            match spec_decode_entries(
                                                bytes@,
                                                p2 as int,
                                                (n - (i + 1)) as nat,
                                            ) {
                                                Some((es, q)) => {
                                                    let v = prev + (seq![ev] + es);
                                                    let k = choose|k: int|
                                                        0 <= k < prev.len() && prev[k].0 == ev.0;
                                                    assert(v[k].0 == v[prev.len() as int].0);
                                                    assert(!paths_unique(v));
                                                    assert(((n - i) as nat - 1) as nat == (n - (i
                                                        + 1)) as nat);
                                                },
                                                None => {
                                                    assert(((n - i) as nat - 1) as nat == (n - (i
                                                        + 1)) as nat);
                                                },
                                            }
                                        }
                                        return Err(ScriptApiError::ProtocolError);
                                    },
                                    Ok(()) => {
                                        proof {
                                            assert(api@ =~= prev.push(ev));
                                            assert(((n - i) as nat - 1) as nat == (n - (i
                                                + 1)) as nat);
                                            match spec_decode_entries(
                                                bytes@,
                                                p2 as int,
                                                (n - (i + 1)) as nat,
                                            ) {
                                                Some((es, q)) => {
                                                    assert(prev + (seq![ev] + es) =~= api@ + es);
                                                },
                                                None => {},
                                            }
                                            assert(spec_decode_entries(
                                                bytes@,
                                                p8 as int,
                                                n as nat,
                                            ) == (
                                            match spec_decode_entries(
                                                bytes@,
                                                p2 as int,
                                                (n - (i + 1)) as nat,
                                            ) {
                                                Some((es, q)) => Some::<
                                                    (Seq<(Seq<char>, ScriptTypeV)>, int),
                                                >((api@ + es, q)),
                                                None => None::<
                                                    (Seq<(Seq<char>, ScriptTypeV)>, int),
                                                >,
                                            }));
                                        }
                                        cur = p2;
                                        i = i + 1;
                                    },
                                }
                            },
                        }
                    },
                }
            }
            proof {
                assert((n - i) as nat == 0);
                assert(api@ + Seq::<(Seq<char>, ScriptTypeV)>::empty() =~= api@);
                assert(spec_decode_entries(bytes@, p8 as int, n as nat) == Some::<
                    (Seq<(Seq<char>, ScriptTypeV)>, int),
                >((api@, cur as int)));
            }
            if cur == bytes.len() {
                Ok(api)
            } else {
                Err(ScriptApiError::ProtocolError)
            }
        },
    }
}

// ---------------------------------------------------------------------
// The converse direction: whatever decodes was a true encoding. Together
// with the decode-of-encode lemmas this makes the wire format canonical:
// the decoder accepts exactly the encodings, and nothing else.
// ---------------------------------------------------------------------
/// A byte range split at a middle position.
proof fn lemma_subrange_split(b: Seq<u8>, pos: int, mid: int, q: int)
    requires
        0 <= pos <= mid <= q <= b.len(),
    ensures
        b.subrange(pos, q) == b.subrange(pos, mid) + b.subrange(mid, q),
{
    assert(b.subrange(pos, q) =~= b.subrange(pos, mid) + b.subrange(mid, q));
}

/// A decoded integer re-encodes to the bytes it was read from.
proof fn lemma_encode_decode_u64(b: Seq<u8>, pos: int)
    requires
        spec_decode_u64(b, pos) is Some,
    ensures
        spec_decode_u64(b, pos) matches Some((x, q)) ==> q == pos + 8 && 0 <= pos && q <= b.len()
            && b.subrange(pos, q) == spec_u64_to_le_bytes(x),
{
    lemma_auto_spec_u64_to_from_le_bytes();
}

/// A decoded tag byte re-encodes to the byte it was read from.
proof fn lemma_encode_decode_u8(b: Seq<u8>, pos: int)
    requires
        spec_decode_u8(b, pos) is Some,
    ensures
        spec_decode_u8(b, pos) matches Some((x, q)) ==> q == pos + 1 && 0 <= pos && q <= b.len()
            && b.subrange(pos, q) == seq![x],
{
    let (x, q) = spec_decode_u8(b, pos)->0;
    assert(b.subrange(pos, q) =~= seq![x]);
}

/// A decoded character re-encodes to the bytes it was read from.
proof fn lemma_encode_decode_char(b: Seq<u8>, pos: int)
    requires
        spec_decode_char(b, pos) is Some,
    ensures
        spec_decode_char(b, pos) matches Some((c, q)) ==> q == pos + 4 && 0 <= pos && q <= b.len()
            && b.subrange(pos, q) == spec_encode_char(c),
{
    lemma_auto_spec_u32_to_from_le_bytes();
    let x = spec_u32_from_le_bytes(b.subrange(pos, pos + 4));
    let (c, q) = spec_decode_char(b, pos)->0;
    assert(char_code(c) == x);
    assert(spec_u32_to_le_bytes(x) == b.subrange(pos, pos + 4));
}

/// Decoded character sequences re-encode to the bytes they were read from.
proof fn lemma_encode_decode_chars(b: Seq<u8>, pos: int, count: nat)
    requires
        0 <= pos <= b.len(),
        spec_decode_chars(b, pos, count) is Some,
    ensures
        spec_decode_chars(b, pos, count) matches Some((s, q)) ==> s.len() == count && 0 <= pos <= q
            <= b.len() && q == pos + 4 * count && b.subrange(pos, q) == spec_encode_chars(s),
    decreases count,
{
    let (s, q) = spec_decode_chars(b, pos, count)->0;
    if count == 0 {
        assert(b.subrange(pos, pos) =~= Seq::<u8>::empty());
    } else {
        lemma_encode_decode_char(b, pos);
        let (c, p) = spec_decode_char(b, pos)->0;
        lemma_encode_decode_chars(b, p, (count - 1) as nat);
        let (s2, _) = spec_decode_chars(b, p, (count - 1) as nat)->0;
        assert(s == seq![c] + s2);
        assert(s[0] == c);
        assert(s.drop_first() =~= s2);
        lemma_subrange_split(b, pos, p, q);
        assert(spec_encode_chars(s) == spec_encode_char(c) + spec_encode_chars(s2));
    }
}

/// A decoded string re-encodes to the bytes it was read from.
proof fn lemma_encode_decode_str(b: Seq<u8>, pos: int)
    requires
        spec_decode_str(b, pos) is Some,
    ensures
        spec_decode_str(b, pos) matches Some((s, q)) ==> str_fits(s) && 0 <= pos && pos + 8 <= q
            <= b.len() && q == pos + spec_encode_str(s).len() && b.subrange(pos, q)
            == spec_encode_str(s),
{
    lemma_auto_spec_u64_to_from_le_bytes();
    lemma_encode_decode_u64(b, pos);
    let (n, p8) = spec_decode_u64(b, pos)->0;
    lemma_encode_decode_chars(b, p8, n as nat);
    let (s, q) = spec_decode_str(b, pos)->0;
    lemma_encode_chars_len(s);
    assert((s.len() as u64) == n);
    lemma_subrange_split(b, pos, p8, q);
}

/// A decoded optional string re-encodes to the bytes it was read from.
proof fn lemma_encode_decode_opt_str(b: Seq<u8>, pos: int)
    requires
        spec_decode_opt_str(b, pos) is Some,
    ensures
        spec_decode_opt_str(b, pos) matches Some((o, q)) ==> opt_str_fits(o) && 0 <= pos < q
            <= b.len() && q == pos + spec_encode_opt_str(o).len() && b.subrange(pos, q)
            == spec_encode_opt_str(o),
{
    lemma_encode_decode_u8(b, pos);
    let (t, p) = spec_decode_u8(b, pos)->0;
    let (o, q) = spec_decode_opt_str(b, pos)->0;
    if t == 0 {
        assert(b.subrange(pos, q) =~= seq![0u8]);
    } else {
        lemma_encode_decode_str(b, p);
        let (s, _) = spec_decode_str(b, p)->0;
        lemma_subrange_split(b, pos, p, q);
        assert(spec_encode_opt_str(o) == seq![1u8] + spec_encode_str(s));
    }
}

/// A decoded layout re-encodes to the bytes it was read from.
proof fn lemma_encode_decode_layout(b: Seq<u8>, pos: int)
    requires
        spec_decode_layout(b, pos) is Some,
    ensures
        spec_decode_layout(b, pos) matches Some((l, q)) ==> 0 <= pos && q == pos + 16 && q
            <= b.len() && b.subrange(pos, q) == spec_encode_layout(l),
{
    lemma_encode_decode_u64(b, pos);
    lemma_encode_decode_u64(b, pos + 8);
    let (x, p1) = spec_decode_u64(b, pos)->0;
    let (y, q) = spec_decode_u64(b, p1)->0;
    let (l, _) = spec_decode_layout(b, pos)->0;
    DataLayout::lemma_spec_raw(x as usize, y as usize);
    assert(l.spec_size() as u64 == x);
    assert(l.spec_align() as u64 == y);
    lemma_subrange_split(b, pos, p1, q);
}

/// A decoded primitive type re-encodes to the byte it was read from.
proof fn lemma_encode_decode_primitive(b: Seq<u8>, pos: int)
    requires
        spec_decode_primitive(b, pos) is Some,
    ensures
        spec_decode_primitive(b, pos) matches Some((p, q)) ==> 0 <= pos && q == pos + 1 && q
            <= b.len() && b.subrange(pos, q) == spec_encode_primitive(p),
{
    lemma_encode_decode_u8(b, pos);
    let (t, _) = spec_decode_u8(b, pos)->0;
    let (prim, _) = spec_decode_primitive(b, pos)->0;
    assert(spec_primitive_tag(prim) == t);
}

/// A decoded argument entry re-encodes to the bytes it was read from.
proof fn lemma_encode_decode_pair(b: Seq<u8>, pos: int)
    requires
        spec_decode_pair(b, pos) is Some,
    ensures
        spec_decode_pair(b, pos) matches Some((e, q)) ==> pair_fits(e) && 0 <= pos < q <= b.len()
            && q == pos + spec_encode_pair(e).len() && b.subrange(pos, q) == spec_encode_pair(e),
{
    lemma_encode_decode_str(b, pos);
    let (a, p) = spec_decode_str(b, pos)->0;
    lemma_encode_decode_str(b, p);
    let (c, q) = spec_decode_str(b, p)->0;
    lemma_subrange_split(b, pos, p, q);
}

/// Decoded argument lists re-encode to the bytes they were read from.
proof fn lemma_encode_decode_pairs(b: Seq<u8>, pos: int, count: nat)
    requires
        0 <= pos <= b.len(),
        spec_decode_pairs(b, pos, count) is Some,
    ensures
        spec_decode_pairs(b, pos, count) matches Some((ps, q)) ==> ps.len() == count && (forall|
            i: int,
        |
            0 <= i < ps.len() ==> #[trigger] pair_fits(ps[i])) && 0 <= pos <= q <= b.len() && q
            == pos + spec_encode_pairs(ps).len() && b.subrange(pos, q) == spec_encode_pairs(ps),
    decreases count,
{
    let (ps, q) = spec_decode_pairs(b, pos, count)->0;
    if count == 0 {
        assert(b.subrange(pos, pos) =~= Seq::<u8>::empty());
    } else {
        lemma_encode_decode_pair(b, pos);
        let (e, p) = spec_decode_pair(b, pos)->0;
        lemma_encode_decode_pairs(b, p, (count - 1) as nat);
        let (ps2, _) = spec_decode_pairs(b, p, (count - 1) as nat)->0;
        assert(ps == seq![e] + ps2);
        assert(ps[0] == e);
        assert(ps.drop_first() =~= ps2);
        lemma_subrange_split(b, pos, p, q);
        assert(spec_encode_pairs(ps) == spec_encode_pair(e) + spec_encode_pairs(ps2));
        assert(forall|i: int|
            0 <= i < ps.len() ==> #[trigger] pair_fits(ps[i]) == (if i == 0 {
                pair_fits(e)
            } else {
                pair_fits(ps2[i - 1])
            }));
    }
}

/// A decoded function definition re-encodes to the bytes it was read from.
proof fn lemma_encode_decode_fd(b: Seq<u8>, pos: int)
    requires
        spec_decode_fd(b, pos) is Some,
    ensures
        spec_decode_fd(b, pos) matches Some((f, q)) ==> fd_fits(f) && 0 <= pos < q <= b.len() && q
            == pos + spec_encode_fd(f).len() && b.subrange(pos, q) == spec_encode_fd(f),
{
    lemma_auto_spec_u64_to_from_le_bytes();
    lemma_encode_decode_u64(b, pos);
    let (n, p8) = spec_decode_u64(b, pos)->0;
    lemma_encode_decode_pairs(b, p8, n as nat);
    let (args, p2) = spec_decode_pairs(b, p8, n as nat)->0;
    lemma_encode_decode_opt_str(b, p2);
    let (ret, q) = spec_decode_opt_str(b, p2)->0;
    let (f, _) = spec_decode_fd(b, pos)->0;
    assert((f.arguments.len() as u64) == n);
    lemma_subrange_split(b, pos, p8, p2);
    lemma_subrange_split(b, pos, p2, q);
    assert(spec_encode_fd(f) =~= spec_u64_to_le_bytes(n) + spec_encode_pairs(args)
        + spec_encode_opt_str(ret));
    assert(b.subrange(pos, p2) =~= spec_u64_to_le_bytes(n) + spec_encode_pairs(args));
}

/// Decoded method lists re-encode to the bytes they were read from.
proof fn lemma_encode_decode_fds(b: Seq<u8>, pos: int, count: nat)
    requires
        0 <= pos <= b.len(),
        spec_decode_fds(b, pos, count) is Some,
    ensures
        spec_decode_fds(b, pos, count) matches Some((fs, q)) ==> fs.len() == count && (forall|
            i: int,
        |
            0 <= i < fs.len() ==> #[trigger] fd_fits(fs[i])) && 0 <= pos <= q <= b.len() && q == pos
            + spec_encode_fds(fs).len() && b.subrange(pos, q) == spec_encode_fds(fs),
    decreases count,
{
    let (fs, q) = spec_decode_fds(b, pos, count)->0;
    if count == 0 {
        assert(b.subrange(pos, pos) =~= Seq::<u8>::empty());
    } else {
        lemma_encode_decode_fd(b, pos);
        let (f, p) = spec_decode_fd(b, pos)->0;
        lemma_encode_decode_fds(b, p, (count - 1) as nat);
        let (fs2, _) = spec_decode_fds(b, p, (count - 1) as nat)->0;
        assert(fs == seq![f] + fs2);
        assert(fs[0] == f);
        assert(fs.drop_first() =~= fs2);
        lemma_subrange_split(b, pos, p, q);
        assert(spec_encode_fds(fs) == spec_encode_fd(f) + spec_encode_fds(fs2));
        assert(forall|i: int|
            0 <= i < fs.len() ==> #[trigger] fd_fits(fs[i]) == (if i == 0 {
                fd_fits(f)
            } else {
                fd_fits(fs2[i - 1])
            }));
    }
}

/// A decoded script type re-encodes to the bytes it was read from.
proof fn lemma_encode_decode_script_type(b: Seq<u8>, pos: int)
    requires
        spec_decode_script_type(b, pos) is Some,
    ensures
        spec_decode_script_type(b, pos) matches Some((t, q)) ==> st_fits(t) && 0 <= pos < q
            <= b.len() && q == pos + spec_encode_script_type(t).len() && b.subrange(pos, q)
            == spec_encode_script_type(t),
    decreases b.len() - pos,
{
    lemma_encode_decode_u8(b, pos);
    let (tag, p) = spec_decode_u8(b, pos)->0;
    let (t, q) = spec_decode_script_type(b, pos)->0;
    if tag == 0 {
        lemma_encode_decode_struct_def(b, p);
        let (sd, _) = spec_decode_struct_def(b, p)->0;
        lemma_subrange_split(b, pos, p, q);
        assert(spec_encode_script_type(t) == seq![0u8] + spec_encode_struct_def(sd));
    } else {
        lemma_encode_decode_fd(b, p);
        let (f, _) = spec_decode_fd(b, p)->0;
        lemma_subrange_split(b, pos, p, q);
        assert(spec_encode_script_type(t) == seq![1u8] + spec_encode_fd(f));
    }
}

/// A decoded struct definition re-encodes to the bytes it was read from.
proof fn lemma_encode_decode_struct_def(b: Seq<u8>, pos: int)
    requires
        spec_decode_struct_def(b, pos) is Some,
    ensures
        spec_decode_struct_def(b, pos) matches Some((sd, q)) ==> sd_fits(sd) && 0 <= pos < q
            <= b.len() && q == pos + spec_encode_struct_def(sd).len() && b.subrange(pos, q)
            == spec_encode_struct_def(sd),
    decreases b.len() - pos,
{
    lemma_auto_spec_u64_to_from_le_bytes();
    lemma_encode_decode_layout(b, pos);
    let (l, p1) = spec_decode_layout(b, pos)->0;
    lemma_encode_decode_data_type(b, p1);
    let (dt, p2) = spec_decode_data_type(b, p1)->0;
    lemma_encode_decode_u64(b, p2);
    let (n, p3) = spec_decode_u64(b, p2)->0;
    lemma_encode_decode_fds(b, p3, n as nat);
    let (fs, q) = spec_decode_fds(b, p3, n as nat)->0;
    let (sd, _) = spec_decode_struct_def(b, pos)->0;
    assert((sd.method_definitions.len() as u64) == n);
    lemma_subrange_split(b, pos, p1, p2);
    lemma_subrange_split(b, pos, p2, p3);
    lemma_subrange_split(b, pos, p3, q);
    assert(b.subrange(pos, p2) =~= spec_encode_layout(l) + spec_encode_data_type(dt));
    assert(b.subrange(pos, p3) =~= spec_encode_layout(l) + spec_encode_data_type(dt)
        + spec_u64_to_le_bytes(n));
    assert(b.subrange(pos, q) =~= spec_encode_struct_def(sd));
}

/// A decoded data shape re-encodes to the bytes it was read from.
proof fn lemma_encode_decode_data_type(b: Seq<u8>, pos: int)
    requires
        spec_decode_data_type(b, pos) is Some,
    ensures
        spec_decode_data_type(b, pos) matches Some((d, q)) ==> dt_fits(d) && 0 <= pos < q
            <= b.len() && q == pos + spec_encode_data_type(d).len() && b.subrange(pos, q)
            == spec_encode_data_type(d),
    decreases b.len() - pos,
{
    lemma_auto_spec_u64_to_from_le_bytes();
    lemma_encode_decode_u8(b, pos);
    let (tag, p) = spec_decode_u8(b, pos)->0;
    let (d, q) = spec_decode_data_type(b, pos)->0;
    if tag == 0 {
        lemma_encode_decode_script_type(b, p);
        let (st, _) = spec_decode_script_type(b, p)->0;
        lemma_subrange_split(b, pos, p, q);
        assert(spec_encode_data_type(d) == seq![0u8] + spec_encode_script_type(st));
    } else if tag == 1 {
        lemma_encode_decode_u64(b, p);
        let (n, p2) = spec_decode_u64(b, p)->0;
        lemma_encode_decode_fields(b, p2, n as nat);
        let (fs, _) = spec_decode_fields(b, p2, n as nat)->0;
        assert((fs.len() as u64) == n);
        lemma_subrange_split(b, pos, p, p2);
        lemma_subrange_split(b, pos, p2, q);
        assert(b.subrange(pos, p2) =~= seq![1u8] + spec_u64_to_le_bytes(n));
        assert(b.subrange(pos, q) =~= spec_encode_data_type(d));
    } else {
        lemma_encode_decode_primitive(b, p);
        let (prim, _) = spec_decode_primitive(b, p)->0;
        lemma_subrange_split(b, pos, p, q);
        assert(spec_encode_data_type(d) == seq![2u8] + spec_encode_primitive(prim));
    }
}

/// Decoded field lists re-encode to the bytes they were read from.
proof fn lemma_encode_decode_fields(b: Seq<u8>, pos: int, count: nat)
    requires
        0 <= pos <= b.len(),
        spec_decode_fields(b, pos, count) is Some,
    ensures
        spec_decode_fields(b, pos, count) matches Some((fs, q)) ==> fs.len() == count && fields_fit(
            fs,
        ) && 0 <= pos <= q <= b.len() && q == pos + spec_encode_fields(fs).len() && b.subrange(
            pos,
            q,
        ) == spec_encode_fields(fs),
    decreases b.len() - pos, count,
{
    let (fs, q) = spec_decode_fields(b, pos, count)->0;
    if count == 0 {
        assert(b.subrange(pos, pos) =~= Seq::<u8>::empty());
    } else {
        lemma_encode_decode_str(b, pos);
        let (name, p1) = spec_decode_str(b, pos)->0;
        lemma_encode_decode_struct_def(b, p1);
        let (sd, p2) = spec_decode_struct_def(b, p1)->0;
        lemma_encode_decode_fields(b, p2, (count - 1) as nat);
        let (fs2, _) = spec_decode_fields(b, p2, (count - 1) as nat)->0;
        assert(fs == seq![(name, sd)] + fs2);
        assert(fs[0] == (name, sd));
        assert(fs.drop_first() =~= fs2);
        lemma_subrange_split(b, pos, p1, p2);
        lemma_subrange_split(b, pos, p2, q);
        assert(b.subrange(pos, p2) =~= spec_encode_str(name) + spec_encode_struct_def(sd));
        assert(spec_encode_fields(fs) == spec_encode_str(fs[0].0) + spec_encode_struct_def(fs[0].1)
            + spec_encode_fields(fs.drop_first()));
        assert(b.subrange(pos, q) =~= spec_encode_fields(fs));
    }
}

/// A decoded catalog entry re-encodes to the bytes it was read from.
proof fn lemma_encode_decode_entry(b: Seq<u8>, pos: int)
    requires
        spec_decode_entry(b, pos) is Some,
    ensures
        spec_decode_entry(b, pos) matches Some((e, q)) ==> entry_fits(e) && 0 <= pos < q <= b.len()
            && q == pos + spec_encode_entry(e).len() && b.subrange(pos, q) == spec_encode_entry(e),
{
    lemma_encode_decode_str(b, pos);
    let (path, p) = spec_decode_str(b, pos)->0;
    lemma_encode_decode_script_type(b, p);
    let (t, q) = spec_decode_script_type(b, p)->0;
    lemma_subrange_split(b, pos, p, q);
}

/// Decoded catalog entry lists re-encode to the bytes they were read from.
proof fn lemma_encode_decode_entries(b: Seq<u8>, pos: int, count: nat)
    requires
        0 <= pos <= b.len(),
        spec_decode_entries(b, pos, count) is Some,
    ensures
        spec_decode_entries(b, pos, count) matches Some((es, q)) ==> es.len() == count && (forall|
            i: int,
        |
            0 <= i < es.len() ==> #[trigger] entry_fits(es[i])) && 0 <= pos <= q <= b.len() && q
            == pos + spec_encode_entries(es).len() && b.subrange(pos, q) == spec_encode_entries(es),
    decreases count,
{
    let (es, q) = spec_decode_entries(b, pos, count)->0;
    if count == 0 {
        assert(b.subrange(pos, pos) =~= Seq::<u8>::empty());
    } else {
        lemma_encode_decode_entry(b, pos);
        let (e, p) = spec_decode_entry(b, pos)->0;
        lemma_encode_decode_entries(b, p, (count - 1) as nat);
        let (es2, _) = spec_decode_entries(b, p, (count - 1) as nat)->0;
        assert(es == seq![e] + es2);
        assert(es[0] == e);
        assert(es.drop_first() =~= es2);
        lemma_subrange_split(b, pos, p, q);
        assert(spec_encode_entries(es) == spec_encode_entry(e) + spec_encode_entries(es2));
        assert(forall|i: int|
            0 <= i < es.len() ==> #[trigger] entry_fits(es[i]) == (if i == 0 {
                entry_fits(e)
            } else {
                entry_fits(es2[i - 1])
            }));
    }
}

/// The converse of the round trip: whatever the decoder accepts was the
/// wire form of the catalog value it returns, so the decoder accepts
/// exactly the encodings and nothing else.
pub proof fn lemma_encode_decode_script_api(b: Seq<u8>)
    requires
        spec_decode_api(b) is Some,
    ensures
        spec_decode_api(b) matches Some((v, q)) ==> api_fits(v) && 0 <= q <= b.len() && q
            == spec_encode_api(v).len() && b.subrange(0, q) == spec_encode_api(v),
{
    lemma_auto_spec_u64_to_from_le_bytes();
    lemma_encode_decode_u64(b, 0);
    let (n, p8) = spec_decode_u64(b, 0)->0;
    lemma_encode_decode_entries(b, p8, n as nat);
    let (v, q) = spec_decode_api(b)->0;
    assert((v.len() as u64) == n);
    lemma_subrange_split(b, 0, p8, q);
}

} // verus!
