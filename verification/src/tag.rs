//! The mm2 item encoding: every item of an s-expression starts with one tag byte.
//!
//! The two high bits of a tag byte say what the item is:
//! - `11` followed by six zero bits: a new variable (`NewVar`);
//! - `11` followed by a nonzero size `s`: a symbol of `s` bytes, which follow the tag;
//! - `10` followed by `i`: a reference to the `i`-th variable introduced so far;
//! - `00` followed by `a`: an expression of arity `a`, whose `a` items follow.
//! The high bits `01` are reserved: such a byte is no tag.
use vstd::prelude::*;

verus! {

/// What a tag byte says about the item it starts.
#[derive(Clone, Copy, Debug, PartialEq, Eq, Structural)]
pub enum Tag {
    /// A new variable.
    NewVar,
    /// A reference to an earlier variable, by its index.
    VarRef(u8),
    /// A symbol, by its length in bytes.
    SymbolSize(u8),
    /// An expression, by its number of items.
    Arity(u8),
}

/// The byte is in the reserved range and starts no item.
pub open spec fn is_reserved(b: u8) -> bool {
    64 <= b < 128
}

/// The tag that a byte stands for, or `None` for a reserved byte.
pub open spec fn decode(b: u8) -> Option<Tag> {
    if is_reserved(b) {
        None
    } else if b == 192 {
        Some(Tag::NewVar)
    } else if b > 192 {
        Some(Tag::SymbolSize((b - 192) as u8))
    } else if b >= 128 {
        Some(Tag::VarRef((b - 128) as u8))
    } else {
        Some(Tag::Arity(b))
    }
}

/// The tag fits in one byte: its number is below 64, and a symbol is not empty.
pub open spec fn encodable(t: Tag) -> bool {
    match t {
        Tag::NewVar => true,
        Tag::VarRef(i) => i < 64,
        Tag::SymbolSize(s) => 0 < s < 64,
        Tag::Arity(a) => a < 64,
    }
}

/// The byte that stands for an encodable tag.
pub open spec fn encode(t: Tag) -> u8 {
    match t {
        Tag::NewVar => 192,
        Tag::VarRef(i) => (128 + i) as u8,
        Tag::SymbolSize(s) => (192 + s) as u8,
        Tag::Arity(a) => a,
    }
}

/// Decode a tag byte.
pub fn byte_item(b: u8) -> (t: Tag)
    requires
        !is_reserved(b),
    ensures
        decode(b) == Some(t),
        b == 0xc0u8 ==> t == Tag::NewVar,
        b & 0xc0u8 == 0xc0u8 && b != 0xc0u8 ==> t == Tag::SymbolSize(b & 0x3fu8),
        b & 0xc0u8 == 0x80u8 ==> t == Tag::VarRef(b & 0x3fu8),
        b & 0xc0u8 == 0u8 ==> t == Tag::Arity(b & 0x3fu8),
{
    let hi = b & 0xc0u8;
    let lo = b & 0x3fu8;
    proof {
        assert(hi == 0xc0 || hi == 0x80 || hi == 0x40 || hi == 0) by (bit_vector)
            requires
                hi == b & 0xc0u8,
        ;
        assert(hi == 0xc0 <==> b >= 192) by (bit_vector)
            requires
                hi == b & 0xc0u8,
        ;
        assert(hi == 0x80 <==> (128 <= b && b < 192)) by (bit_vector)
            requires
                hi == b & 0xc0u8,
        ;
        assert(hi == 0 <==> b < 64) by (bit_vector)
            requires
                hi == b & 0xc0u8,
        ;
        assert(lo == b % 64) by (bit_vector)
            requires
                lo == b & 0x3fu8,
        ;
    }
    if b == 0xc0u8 {
        Tag::NewVar
    } else if hi == 0xc0u8 {
        Tag::SymbolSize(lo)
    } else if hi == 0x80u8 {
        Tag::VarRef(lo)
    } else {
        Tag::Arity(lo)
    }
}

/// Encode a tag as its byte.
pub fn item_byte(t: Tag) -> (b: u8)
    requires
        encodable(t),
    ensures
        b == encode(t),
        t == Tag::NewVar ==> b == 0xc0u8,
        t matches Tag::SymbolSize(n) ==> b == 0xc0u8 | n,
        t matches Tag::VarRef(i) ==> b == 0x80u8 | i,
        t matches Tag::Arity(a) ==> b == a,
{
    match t {
        Tag::NewVar => 0xc0u8,
        Tag::SymbolSize(s) => {
            assert(s < 64 ==> 0xc0u8 | s == 192 + s) by (bit_vector);
            0xc0u8 | s
        },
        Tag::VarRef(i) => {
            assert(i < 64 ==> 0x80u8 | i == 128 + i) by (bit_vector);
            0x80u8 | i
        },
        Tag::Arity(a) => a,
    }
}

/// The tag layout by bits: the two high bits of a byte say what it starts
/// (`11` a new variable when the low six bits are zero, else a symbol of that
/// many bytes; `10` a reference; `00` an arity; `01` nothing) and the low six
/// bits give the number.
pub proof fn lemma_decode_bits(b: u8)
    ensures
        b & 0xc0u8 == 0x40u8 <==> decode(b) is None,
        b == 0xc0u8 ==> decode(b) == Some(Tag::NewVar),
        b & 0xc0u8 == 0xc0u8 && b != 0xc0u8 ==> decode(b) == Some(Tag::SymbolSize(b & 0x3fu8)),
        b & 0xc0u8 == 0x80u8 ==> decode(b) == Some(Tag::VarRef(b & 0x3fu8)),
        b & 0xc0u8 == 0u8 ==> decode(b) == Some(Tag::Arity(b & 0x3fu8)),
{
    assert(b & 0xc0u8 == 0x40u8 <==> (64 <= b && b < 128)) by (bit_vector);
    assert(b & 0xc0u8 == 0xc0u8 ==> (b >= 192 && b & 0x3fu8 == b - 192)) by (bit_vector);
    assert(b & 0xc0u8 == 0x80u8 ==> (128 <= b && b < 192 && b & 0x3fu8 == b - 128)) by (bit_vector);
    assert(b & 0xc0u8 == 0u8 ==> (b < 64 && b & 0x3fu8 == b)) by (bit_vector);
}

/// The tag layout by bits, for encoding: a symbol of `s` bytes is `0xC0 | s`, a
/// reference to `i` is `0x80 | i`, an arity `a` is `a`, and a new variable `0xC0`.
pub proof fn lemma_encode_bits(t: Tag)
    requires
        encodable(t),
    ensures
        t == Tag::NewVar ==> encode(t) == 0xc0u8,
        t matches Tag::SymbolSize(n) ==> encode(t) == 0xc0u8 | n,
        t matches Tag::VarRef(i) ==> encode(t) == 0x80u8 | i,
        t matches Tag::Arity(a) ==> encode(t) == a,
{
    match t {
        Tag::SymbolSize(n) => {
            assert(n < 64 ==> 0xc0u8 | n == 192 + n) by (bit_vector);
        },
        Tag::VarRef(i) => {
            assert(i < 64 ==> 0x80u8 | i == 128 + i) by (bit_vector);
        },
        _ => {},
    }
}

/// Decoding an encoded tag gives the tag back.
pub proof fn lemma_decode_encode(t: Tag)
    requires
        encodable(t),
    ensures
        decode(encode(t)) == Some(t),
{
}

/// Every byte that is not reserved is the encoding of the tag it decodes to.
pub proof fn lemma_encode_decode(b: u8)
    requires
        !is_reserved(b),
    ensures
        decode(b) is Some,
        encodable(decode(b).unwrap()),
        encode(decode(b).unwrap()) == b,
{
}

} // verus!
