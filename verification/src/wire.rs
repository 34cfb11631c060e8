use vstd::arithmetic::div_mod::lemma_multiply_divide_lt;
use vstd::prelude::*;

use crate::types::TypeId;

verus! {

/// Minimal big-endian byte representation of an unsigned integer:
/// no leading zero byte; zero itself has the empty representation.
pub open spec fn be_bytes(u: nat) -> Seq<u8>
    decreases u,
{
    if u == 0 {
        Seq::empty()
    } else {
        be_bytes(u / 256).push((u % 256) as u8)
    }
}

/// Wire encoding of an unsigned integer: a value below 128 is a single
/// byte holding the value; any other value is one byte holding the
/// negated length of its minimal big-endian representation, followed by
/// that representation.
pub open spec fn uint_wire(u: nat) -> Seq<u8> {
    if u < 128 {
        seq![u as u8]
    } else {
        seq![(256 - be_bytes(u).len()) as u8] + be_bytes(u)
    }
}

/// Unsigned carrier of a signed integer: bit zero records the sign and
/// the remaining bits hold the magnitude, complemented when negative.
pub open spec fn sign_carrier(i: int) -> nat {
    if i < 0 {
        (2 * (-i - 1) + 1) as nat
    } else {
        (2 * i) as nat
    }
}

/// Wire encoding of a signed integer.
pub open spec fn int_wire(i: int) -> Seq<u8> {
    uint_wire(sign_carrier(i))
}

/// A definition frame: a length prefix covering the payload, then the
/// negated type identifier, then the registry's definition bytes.
pub open spec fn definition_frame(tid: int, def: Seq<u8>) -> Seq<u8> {
    uint_wire((int_wire(-tid) + def).len()) + int_wire(-tid) + def
}

/// A value frame: a length prefix covering the payload, then the
/// positive type identifier, then the value's encoded bytes.
pub open spec fn value_frame(tid: int, payload: Seq<u8>) -> Seq<u8> {
    uint_wire((int_wire(tid) + payload).len()) + int_wire(tid) + payload
}

pub open spec fn pow256(k: nat) -> nat
    decreases k,
{
    if k == 0 {
        1
    } else {
        256 * pow256((k - 1) as nat)
    }
}

proof fn lemma_be_bytes_len(u: nat, k: nat)
    requires
        u < pow256(k),
    ensures
        be_bytes(u).len() <= k,
    decreases k,
{
    if u == 0 {
    } else {
        assert(k >= 1);
        assert(u / 256 < pow256((k - 1) as nat)) by {
            lemma_multiply_divide_lt(u as int, 256, pow256((k - 1) as nat) as int);
        }
        lemma_be_bytes_len(u / 256, (k - 1) as nat);
    }
}

/// The representation of any 64-bit value fits in eight bytes, and a
/// nonzero value needs at least one.
pub proof fn lemma_be_bytes_len_u64(u: nat)
    requires
        u <= u64::MAX,
    ensures
        be_bytes(u).len() <= 8,
        u > 0 ==> be_bytes(u).len() >= 1,
{
    assert(pow256(8) == 0x10000000000000000) by {
        reveal_with_fuel(pow256, 9);
    }
    lemma_be_bytes_len(u, 8);
}

/// Bounds on the encoded size of an unsigned integer: one byte for
/// small values, at most nine in all.
pub proof fn lemma_uint_wire_len(u: nat)
    requires
        u <= u64::MAX,
    ensures
        1 <= uint_wire(u).len() <= 9,
{
    lemma_be_bytes_len_u64(u);
}

/// Bounds on the encoded size of a signed 64-bit integer.
pub proof fn lemma_int_wire_len(i: int)
    requires
        i64::MIN <= i <= i64::MAX,
    ensures
        1 <= int_wire(i).len() <= 9,
{
    lemma_uint_wire_len(sign_carrier(i));
}

/// Encodes an unsigned integer in the wire format.
pub fn encode_uint(u: u64) -> (r: Vec<u8>)
    ensures
        r@ == uint_wire(u as nat),
{
    let mut r: Vec<u8> = Vec::new();
    if u < 128 {
        r.push(u as u8);
        proof {
            assert(r@ =~= uint_wire(u as nat));
        }
        return r;
    }
    let mut digits: Vec<u8> = Vec::new();
    let mut x = u;
    while x > 0
        invariant
            be_bytes(u as nat) == be_bytes(x as nat) + digits@,
            digits@.len() <= be_bytes(u as nat).len(),
        decreases x,
    {
        let d: u8 = (x % 256) as u8;
        let ghost prev = digits@;
        digits.insert(0, d);
        proof {
            assert(be_bytes(x as nat) == be_bytes((x / 256) as nat).push(d));
            assert(digits@ =~= seq![d] + prev);
            assert(be_bytes((x / 256) as nat) + digits@ =~= be_bytes(x as nat) + prev);
        }
        x = x / 256;
    }
    proof {
        lemma_be_bytes_len_u64(u as nat);
        assert(digits@ == be_bytes(u as nat));
    }
    let count: u8 = (256 - digits.len()) as u8;
    let mut out: Vec<u8> = Vec::new();
    out.push(count);
    out.append(&mut digits);
    proof {
        assert(out@ =~= uint_wire(u as nat));
    }
    out
}

/// Encodes a signed integer in the wire format.
pub fn encode_int(i: i64) -> (r: Vec<u8>)
    ensures
        r@ == int_wire(i as int),
{
    let u: u64 = if i < 0 {
        ((-(i + 1)) as u64) * 2 + 1
    } else {
        (i as u64) * 2
    };
    proof {
        assert(u as nat == sign_carrier(i as int));
    }
    encode_uint(u)
}

/// Encodes a boolean as the unsigned integer zero or one, its wire
/// representation as a value.
pub fn encode_bool(b: bool) -> (r: Vec<u8>)
    ensures
        r@ == uint_wire(if b {
            1
        } else {
            0
        }),
{
    if b {
        encode_uint(1)
    } else {
        encode_uint(0)
    }
}

/// Encodes a byte string as a value: its length, then its bytes.
pub fn encode_blob(data: &[u8]) -> (r: Vec<u8>)
    ensures
        r@ == uint_wire(data@.len()) + data@,
{
    let mut r = encode_uint(data.len() as u64);
    let mut tail = vstd::slice::slice_to_vec(data);
    r.append(&mut tail);
    r
}

/// Builds a complete definition frame for a type identifier and its
/// definition bytes.
pub fn build_definition_frame(type_id: TypeId, def: &Vec<u8>) -> (r: Vec<u8>)
    requires
        type_id.valid(),
        def@.len() + 18 <= usize::MAX,
    ensures
        r@ == definition_frame(type_id.0 as int, def@),
{
    proof {
        lemma_int_wire_len(-(type_id.0 as int));
    }
    let mut tag = encode_int(-type_id.0);
    let mut r = encode_uint((tag.len() + def.len()) as u64);
    r.append(&mut tag);
    let mut tail = vstd::slice::slice_to_vec(def.as_slice());
    r.append(&mut tail);
    proof {
        assert(r@ =~= definition_frame(type_id.0 as int, def@));
    }
    r
}

/// Builds the header of a value frame: the length prefix covering the
/// type tag and a payload of the given length, then the tag itself.
/// The payload follows separately, straight out of the scatter buffer.
pub fn build_value_header(type_id: TypeId, payload_len: usize) -> (r: Vec<u8>)
    requires
        type_id.valid(),
        payload_len + 18 <= usize::MAX,
    ensures
        r@ == uint_wire((int_wire(type_id.0 as int).len() + payload_len) as nat) + int_wire(
            type_id.0 as int,
        ),
{
    proof {
        lemma_int_wire_len(type_id.0 as int);
    }
    let mut tag = encode_int(type_id.0);
    let mut r = encode_uint((tag.len() + payload_len) as u64);
    r.append(&mut tag);
    r
}

} // verus!
