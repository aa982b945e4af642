use crate::object::{class_of, SpecVal};
use vstd::prelude::*;

verus! {

// ------------------------------------------------------------------
// Integer codec: variable-length big-endian unsigned integers, and a
// zig-zag-like signed form whose low bit is the sign.
// ------------------------------------------------------------------

/// Big-endian base-256 digits of `n` with all leading zero bytes stripped;
/// zero is the empty sequence.
pub open spec fn uint_bytes(n: nat) -> Seq<u8>
    decreases n,
{
    if n == 0 {
        Seq::empty()
    } else {
        uint_bytes(n / 256) + seq![(n % 256) as u8]
    }
}

/// The unsigned integer denoted by big-endian base-256 digits.
pub open spec fn uint_value(s: Seq<u8>) -> nat
    decreases s.len(),
{
    if s.len() == 0 {
        0
    } else {
        uint_value(s.drop_last()) * 256 + (s.last() as nat)
    }
}

/// The unsigned integer denoted by big-endian digits, reduced mod 2^128:
/// what a 128-bit accumulator holds after shifting in every byte.
pub open spec fn uint_from(s: Seq<u8>) -> u128
    decreases s.len(),
{
    if s.len() == 0 {
        0u128
    } else {
        (((uint_from(s.drop_last()) as nat) * 256 + (s.last() as nat))
            % 0x100000000000000000000000000000000nat) as u128
    }
}

/// `(|n| << 1) | (n < 0)`, computed in 128 bits; `i128::MIN` wraps to 1.
pub open spec fn zigzag(n: i128) -> u128 {
    if n >= 0 {
        ((n as int) * 2) as u128
    } else if n == i128::MIN {
        1u128
    } else {
        ((-(n as int)) * 2 + 1) as u128
    }
}

/// The signed integer denoted by a zig-zag value: the low bit is the sign,
/// and the negative zero pattern stands for `i128::MIN`.
pub open spec fn unzigzag(u: u128) -> i128 {
    if u % 2 == 1 {
        if u == 1 {
            i128::MIN
        } else {
            (-(u / 2)) as i128
        }
    } else {
        (u / 2) as i128
    }
}

/// The byte encoding of a signed integer.
pub open spec fn sint_bytes(n: i128) -> Seq<u8> {
    uint_bytes(zigzag(n) as nat)
}

/// The signed integer denoted by an encoded byte sequence.
pub open spec fn sint_of_bytes(s: Seq<u8>) -> i128 {
    unzigzag(uint_from(s))
}

/// Encodes `n` as big-endian bytes with leading zeros stripped; `0` encodes
/// as the empty vector.
pub fn uint_to_bytes(n: u128) -> (r: Vec<u8>)
    ensures
        r@ == uint_bytes(n as nat),
    decreases n,
{
    if n == 0 {
        Vec::new()
    } else {
        let mut v = uint_to_bytes(n / 256);
        v.push((n % 256) as u8);
        v
    }
}

/// Reads a big-endian unsigned integer; an input longer than 16 bytes wraps
/// mod 2^128, as shifting every byte into a 128-bit accumulator does.
pub fn uint_from_bytes(bytes: &[u8]) -> (r: u128)
    ensures
        r == uint_from(bytes@),
        bytes@.len() <= 16 ==> r == uint_value(bytes@),
{
    let mut n: u128 = 0;
    let mut i: usize = 0;
    while i < bytes.len()
        invariant
            0 <= i <= bytes@.len(),
            n == uint_from(bytes@.take(i as int)),
        decreases bytes@.len() - i,
    {
        let b = bytes[i];
        proof {
            assert(bytes@.take(i + 1).drop_last() =~= bytes@.take(i as int));
            assert(bytes@.take(i + 1).last() == bytes@[i as int]);
        }
        n = n.wrapping_mul(256).wrapping_add(b as u128);
        i = i + 1;
    }
    proof {
        assert(bytes@.take(bytes@.len() as int) =~= bytes@);
        if bytes@.len() <= 16 {
            lemma_uint_from_small(bytes@);
        }
    }
    n
}

/// Encodes `n` with the sign in the low bit: `(|n| << 1) | sign`, then as an
/// unsigned integer. `i128::MIN` relies on the 128-bit wrap and encodes as 1.
pub fn sint_to_bytes(n: i128) -> (r: Vec<u8>)
    ensures
        r@ == sint_bytes(n),
{
    let m: u128 = if n >= 0 {
        (n as u128) * 2
    } else if n == i128::MIN {
        1
    } else {
        let p: i128 = -(n + 1);
        (p as u128) * 2 + 3
    };
    assert(m == zigzag(n));
    uint_to_bytes(m)
}

/// Reads a signed integer: the low bit is the sign; the pattern that would
/// denote negative zero denotes `i128::MIN`.
pub fn sint_from_bytes(bytes: &[u8]) -> (r: i128)
    ensures
        r == sint_of_bytes(bytes@),
{
    let u = uint_from_bytes(bytes);
    if u % 2 == 1 {
        let half = (u / 2) as i128;
        if half == 0 {
            i128::MIN
        } else {
            -half
        }
    } else {
        (u / 2) as i128
    }
}

/// 256^k.
pub open spec fn pow256(k: nat) -> nat
    decreases k,
{
    if k == 0 {
        1
    } else {
        256 * pow256((k - 1) as nat)
    }
}

proof fn lemma_uint_value_bound(s: Seq<u8>)
    ensures
        uint_value(s) < pow256(s.len()),
    decreases s.len(),
{
    if s.len() > 0 {
        lemma_uint_value_bound(s.drop_last());
    }
}

/// On at most 16 digits the 128-bit accumulator never wraps.
proof fn lemma_uint_from_small(s: Seq<u8>)
    requires
        s.len() <= 16,
    ensures
        uint_from(s) == uint_value(s),
    decreases s.len(),
{
    if s.len() > 0 {
        lemma_uint_from_small(s.drop_last());
        lemma_uint_value_bound(s.drop_last());
        assert(pow256(s.drop_last().len()) <= pow256(15)) by {
            lemma_pow256_mono(s.drop_last().len(), 15);
        }
        assert(pow256(15) * 256 == pow256(16));
        assert(pow256(16) == 0x100000000000000000000000000000000nat) by {
            reveal_with_fuel(pow256, 17);
        }
        assert(uint_value(s.drop_last()) * 256 + (s.last() as nat)
            < 0x100000000000000000000000000000000nat) by (nonlinear_arith)
            requires
                uint_value(s.drop_last()) < pow256(s.drop_last().len()),
                pow256(s.drop_last().len()) <= pow256(15),
                pow256(15) * 256 == pow256(16),
                pow256(16) == 0x100000000000000000000000000000000nat,
                s.last() < 256,
        ;
    }
}

proof fn lemma_pow256_mono(a: nat, b: nat)
    requires
        a <= b,
    ensures
        pow256(a) <= pow256(b),
    decreases b,
{
    if a < b {
        lemma_pow256_mono(a, (b - 1) as nat);
        assert(pow256(b) == 256 * pow256((b - 1) as nat));
        assert(256 * pow256((b - 1) as nat) >= pow256((b - 1) as nat)) by (nonlinear_arith);
    }
}

/// `uint_bytes(n)` uses at most `k` digits when `n < 256^k`.
proof fn lemma_uint_bytes_len(n: nat, k: nat)
    requires
        n < pow256(k),
    ensures
        uint_bytes(n).len() <= k,
    decreases n,
{
    if n > 0 {
        assert(k > 0);
        assert(n / 256 < pow256((k - 1) as nat)) by (nonlinear_arith)
            requires
                n < pow256(k),
                k > 0,
                pow256(k) == 256 * pow256((k - 1) as nat),
        ;
        lemma_uint_bytes_len(n / 256, (k - 1) as nat);
    }
}

/// Law: every unsigned integer survives the byte round trip.
pub proof fn lemma_uint_round_trip(n: nat)
    ensures
        uint_value(uint_bytes(n)) == n,
    decreases n,
{
    if n > 0 {
        lemma_uint_round_trip(n / 256);
        assert(uint_bytes(n).drop_last() =~= uint_bytes(n / 256));
    }
}

/// Law: for every `u: u128`, reading back `uint_bytes(u)` gives `u`, and the
/// encoding fits in 16 bytes.
pub proof fn lemma_u128_round_trip(u: u128)
    ensures
        uint_from(uint_bytes(u as nat)) == u,
        uint_bytes(u as nat).len() <= 16,
{
    assert(pow256(16) == 0x100000000000000000000000000000000nat) by {
        reveal_with_fuel(pow256, 17);
    }
    lemma_uint_bytes_len(u as nat, 16);
    lemma_uint_from_small(uint_bytes(u as nat));
    lemma_uint_round_trip(u as nat);
}

/// Law: every `i128`, `i128::MIN` included, survives the signed round trip.
pub proof fn lemma_sint_round_trip(i: i128)
    ensures
        sint_of_bytes(sint_bytes(i)) == i,
        sint_bytes(i).len() <= 16,
{
    lemma_u128_round_trip(zigzag(i));
}

/// Law: zero encodes as the empty byte string, in both integer codecs.
pub proof fn lemma_zero_encodes_empty()
    ensures
        uint_bytes(0) == Seq::<u8>::empty(),
        sint_bytes(0) == Seq::<u8>::empty(),
{
}

} // verus!

// ------------------------------------------------------------------
// Wire format, specification level.
//
// A message is three sections: packed 2-bit classes, packed 3-bit
// length atoms (two per byte), and the concatenated payloads.
// ------------------------------------------------------------------

verus! {

// --- length atoms ---

/// The leading base-8 digits of a length, continuation bit set.
pub open spec fn chunks_c(n: nat) -> Seq<u8>
    decreases n,
{
    if n == 0 {
        Seq::empty()
    } else {
        chunks_c(n / 8) + seq![(n % 8 * 2 + 1) as u8]
    }
}

/// The 3-bit atoms of one length value, as 4-bit nibbles
/// `(digit << 1) | continuation`: big-endian base-8 digits, every atom but
/// the last marked to continue. Zero takes one atom.
pub open spec fn atoms(n: nat) -> Seq<u8> {
    chunks_c(n / 8) + seq![(n % 8 * 2) as u8]
}

// --- per-object length field and payload ---

/// The integer written to the lengths section for one object: byte counts
/// for strings and integers (+16 for unsigned), `(count << 1) | is_list`
/// for collections, and a sub-type discriminator for the fixed class.
pub open spec fn lenval(v: SpecVal) -> nat {
    match v {
        SpecVal::Str(s) => s.len(),
        SpecVal::Bytes(b) => b.len(),
        SpecVal::Dict(ps) => 2 * ps.len(),
        SpecVal::List(es) => 2 * es.len() + 1,
        SpecVal::SInt(i) => sint_bytes(i).len(),
        SpecVal::UInt(u) => uint_bytes(u as nat).len() + 16,
        SpecVal::Float32(_) => 33,
        SpecVal::Float64(_) => 34,
        SpecVal::Null => 35,
        SpecVal::Bool(b) => if b { 37 } else { 36 },
        SpecVal::Timestamp32(_) => 38,
        SpecVal::UserDefined(id, _) => id as nat,
    }
}

/// A 32-bit value as 4 big-endian bytes.
pub open spec fn be32(x: u32) -> Seq<u8> {
    seq![
        (x / 0x1000000 % 256) as u8,
        (x / 0x10000 % 256) as u8,
        (x / 0x100 % 256) as u8,
        (x % 256) as u8,
    ]
}

/// A 64-bit value as 8 big-endian bytes.
pub open spec fn be64(x: u64) -> Seq<u8> {
    seq![
        (x / 0x100000000000000 % 256) as u8,
        (x / 0x1000000000000 % 256) as u8,
        (x / 0x10000000000 % 256) as u8,
        (x / 0x100000000 % 256) as u8,
        (x / 0x1000000 % 256) as u8,
        (x / 0x10000 % 256) as u8,
        (x / 0x100 % 256) as u8,
        (x % 256) as u8,
    ]
}

/// The payload bytes of one scalar object; collections, null and booleans
/// carry none of their own.
pub open spec fn payload(v: SpecVal) -> Seq<u8> {
    match v {
        SpecVal::Str(s) => s,
        SpecVal::Bytes(b) => b,
        SpecVal::SInt(i) => sint_bytes(i),
        SpecVal::UInt(u) => uint_bytes(u as nat),
        SpecVal::Float32(x) => be32(x),
        SpecVal::Float64(x) => be64(x),
        SpecVal::Timestamp32(t) => be32(t),
        SpecVal::UserDefined(_, d) => d,
        _ => Seq::empty(),
    }
}

// --- the three streams of a (non-root) value, depth first ---

/// Classes of the visible objects under `v`: map keys contribute none.
pub open spec fn cls_of(v: SpecVal) -> Seq<u8>
    decreases v,
{
    match v {
        SpecVal::Dict(ps) => seq![2u8] + cls_of_pairs(ps),
        SpecVal::List(es) => seq![2u8] + cls_of_list(es),
        _ => seq![class_of(v)],
    }
}

pub open spec fn cls_of_pairs(ps: Seq<(SpecVal, SpecVal)>) -> Seq<u8>
    decreases ps,
{
    if ps.len() == 0 {
        Seq::empty()
    } else {
        cls_of(ps[0].1) + cls_of_pairs(ps.subrange(1, ps.len() as int))
    }
}

pub open spec fn cls_of_list(es: Seq<SpecVal>) -> Seq<u8>
    decreases es,
{
    if es.len() == 0 {
        Seq::empty()
    } else {
        cls_of(es[0]) + cls_of_list(es.subrange(1, es.len() as int))
    }
}

/// Length atoms of every object under `v`, keys included.
pub open spec fn ats_of(v: SpecVal) -> Seq<u8>
    decreases v,
{
    match v {
        SpecVal::Dict(ps) => atoms(2 * ps.len()) + ats_of_pairs(ps),
        SpecVal::List(es) => atoms(2 * es.len() + 1) + ats_of_list(es),
        _ => atoms(lenval(v)),
    }
}

pub open spec fn ats_of_pairs(ps: Seq<(SpecVal, SpecVal)>) -> Seq<u8>
    decreases ps,
{
    if ps.len() == 0 {
        Seq::empty()
    } else {
        atoms(lenval(ps[0].0)) + ats_of(ps[0].1) + ats_of_pairs(ps.subrange(1, ps.len() as int))
    }
}

pub open spec fn ats_of_list(es: Seq<SpecVal>) -> Seq<u8>
    decreases es,
{
    if es.len() == 0 {
        Seq::empty()
    } else {
        ats_of(es[0]) + ats_of_list(es.subrange(1, es.len() as int))
    }
}

/// Payload bytes of every object under `v`, keys included.
pub open spec fn pay_of(v: SpecVal) -> Seq<u8>
    decreases v,
{
    match v {
        SpecVal::Dict(ps) => pay_of_pairs(ps),
        SpecVal::List(es) => pay_of_list(es),
        _ => payload(v),
    }
}

pub open spec fn pay_of_pairs(ps: Seq<(SpecVal, SpecVal)>) -> Seq<u8>
    decreases ps,
{
    if ps.len() == 0 {
        Seq::empty()
    } else {
        payload(ps[0].0) + pay_of(ps[0].1) + pay_of_pairs(ps.subrange(1, ps.len() as int))
    }
}

pub open spec fn pay_of_list(es: Seq<SpecVal>) -> Seq<u8>
    decreases es,
{
    if es.len() == 0 {
        Seq::empty()
    } else {
        pay_of(es[0]) + pay_of_list(es.subrange(1, es.len() as int))
    }
}

// --- the streams of a whole message: the root collection emits no record
// of its own; the classes header carries the root-is-map flag instead ---

pub open spec fn root_cls(v: SpecVal) -> Seq<u8> {
    match v {
        SpecVal::Dict(ps) => cls_of_pairs(ps),
        SpecVal::List(es) => cls_of_list(es),
        _ => Seq::empty(),
    }
}

pub open spec fn root_ats(v: SpecVal) -> Seq<u8> {
    match v {
        SpecVal::Dict(ps) => ats_of_pairs(ps),
        SpecVal::List(es) => ats_of_list(es),
        _ => Seq::empty(),
    }
}

pub open spec fn root_pay(v: SpecVal) -> Seq<u8> {
    match v {
        SpecVal::Dict(ps) => pay_of_pairs(ps),
        SpecVal::List(es) => pay_of_list(es),
        _ => Seq::empty(),
    }
}

// --- packing the classes section ---

/// The continuation field written beside a group: how many classes follow,
/// clamped to 3.
pub open spec fn clamp3(n: nat) -> u8 {
    if n >= 3 {
        3
    } else {
        n as u8
    }
}

/// Classes after the first two, packed three per byte, each byte ending in
/// the continuation for the next.
pub open spec fn pack_rest(cs: Seq<u8>) -> Seq<u8>
    decreases cs.len(),
{
    if cs.len() == 0 {
        Seq::empty()
    } else if cs.len() == 1 {
        seq![(cs[0] * 64) as u8]
    } else if cs.len() == 2 {
        seq![(cs[0] * 64 + cs[1] * 16) as u8]
    } else {
        seq![(cs[0] * 64 + cs[1] * 16 + cs[2] * 4 + clamp3((cs.len() - 3) as nat)) as u8]
            + pack_rest(cs.subrange(3, cs.len() as int))
    }
}

/// The packed classes section. The first byte is `(flags, c0, c1, k)` in
/// 2-bit fields; an empty class list is the reserved empty-collection
/// marker `0x4c` (map) / `0x0c` (list).
pub open spec fn pack_classes(cs: Seq<u8>, is_root_map: bool) -> Seq<u8> {
    let mb: u8 = if is_root_map { 1 } else { 0 };
    if cs.len() == 0 {
        seq![(mb * 64 + 12) as u8]
    } else if cs.len() == 1 {
        seq![(mb * 64 + cs[0] * 16) as u8]
    } else {
        seq![((2 + mb) * 64 + cs[0] * 16 + cs[1] * 4 + clamp3((cs.len() - 2) as nat)) as u8]
            + pack_rest(cs.subrange(2, cs.len() as int))
    }
}

// --- packing the lengths section ---

/// Atoms paired two per byte, high nibble first; an odd tail pads the low
/// nibble with zero.
pub open spec fn pack_nibbles(ns: Seq<u8>) -> Seq<u8>
    decreases ns.len(),
{
    if ns.len() == 0 {
        Seq::empty()
    } else if ns.len() == 1 {
        seq![(ns[0] * 16) as u8]
    } else {
        seq![(ns[0] * 16 + ns[1]) as u8] + pack_nibbles(ns.subrange(2, ns.len() as int))
    }
}

/// The encoded form of a whole message.
pub open spec fn spec_encode(v: SpecVal) -> Seq<u8> {
    pack_classes(root_cls(v), v is Dict) + pack_nibbles(root_ats(v)) + root_pay(v)
}

} // verus!

// ------------------------------------------------------------------
// Bounds of the streams: classes are 2-bit, atoms are 4-bit.
// ------------------------------------------------------------------

verus! {

/// Every entry of `s` is below `b`.
pub open spec fn bytes_lt(s: Seq<u8>, b: u8) -> bool {
    forall|k: int| 0 <= k < s.len() ==> s[k] < b
}

proof fn lemma_chunks_c_bounded(n: nat)
    ensures
        bytes_lt(chunks_c(n), 16),
    decreases n,
{
    if n > 0 {
        lemma_chunks_c_bounded(n / 8);
    }
}

pub proof fn lemma_atoms_bounded(n: nat)
    ensures
        bytes_lt(atoms(n), 16),
{
    lemma_chunks_c_bounded(n / 8);
}

pub proof fn lemma_cls_of_bounded(v: SpecVal)
    ensures
        bytes_lt(cls_of(v), 4),
    decreases v,
{
    match v {
        SpecVal::Dict(ps) => lemma_cls_of_pairs_bounded(ps),
        SpecVal::List(es) => lemma_cls_of_list_bounded(es),
        _ => {},
    }
}

pub proof fn lemma_cls_of_pairs_bounded(ps: Seq<(SpecVal, SpecVal)>)
    ensures
        bytes_lt(cls_of_pairs(ps), 4),
    decreases ps,
{
    if ps.len() > 0 {
        lemma_cls_of_bounded(ps[0].1);
        lemma_cls_of_pairs_bounded(ps.subrange(1, ps.len() as int));
    }
}

pub proof fn lemma_cls_of_list_bounded(es: Seq<SpecVal>)
    ensures
        bytes_lt(cls_of_list(es), 4),
    decreases es,
{
    if es.len() > 0 {
        lemma_cls_of_bounded(es[0]);
        lemma_cls_of_list_bounded(es.subrange(1, es.len() as int));
    }
}

pub proof fn lemma_ats_of_bounded(v: SpecVal)
    ensures
        bytes_lt(ats_of(v), 16),
    decreases v,
{
    match v {
        SpecVal::Dict(ps) => {
            lemma_atoms_bounded(2 * ps.len());
            lemma_ats_of_pairs_bounded(ps);
        },
        SpecVal::List(es) => {
            lemma_atoms_bounded(2 * es.len() + 1);
            lemma_ats_of_list_bounded(es);
        },
        _ => lemma_atoms_bounded(lenval(v)),
    }
}

pub proof fn lemma_ats_of_pairs_bounded(ps: Seq<(SpecVal, SpecVal)>)
    ensures
        bytes_lt(ats_of_pairs(ps), 16),
    decreases ps,
{
    if ps.len() > 0 {
        lemma_atoms_bounded(lenval(ps[0].0));
        lemma_ats_of_bounded(ps[0].1);
        lemma_ats_of_pairs_bounded(ps.subrange(1, ps.len() as int));
    }
}

pub proof fn lemma_ats_of_list_bounded(es: Seq<SpecVal>)
    ensures
        bytes_lt(ats_of_list(es), 16),
    decreases es,
{
    if es.len() > 0 {
        lemma_ats_of_bounded(es[0]);
        lemma_ats_of_list_bounded(es.subrange(1, es.len() as int));
    }
}

// ------------------------------------------------------------------
// Executable helpers.
// ------------------------------------------------------------------

/// Appends a copy of `src` to `dst`.
fn push_bytes(dst: &mut Vec<u8>, src: &Vec<u8>)
    ensures
        final(dst)@ == old(dst)@ + src@,
{
    let mut i: usize = 0;
    while i < src.len()
        invariant
            0 <= i <= src@.len(),
            dst@ == old(dst)@ + src@.take(i as int),
        decreases src@.len() - i,
    {
        dst.push(src[i]);
        proof {
            assert(old(dst)@ + src@.take(i as int) + seq![src@[i as int]] =~= old(dst)@
                + src@.take(i + 1));
        }
        i = i + 1;
    }
    proof {
        assert(src@.take(src@.len() as int) =~= src@);
    }
}

/// Appends a 32-bit value as 4 big-endian bytes.
fn push_be32(dst: &mut Vec<u8>, x: u32)
    ensures
        final(dst)@ == old(dst)@ + be32(x),
{
    dst.push((x / 0x1000000 % 256) as u8);
    dst.push((x / 0x10000 % 256) as u8);
    dst.push((x / 0x100 % 256) as u8);
    dst.push((x % 256) as u8);
    proof {
        assert(dst@ =~= old(dst)@ + be32(x));
    }
}

/// Appends a 64-bit value as 8 big-endian bytes.
fn push_be64(dst: &mut Vec<u8>, x: u64)
    ensures
        final(dst)@ == old(dst)@ + be64(x),
{
    dst.push((x / 0x100000000000000 % 256) as u8);
    dst.push((x / 0x1000000000000 % 256) as u8);
    dst.push((x / 0x10000000000 % 256) as u8);
    dst.push((x / 0x100000000 % 256) as u8);
    dst.push((x / 0x1000000 % 256) as u8);
    dst.push((x / 0x10000 % 256) as u8);
    dst.push((x / 0x100 % 256) as u8);
    dst.push((x % 256) as u8);
    proof {
        assert(dst@ =~= old(dst)@ + be64(x));
    }
}

fn push_chunks_c(n: usize, nibs: &mut Vec<u8>)
    ensures
        final(nibs)@ == old(nibs)@ + chunks_c(n as nat),
    decreases n,
{
    if n > 0 {
        push_chunks_c(n / 8, nibs);
        nibs.push((n % 8 * 2 + 1) as u8);
        proof {
            assert(nibs@ =~= old(nibs)@ + chunks_c(n as nat));
        }
    } else {
        proof {
            assert(nibs@ =~= old(nibs)@ + chunks_c(0));
        }
    }
}

/// Appends the length atoms of one length value.
fn push_atoms(n: usize, nibs: &mut Vec<u8>)
    ensures
        final(nibs)@ == old(nibs)@ + atoms(n as nat),
{
    push_chunks_c(n / 8, nibs);
    nibs.push((n % 8 * 2) as u8);
    proof {
        assert(nibs@ =~= old(nibs)@ + atoms(n as nat));
    }
}

/// Joins four 2-bit fields into one byte, first field highest.
pub fn classes_join(a: u8, b: u8, c: u8, d: u8) -> (r: u8)
    requires
        a < 4,
        b < 4,
        c < 4,
        d < 4,
    ensures
        r == a * 64 + b * 16 + c * 4 + d,
{
    a * 64 + b * 16 + c * 4 + d
}

/// Writes the packed classes section for the given visible-object classes.
pub fn write_classes_section(classes: &Vec<u8>, data: &mut Vec<u8>, is_root_map: bool)
    requires
        bytes_lt(classes@, 4),
    ensures
        final(data)@ == old(data)@ + pack_classes(classes@, is_root_map),
{
    let len = classes.len();
    let mb: u8 = if is_root_map {
        1
    } else {
        0
    };
    if len == 0 {
        data.push(mb * 64 + 12);
        proof {
            assert(data@ =~= old(data)@ + pack_classes(classes@, is_root_map));
        }
        return ;
    }
    if len == 1 {
        data.push(classes_join(mb, classes[0], 0, 0));
        proof {
            assert(data@ =~= old(data)@ + pack_classes(classes@, is_root_map));
        }
        return ;
    }
    let k0: u8 = if len - 2 >= 3 {
        3
    } else {
        (len - 2) as u8
    };
    data.push(classes_join(2 + mb, classes[0], classes[1], k0));
    let mut i: usize = 2;
    proof {
        assert(old(data)@ + pack_classes(classes@, is_root_map) =~= data@ + pack_rest(
            classes@.skip(2),
        ));
    }
    while i < len
        invariant
            2 <= i <= len,
            len == classes@.len(),
            bytes_lt(classes@, 4),
            old(data)@ + pack_classes(classes@, is_root_map) == data@ + pack_rest(
                classes@.skip(i as int),
            ),
        decreases len - i,
    {
        let ghost pre = data@;
        let ghost tail = classes@.skip(i as int);
        let rem = len - i;
        if rem == 1 {
            data.push(classes_join(classes[i], 0, 0, 0));
            proof {
                assert(pre + pack_rest(tail) =~= data@ + pack_rest(classes@.skip(i + 1)));
            }
            i = i + 1;
        } else if rem == 2 {
            data.push(classes_join(classes[i], classes[i + 1], 0, 0));
            proof {
                assert(pre + pack_rest(tail) =~= data@ + pack_rest(classes@.skip(i + 2)));
            }
            i = i + 2;
        } else {
            let k: u8 = if rem - 3 >= 3 {
                3
            } else {
                (rem - 3) as u8
            };
            data.push(classes_join(classes[i], classes[i + 1], classes[i + 2], k));
            proof {
                assert(tail.subrange(3, tail.len() as int) =~= classes@.skip(i + 3));
                assert(pre + pack_rest(tail) =~= data@ + pack_rest(classes@.skip(i + 3)));
            }
            i = i + 3;
        }
    }
    proof {
        assert(classes@.skip(len as int) =~= Seq::<u8>::empty());
        assert(data@ + pack_rest(classes@.skip(len as int)) =~= data@);
    }
}

/// Writes the packed lengths section: atoms two per byte, high nibble first,
/// an odd tail padded with a zero nibble.
pub fn write_lengths_section(nibs: &Vec<u8>, data: &mut Vec<u8>)
    requires
        bytes_lt(nibs@, 16),
    ensures
        final(data)@ == old(data)@ + pack_nibbles(nibs@),
{
    let len = nibs.len();
    let mut i: usize = 0;
    proof {
        assert(nibs@.skip(0) =~= nibs@);
    }
    while i < len
        invariant
            0 <= i <= len,
            len == nibs@.len(),
            bytes_lt(nibs@, 16),
            old(data)@ + pack_nibbles(nibs@) == data@ + pack_nibbles(nibs@.skip(i as int)),
        decreases len - i,
    {
        let ghost pre = data@;
        let ghost tail = nibs@.skip(i as int);
        if len - i == 1 {
            data.push(nibs[i] * 16);
            proof {
                assert(pre + pack_nibbles(tail) =~= data@ + pack_nibbles(nibs@.skip(i + 1)));
            }
            i = i + 1;
        } else {
            data.push(nibs[i] * 16 + nibs[i + 1]);
            proof {
                assert(tail.subrange(2, tail.len() as int) =~= nibs@.skip(i + 2));
                assert(pre + pack_nibbles(tail) =~= data@ + pack_nibbles(nibs@.skip(i + 2)));
            }
            i = i + 2;
        }
    }
    proof {
        assert(nibs@.skip(len as int) =~= Seq::<u8>::empty());
        assert(data@ + pack_nibbles(nibs@.skip(len as int)) =~= data@);
        assert(pack_nibbles(nibs@.skip(0)) == pack_nibbles(nibs@)) by {
            assert(nibs@.skip(0) =~= nibs@);
        }
    }
}

} // verus!

// ------------------------------------------------------------------
// The encoder: one depth-first pass fills the three raw streams, then
// the packers lay them down as bytes.
// ------------------------------------------------------------------

verus! {

use crate::object::{
    check_utf8, deep_view_list, deep_view_pairs, encodable, encodable_root,
    lemma_deep_view_list_index, lemma_deep_view_pairs_index, list_encodable, pairs_encodable,
    Error, Object, Value,
};

/// The error the encoder reports for an unencodable value: classified by
/// the first failure in traversal order.
pub open spec fn value_err(v: SpecVal) -> Error
    decreases v,
{
    match v {
        SpecVal::Str(_) => Error::InvalidUtf8,
        SpecVal::UserDefined(id, _) => if id < 39 {
            Error::InvalidDiscriminator
        } else {
            Error::StructuralError
        },
        SpecVal::Dict(ps) => if ps.len() > usize::MAX / 2 {
            Error::StructuralError
        } else {
            pairs_err(ps)
        },
        SpecVal::List(es) => if es.len() > usize::MAX / 2 {
            Error::StructuralError
        } else {
            list_err(es)
        },
        _ => Error::StructuralError,
    }
}

/// The error of the first unencodable map entry: a non-string key, a key
/// that is not UTF-8, or the value's own first failure.
pub open spec fn pairs_err(ps: Seq<(SpecVal, SpecVal)>) -> Error
    decreases ps,
{
    if ps.len() == 0 {
        Error::StructuralError
    } else if !(ps[0].0 is Str) {
        Error::StructuralError
    } else if !encodable(ps[0].0) {
        Error::InvalidUtf8
    } else if !encodable(ps[0].1) {
        value_err(ps[0].1)
    } else {
        pairs_err(ps.subrange(1, ps.len() as int))
    }
}

/// The error of the first unencodable list element.
pub open spec fn list_err(es: Seq<SpecVal>) -> Error
    decreases es,
{
    if es.len() == 0 {
        Error::StructuralError
    } else if !encodable(es[0]) {
        value_err(es[0])
    } else {
        list_err(es.subrange(1, es.len() as int))
    }
}

/// The error `headpack_encode` reports for an unencodable message: a root
/// that is no collection is structural; otherwise the tree's first failure.
pub open spec fn root_err(v: SpecVal) -> Error {
    if v is Dict || v is List {
        value_err(v)
    } else {
        Error::StructuralError
    }
}

/// Emits one (non-root) value: its class, its length atoms and its payload,
/// and those of everything under it.
#[verifier::rlimit(80)]
fn emit_value(v: &Value, cls: &mut Vec<u8>, nibs: &mut Vec<u8>, pay: &mut Vec<u8>) -> (r: Result<
    (),
    Error,
>)
    ensures
        r is Ok ==> encodable(v.deep_view()) && final(cls)@ == old(cls)@ + cls_of(v.deep_view())
            && final(nibs)@ == old(nibs)@ + ats_of(v.deep_view()) && final(pay)@ == old(pay)@
            + pay_of(v.deep_view()),
        r is Err ==> !encodable(v.deep_view()) && r->Err_0 == value_err(v.deep_view()),
    decreases v,
{
    match v {
        Value::String(s) => {
            if !check_utf8(s) {
                return Err(Error::InvalidUtf8);
            }
            cls.push(0);
            push_atoms(s.len(), nibs);
            push_bytes(pay, s);
            proof {
                assert(cls@ =~= old(cls)@ + cls_of(v.deep_view()));
            }
            Ok(())
        },
        Value::Bytes(b) => {
            cls.push(1);
            push_atoms(b.len(), nibs);
            push_bytes(pay, b);
            proof {
                assert(cls@ =~= old(cls)@ + cls_of(v.deep_view()));
            }
            Ok(())
        },
        Value::SInt(i) => {
            cls.push(3);
            let sb = sint_to_bytes(*i);
            push_atoms(sb.len(), nibs);
            push_bytes(pay, &sb);
            proof {
                assert(cls@ =~= old(cls)@ + cls_of(v.deep_view()));
            }
            Ok(())
        },
        Value::UInt(u) => {
            if *u == 0 {
                return Err(Error::StructuralError);
            }
            cls.push(3);
            let ub = uint_to_bytes(*u);
            proof {
                lemma_u128_round_trip(*u);
            }
            push_atoms(ub.len() + 16, nibs);
            push_bytes(pay, &ub);
            proof {
                assert(cls@ =~= old(cls)@ + cls_of(v.deep_view()));
            }
            Ok(())
        },
        Value::Float32(x) => {
            cls.push(3);
            push_atoms(33, nibs);
            push_be32(pay, *x);
            proof {
                assert(cls@ =~= old(cls)@ + cls_of(v.deep_view()));
            }
            Ok(())
        },
        Value::Float64(x) => {
            cls.push(3);
            push_atoms(34, nibs);
            push_be64(pay, *x);
            proof {
                assert(cls@ =~= old(cls)@ + cls_of(v.deep_view()));
            }
            Ok(())
        },
        Value::Null => {
            cls.push(3);
            push_atoms(35, nibs);
            proof {
                assert(cls@ =~= old(cls)@ + cls_of(v.deep_view()));
                assert(pay@ =~= old(pay)@ + pay_of(v.deep_view()));
            }
            Ok(())
        },
        Value::Bool(b) => {
            cls.push(3);
            push_atoms(if *b { 37 } else { 36 }, nibs);
            proof {
                assert(cls@ =~= old(cls)@ + cls_of(v.deep_view()));
                assert(pay@ =~= old(pay)@ + pay_of(v.deep_view()));
            }
            Ok(())
        },
        Value::Timestamp32(t) => {
            cls.push(3);
            push_atoms(38, nibs);
            push_be32(pay, *t);
            proof {
                assert(cls@ =~= old(cls)@ + cls_of(v.deep_view()));
            }
            Ok(())
        },
        Value::UserDefined { id, data } => {
            if *id < 39 {
                return Err(Error::InvalidDiscriminator);
            }
            if data.len() != *id as usize {
                return Err(Error::StructuralError);
            }
            cls.push(3);
            push_atoms(*id as usize, nibs);
            push_bytes(pay, data);
            proof {
                assert(cls@ =~= old(cls)@ + cls_of(v.deep_view()));
            }
            Ok(())
        },
        Value::Dict(ps) => {
            if ps.len() > usize::MAX / 2 {
                proof {
                    lemma_deep_view_pairs_index(ps@);
                }
                return Err(Error::StructuralError);
            }
            cls.push(2);
            push_atoms(ps.len() * 2, nibs);
            let ghost cls0 = cls@;
            let ghost nibs0 = nibs@;
            let ghost pay0 = pay@;
            let r = emit_pairs(ps, cls, nibs, pay);
            match r {
                Ok(()) => {
                    proof {
                        lemma_deep_view_pairs_index(ps@);
                        assert(cls@ =~= old(cls)@ + cls_of(v.deep_view()));
                        assert(nibs@ =~= old(nibs)@ + ats_of(v.deep_view()));
                        assert(pay@ =~= old(pay)@ + pay_of(v.deep_view()));
                    }
                    Ok(())
                },
                Err(e) => {
                    proof {
                        lemma_deep_view_pairs_index(ps@);
                    }
                    Err(e)
                },
            }
        },
        Value::List(es) => {
            if es.len() > usize::MAX / 2 {
                proof {
                    lemma_deep_view_list_index(es@);
                }
                return Err(Error::StructuralError);
            }
            cls.push(2);
            push_atoms(es.len() * 2 + 1, nibs);
            let r = emit_list(es, cls, nibs, pay);
            match r {
                Ok(()) => {
                    proof {
                        lemma_deep_view_list_index(es@);
                        assert(cls@ =~= old(cls)@ + cls_of(v.deep_view()));
                        assert(nibs@ =~= old(nibs)@ + ats_of(v.deep_view()));
                        assert(pay@ =~= old(pay)@ + pay_of(v.deep_view()));
                    }
                    Ok(())
                },
                Err(e) => {
                    proof {
                        lemma_deep_view_list_index(es@);
                    }
                    Err(e)
                },
            }
        },
    }
}

/// Emits the body of a map: for each entry the key's length atoms and bytes,
/// then the value.
fn emit_pairs(ps: &Vec<(Object, Object)>, cls: &mut Vec<u8>, nibs: &mut Vec<u8>, pay: &mut Vec<
    u8,
>) -> (r: Result<(), Error>)
    ensures
        r is Ok ==> pairs_encodable(deep_view_pairs(ps@)) && final(cls)@ == old(cls)@
            + cls_of_pairs(deep_view_pairs(ps@)) && final(nibs)@ == old(nibs)@ + ats_of_pairs(
            deep_view_pairs(ps@),
        ) && final(pay)@ == old(pay)@ + pay_of_pairs(deep_view_pairs(ps@)),
        r is Err ==> !pairs_encodable(deep_view_pairs(ps@)) && r->Err_0 == pairs_err(
            deep_view_pairs(ps@),
        ),
    decreases ps,
{
    let ghost sp = deep_view_pairs(ps@);
    proof {
        lemma_deep_view_pairs_index(ps@);
        assert(sp.skip(0) =~= sp);
    }
    let mut i: usize = 0;
    while i < ps.len()
        invariant
            0 <= i <= ps@.len(),
            sp == deep_view_pairs(ps@),
            sp.len() == ps@.len(),
            forall|k: int|
                0 <= k < ps@.len() ==> #[trigger] sp[k] == (
                    ps@[k].0.value.deep_view(),
                    ps@[k].1.value.deep_view(),
                ),
            forall|k: int|
                0 <= k < i ==> (#[trigger] sp[k]).0 is Str && encodable(sp[k].0) && encodable(
                    sp[k].1,
                ),
            pairs_err(sp) == pairs_err(sp.skip(i as int)),
            cls@ + cls_of_pairs(sp.skip(i as int)) == old(cls)@ + cls_of_pairs(sp),
            nibs@ + ats_of_pairs(sp.skip(i as int)) == old(nibs)@ + ats_of_pairs(sp),
            pay@ + pay_of_pairs(sp.skip(i as int)) == old(pay)@ + pay_of_pairs(sp),
        decreases ps@.len() - i,
    {
        let ghost cls_p = cls@;
        let ghost nibs_p = nibs@;
        let ghost pay_p = pay@;
        let ghost tail = sp.skip(i as int);
        let pair = &ps[i];
        match &pair.0.value {
            Value::String(ks) => {
                if !check_utf8(ks) {
                    proof {
                        assert(!encodable(sp[i as int].0));
                    }
                    return Err(Error::InvalidUtf8);
                }
                proof {
                    assert(ks.len() == ks@.len());
                }
                push_atoms(ks.len(), nibs);
                push_bytes(pay, ks);
            },
            _ => {
                proof {
                    assert(!(sp[i as int].0 is Str));
                }
                return Err(Error::StructuralError);
            },
        }
        let r = emit_value(&pair.1.value, cls, nibs, pay);
        match r {
            Err(e) => {
                proof {
                    assert(!(sp[i as int].0 is Str && encodable(sp[i as int].1)));
                }
                return Err(e);
            },
            Ok(()) => {},
        }
        proof {
            assert(tail.subrange(1, tail.len() as int) =~= sp.skip(i + 1));
            assert(cls_p + cls_of_pairs(tail) =~= cls@ + cls_of_pairs(sp.skip(i + 1)));
            assert(nibs_p + ats_of_pairs(tail) =~= nibs@ + ats_of_pairs(sp.skip(i + 1)));
            assert(pay_p + pay_of_pairs(tail) =~= pay@ + pay_of_pairs(sp.skip(i + 1)));
        }
        i = i + 1;
    }
    proof {
        assert(sp.skip(sp.len() as int) =~= Seq::<(SpecVal, SpecVal)>::empty());
        assert(cls@ + cls_of_pairs(sp.skip(sp.len() as int)) =~= cls@);
        assert(nibs@ + ats_of_pairs(sp.skip(sp.len() as int)) =~= nibs@);
        assert(pay@ + pay_of_pairs(sp.skip(sp.len() as int)) =~= pay@);
    }
    Ok(())
}

/// Emits the body of a list: each element in order.
fn emit_list(es: &Vec<Object>, cls: &mut Vec<u8>, nibs: &mut Vec<u8>, pay: &mut Vec<u8>) -> (r:
    Result<(), Error>)
    ensures
        r is Ok ==> list_encodable(deep_view_list(es@)) && final(cls)@ == old(cls)@ + cls_of_list(
            deep_view_list(es@),
        ) && final(nibs)@ == old(nibs)@ + ats_of_list(deep_view_list(es@)) && final(pay)@ == old(
            pay,
        )@ + pay_of_list(deep_view_list(es@)),
        r is Err ==> !list_encodable(deep_view_list(es@)) && r->Err_0 == list_err(
            deep_view_list(es@),
        ),
    decreases es,
{
    let ghost se = deep_view_list(es@);
    proof {
        lemma_deep_view_list_index(es@);
        assert(se.skip(0) =~= se);
    }
    let mut i: usize = 0;
    while i < es.len()
        invariant
            0 <= i <= es@.len(),
            se == deep_view_list(es@),
            se.len() == es@.len(),
            forall|k: int|
                0 <= k < es@.len() ==> #[trigger] se[k] == es@[k].value.deep_view(),
            forall|k: int| 0 <= k < i ==> encodable(#[trigger] se[k]),
            list_err(se) == list_err(se.skip(i as int)),
            cls@ + cls_of_list(se.skip(i as int)) == old(cls)@ + cls_of_list(se),
            nibs@ + ats_of_list(se.skip(i as int)) == old(nibs)@ + ats_of_list(se),
            pay@ + pay_of_list(se.skip(i as int)) == old(pay)@ + pay_of_list(se),
        decreases es@.len() - i,
    {
        let ghost cls_p = cls@;
        let ghost nibs_p = nibs@;
        let ghost pay_p = pay@;
        let ghost tail = se.skip(i as int);
        let element = &es[i];
        let r = emit_value(&element.value, cls, nibs, pay);
        match r {
            Err(e) => {
                return Err(e);
            },
            Ok(()) => {},
        }
        proof {
            assert(tail.subrange(1, tail.len() as int) =~= se.skip(i + 1));
            assert(cls_p + cls_of_list(tail) =~= cls@ + cls_of_list(se.skip(i + 1)));
            assert(nibs_p + ats_of_list(tail) =~= nibs@ + ats_of_list(se.skip(i + 1)));
            assert(pay_p + pay_of_list(tail) =~= pay@ + pay_of_list(se.skip(i + 1)));
        }
        i = i + 1;
    }
    proof {
        assert(se.skip(se.len() as int) =~= Seq::<SpecVal>::empty());
        assert(cls@ + cls_of_list(se.skip(se.len() as int)) =~= cls@);
        assert(nibs@ + ats_of_list(se.skip(se.len() as int)) =~= nibs@);
        assert(pay@ + pay_of_list(se.skip(se.len() as int)) =~= pay@);
    }
    Ok(())
}

/// Encodes a whole message. The root must be a map or a list; its own record
/// is never emitted — the classes header carries the root-is-map flag, and an
/// empty root packs to the reserved one-byte marker. On an unencodable tree
/// the error names the first failure in traversal order.
pub fn headpack_encode(root: Object) -> (r: Result<Vec<u8>, Error>)
    ensures
        match r {
            Ok(buf) => encodable_root(root@) && buf@ == spec_encode(root@),
            Err(e) => !encodable_root(root@) && e == root_err(root@),
        },
{
    let mut cls: Vec<u8> = Vec::new();
    let mut nibs: Vec<u8> = Vec::new();
    let mut pay: Vec<u8> = Vec::new();
    let is_root_map: bool;
    match &root.value {
        Value::Dict(ps) => {
            is_root_map = true;
            if ps.len() > usize::MAX / 2 {
                proof {
                    lemma_deep_view_pairs_index(ps@);
                }
                return Err(Error::StructuralError);
            }
            match emit_pairs(ps, &mut cls, &mut nibs, &mut pay) {
                Err(e) => {
                    proof {
                        lemma_deep_view_pairs_index(ps@);
                    }
                    return Err(e);
                },
                Ok(()) => {},
            }
            proof {
                lemma_deep_view_pairs_index(ps@);
                lemma_cls_of_pairs_bounded(deep_view_pairs(ps@));
                lemma_ats_of_pairs_bounded(deep_view_pairs(ps@));
            }
        },
        Value::List(es) => {
            is_root_map = false;
            if es.len() > usize::MAX / 2 {
                proof {
                    lemma_deep_view_list_index(es@);
                }
                return Err(Error::StructuralError);
            }
            match emit_list(es, &mut cls, &mut nibs, &mut pay) {
                Err(e) => {
                    proof {
                        lemma_deep_view_list_index(es@);
                    }
                    return Err(e);
                },
                Ok(()) => {},
            }
            proof {
                lemma_deep_view_list_index(es@);
                lemma_cls_of_list_bounded(deep_view_list(es@));
                lemma_ats_of_list_bounded(deep_view_list(es@));
            }
        },
        _ => {
            return Err(Error::StructuralError);
        },
    }
    let mut buf: Vec<u8> = Vec::new();
    write_classes_section(&cls, &mut buf, is_root_map);
    write_lengths_section(&nibs, &mut buf);
    push_bytes(&mut buf, &pay);
    proof {
        assert(buf@ =~= spec_encode(root@));
    }
    Ok(buf)
}

/// Law: the empty map encodes as the single byte 0x4c and the empty list as
/// the single byte 0x0c.
pub proof fn lemma_empty_markers()
    ensures
        spec_encode(SpecVal::Dict(Seq::empty())) == seq![0x4cu8],
        spec_encode(SpecVal::List(Seq::empty())) == seq![0x0cu8],
{
    assert(spec_encode(SpecVal::Dict(Seq::empty())) =~= seq![0x4cu8]);
    assert(spec_encode(SpecVal::List(Seq::empty())) =~= seq![0x0cu8]);
}

} // verus!
