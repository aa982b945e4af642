use crate::decode::{
    build_fixed, build_list_n, build_obj, build_pairs_n, build_top_list, build_top_map,
    classes_split_spec, nibble_at, spec_classes, spec_decode, spec_read_len, spec_unrest,
    u32_be_val, u64_be_val, walk_children, walk_obj, walk_top,
};
use crate::encode::{
    ats_of, ats_of_list, ats_of_pairs, atoms, be32, be64, bytes_lt, chunks_c, clamp3, cls_of,
    cls_of_list, cls_of_pairs, lemma_ats_of_list_bounded, lemma_ats_of_pairs_bounded,
    lemma_cls_of_list_bounded, lemma_cls_of_pairs_bounded, lemma_sint_round_trip,
    lemma_u128_round_trip, lenval, pack_classes, pack_nibbles, pack_rest, pay_of, pay_of_list,
    pay_of_pairs, payload, root_ats, root_cls, root_pay, spec_encode, uint_bytes,
};
use crate::object::{
    class_of, encodable, encodable_root, list_encodable, pairs_encodable, Error, SpecVal,
};
use vstd::prelude::*;

verus! {

// ------------------------------------------------------------------
// Round trip, part one: each packed section reads back as what was
// packed, wherever it stands in the buffer.
// ------------------------------------------------------------------

/// Splitting a joined classes byte gives the four fields back.
proof fn lemma_split_join(a: u8, b: u8, c: u8, d: u8)
    requires
        a < 4,
        b < 4,
        c < 4,
        d < 4,
    ensures
        classes_split_spec((a * 64 + b * 16 + c * 4 + d) as u8) == (a, b, c, d),
{
    let byte: u8 = (a * 64 + b * 16 + c * 4 + d) as u8;
    assert(byte / 64 == a && byte / 16 % 4 == b && byte / 4 % 4 == c && byte % 4 == d)
        by (nonlinear_arith)
        requires
            a < 4,
            b < 4,
            c < 4,
            d < 4,
            byte == a * 64 + b * 16 + c * 4 + d,
    ;
}

/// Reading packed classes back, after the first byte's two.
proof fn lemma_unrest_pack(cs: Seq<u8>, buf: Seq<u8>, pos: nat)
    requires
        bytes_lt(cs, 4),
        pos + pack_rest(cs).len() <= buf.len(),
        forall|x: int|
            pos <= x < pos + pack_rest(cs).len() ==> #[trigger] buf[x] == pack_rest(cs)[x - pos],
    ensures
        spec_unrest(buf, pos, clamp3(cs.len())) == Ok::<_, Error>(
            (cs, pos + pack_rest(cs).len()),
        ),
    decreases cs.len(),
{
    if cs.len() == 0 {
        assert(Seq::<u8>::empty() =~= cs);
    } else if cs.len() == 1 {
        lemma_split_join(cs[0], 0, 0, 0);
        assert(buf[pos as int] == pack_rest(cs)[0]);
        assert(seq![cs[0]] =~= cs);
    } else if cs.len() == 2 {
        lemma_split_join(cs[0], cs[1], 0, 0);
        assert(buf[pos as int] == pack_rest(cs)[0]);
        assert(seq![cs[0], cs[1]] =~= cs);
    } else {
        let k = clamp3((cs.len() - 3) as nat);
        lemma_split_join(cs[0], cs[1], cs[2], k);
        assert(buf[pos as int] == pack_rest(cs)[0]);
        let tail = cs.subrange(3, cs.len() as int);
        assert(pack_rest(cs) == seq![pack_rest(cs)[0]] + pack_rest(tail));
        assert(forall|x: int|
            pos + 1 <= x < pos + 1 + pack_rest(tail).len() ==> #[trigger] buf[x] == pack_rest(
                tail,
            )[x - (pos + 1)]) by {
            assert(forall|t: int|
                0 <= t < pack_rest(tail).len() ==> pack_rest(cs)[t + 1] == #[trigger] pack_rest(
                    tail,
                )[t]);
        }
        lemma_unrest_pack(tail, buf, pos + 1);
        assert(clamp3(tail.len()) == k);
        assert(seq![cs[0], cs[1], cs[2]] + tail =~= cs);
    }
}

/// Reading a packed classes section back, whatever follows it.
proof fn lemma_classes_pack(cs: Seq<u8>, m: bool, rest: Seq<u8>)
    requires
        bytes_lt(cs, 4),
    ensures
        spec_classes(pack_classes(cs, m) + rest) == Ok::<_, Error>(
            (cs, m, pack_classes(cs, m).len() as nat),
        ),
{
    let mb: u8 = if m {
        1
    } else {
        0
    };
    let buf = pack_classes(cs, m) + rest;
    assert(buf[0] == pack_classes(cs, m)[0]);
    if cs.len() == 0 {
        lemma_split_join(mb, 0, 3, 0);
        assert(buf[0] == (mb * 64 + 0 * 16 + 3 * 4 + 0) as u8);
        assert(Seq::<u8>::empty() =~= cs);
    } else if cs.len() == 1 {
        lemma_split_join(mb, cs[0], 0, 0);
        assert(buf[0] == (mb * 64 + cs[0] * 16 + 0 * 4 + 0) as u8);
        assert(seq![cs[0]] =~= cs);
    } else {
        let k = clamp3((cs.len() - 2) as nat);
        lemma_split_join((2 + mb) as u8, cs[0], cs[1], k);
        assert(buf[0] == ((2 + mb) * 64 + cs[0] * 16 + cs[1] * 4 + k) as u8);
        let tail = cs.subrange(2, cs.len() as int);
        assert(pack_classes(cs, m) == seq![pack_classes(cs, m)[0]] + pack_rest(tail));
        assert(forall|x: int|
            1 <= x < 1 + pack_rest(tail).len() ==> #[trigger] buf[x] == pack_rest(tail)[x - 1])
            by {
            assert(forall|t: int|
                0 <= t < pack_rest(tail).len() ==> pack_classes(cs, m)[t + 1]
                    == #[trigger] pack_rest(tail)[t]);
        }
        lemma_unrest_pack(tail, buf, 1);
        assert(clamp3(tail.len()) == k);
        assert(seq![cs[0], cs[1]] + tail =~= cs);
    }
}

// ------------------------------------------------------------------
// Round trip, part two: a length laid down as atoms reads back.
// ------------------------------------------------------------------

/// 8^k.
pub open spec fn pow8(k: nat) -> nat
    decreases k,
{
    if k == 0 {
        1
    } else {
        8 * pow8((k - 1) as nat)
    }
}

/// The digit accumulator after `k` nibbles, continuations ignored.
pub open spec fn read_k(buf: Seq<u8>, co: nat, j: nat, acc: nat, k: nat) -> nat
    decreases k,
{
    if k == 0 {
        acc
    } else {
        read_k(buf, co, j + 1, acc * 8 + (nibble_at(buf, co, j) / 2) as nat, (k - 1) as nat)
    }
}

proof fn lemma_read_k_snoc(buf: Seq<u8>, co: nat, j: nat, acc: nat, k: nat)
    ensures
        read_k(buf, co, j, acc, k + 1) == read_k(buf, co, j, acc, k) * 8 + (nibble_at(
            buf,
            co,
            j + k,
        ) / 2) as nat,
    decreases k,
{
    if k > 0 {
        lemma_read_k_snoc(buf, co, j + 1, acc * 8 + (nibble_at(buf, co, j) / 2) as nat, (k
            - 1) as nat);
    } else {
        assert(read_k(buf, co, j, acc, 1) == acc * 8 + (nibble_at(buf, co, j) / 2) as nat) by {
            reveal_with_fuel(read_k, 3);
        }
    }
}

proof fn lemma_read_k_mono(buf: Seq<u8>, co: nat, j: nat, acc: nat, k: nat)
    ensures
        read_k(buf, co, j, acc, k) >= acc,
    decreases k,
{
    if k > 0 {
        lemma_read_k_mono(buf, co, j + 1, acc * 8 + (nibble_at(buf, co, j) / 2) as nat, (k
            - 1) as nat);
    }
}

/// Consuming continued atoms folds them into the accumulator.
proof fn lemma_read_cont(buf: Seq<u8>, co: nat, j: nat, k: nat, acc: nat)
    requires
        forall|x: nat| j <= x < j + k ==> #[trigger] nibble_at(buf, co, x) % 2 == 1,
        read_k(buf, co, j, acc, k) <= usize::MAX as nat / 8,
        2 * co + j + k <= 2 * buf.len(),
    ensures
        spec_read_len(buf, co, j, acc) == spec_read_len(buf, co, j + k, read_k(buf, co, j, acc, k)),
    decreases k,
{
    if k > 0 {
        assert(nibble_at(buf, co, j) % 2 == 1);
        let a = nibble_at(buf, co, j);
        let acc2 = acc * 8 + (a / 2) as nat;
        lemma_read_k_mono(buf, co, j + 1, acc2, (k - 1) as nat);
        assert(acc <= acc2);
        lemma_read_cont(buf, co, j + 1, (k - 1) as nat, acc2);
    }
}

proof fn lemma_chunks_props(n: nat)
    ensures
        forall|t: int|
            0 <= t < chunks_c(n).len() ==> (#[trigger] chunks_c(n)[t]) % 2 == 1 && chunks_c(n)[t]
                < 16,
    decreases n,
{
    if n > 0 {
        lemma_chunks_props(n / 8);
        let hi = chunks_c(n / 8);
        let all = hi + seq![(n % 8 * 2 + 1) as u8];
        assert(chunks_c(n) == all);
        assert forall|t: int|
            0 <= t < chunks_c(n).len() implies (#[trigger] chunks_c(n)[t]) % 2 == 1 && chunks_c(
            n,
        )[t] < 16 by {
            assert(chunks_c(n)[t] == all[t]);
            if t < hi.len() {
                assert(all[t] == hi[t]);
            } else {
                assert(all[t] == (n % 8 * 2 + 1) as u8);
                assert((n % 8 * 2 + 1) % 2 == 1 && n % 8 * 2 + 1 < 16) by (nonlinear_arith);
            }
        }
    }
}

proof fn lemma_read_k_chunks(buf: Seq<u8>, co: nat, j: nat, n: nat, acc: nat)
    requires
        forall|x: nat|
            j <= x < j + chunks_c(n).len() ==> #[trigger] nibble_at(buf, co, x) == chunks_c(n)[x
                - j],
    ensures
        read_k(buf, co, j, acc, chunks_c(n).len()) == acc * pow8(chunks_c(n).len()) + n,
    decreases n,
{
    if n == 0 {
        assert(read_k(buf, co, j, acc, 0) == acc);
        assert(pow8(0) == 1);
        assert(acc * pow8(0) + 0 == acc) by (nonlinear_arith)
            requires
                pow8(0) == 1,
        ;
        assert(read_k(buf, co, j, acc, chunks_c(n).len()) == acc * pow8(chunks_c(n).len()) + n);
    } else {
        let hi = chunks_c(n / 8);
        let k1 = hi.len();
        assert(chunks_c(n) == hi + seq![(n % 8 * 2 + 1) as u8]);
        assert(chunks_c(n).len() == k1 + 1);
        assert(forall|x: nat| j <= x < j + k1 ==> #[trigger] nibble_at(buf, co, x) == hi[x - j])
            by {
            assert(forall|t: int| 0 <= t < k1 ==> chunks_c(n)[t] == #[trigger] hi[t]);
        }
        lemma_read_k_chunks(buf, co, j, n / 8, acc);
        lemma_read_k_snoc(buf, co, j, acc, k1);
        assert(nibble_at(buf, co, j + k1) == chunks_c(n)[k1 as int]);
        assert(chunks_c(n)[k1 as int] == (n % 8 * 2 + 1) as u8);
        assert(((n % 8 * 2 + 1) as u8) / 2 == n % 8) by (nonlinear_arith);
        assert((acc * pow8(k1) + n / 8) * 8 + n % 8 == acc * pow8(k1 + 1) + n) by (nonlinear_arith)
            requires
                pow8(k1 + 1) == 8 * pow8(k1),
        ;
    }
}

/// Law: any length written as 3-bit atoms, wherever it stands in the
/// stream, reads back as the same integer, consuming exactly its atoms.
pub proof fn lemma_atoms_round_trip(buf: Seq<u8>, co: nat, j: nat, n: nat)
    requires
        n <= usize::MAX as nat,
        forall|x: nat|
            j <= x < j + atoms(n).len() ==> #[trigger] nibble_at(buf, co, x) == atoms(n)[x - j],
        2 * co + j + atoms(n).len() <= 2 * buf.len(),
    ensures
        spec_read_len(buf, co, j, 0) == Ok::<_, Error>((n, j + atoms(n).len())),
{
    let hi = chunks_c(n / 8);
    let k = hi.len();
    assert(atoms(n) == hi + seq![(n % 8 * 2) as u8]);
    assert(forall|x: nat| j <= x < j + k ==> #[trigger] nibble_at(buf, co, x) == hi[x - j]) by {
        assert(forall|t: int| 0 <= t < k ==> atoms(n)[t] == #[trigger] hi[t]);
    }
    lemma_chunks_props(n / 8);
    assert(forall|x: nat| j <= x < j + k ==> #[trigger] nibble_at(buf, co, x) % 2 == 1);
    lemma_read_k_chunks(buf, co, j, n / 8, 0);
    let mid = read_k(buf, co, j, 0, k);
    assert(mid == 0 * pow8(k) + n / 8);
    assert(n / 8 <= usize::MAX as nat / 8);
    lemma_read_cont(buf, co, j, k, 0);
    assert(nibble_at(buf, co, j + k) == atoms(n)[k as int]);
    assert(atoms(n)[k as int] == (n % 8 * 2) as u8);
    assert(((n % 8 * 2) as u8) / 2 == n % 8 && ((n % 8 * 2) as u8) % 2 == 0) by (nonlinear_arith);
    assert((n / 8) * 8 + n % 8 == n);
}

// ------------------------------------------------------------------
// Round trip, part three: nibbles packed two per byte read back.
// ------------------------------------------------------------------

proof fn lemma_pack_nibbles_len(ns: Seq<u8>)
    ensures
        pack_nibbles(ns).len() == (ns.len() + 1) / 2,
    decreases ns.len(),
{
    if ns.len() >= 2 {
        lemma_pack_nibbles_len(ns.subrange(2, ns.len() as int));
    }
}

/// Any nibble of a packed run reads back, given the packed bytes stand at
/// `base` in the buffer.
proof fn lemma_pack_nibbles_index(ns: Seq<u8>, buf: Seq<u8>, base: nat, t: int)
    requires
        bytes_lt(ns, 16),
        base + pack_nibbles(ns).len() <= buf.len(),
        forall|x: int|
            base <= x < base + pack_nibbles(ns).len() ==> #[trigger] buf[x] == pack_nibbles(ns)[x
                - base],
        0 <= t < ns.len(),
    ensures
        nibble_at(buf, base, t as nat) == ns[t],
    decreases t,
{
    if t == 0 {
        if ns.len() == 1 {
            assert(buf[base as int] == (ns[0] * 16) as u8);
            assert(((ns[0] * 16) as u8) / 16 == ns[0]) by (nonlinear_arith)
                requires
                    ns[0] < 16,
            ;
        } else {
            assert(buf[base as int] == (ns[0] * 16 + ns[1]) as u8);
            assert(((ns[0] * 16 + ns[1]) as u8) / 16 == ns[0]) by (nonlinear_arith)
                requires
                    ns[0] < 16,
                    ns[1] < 16,
            ;
        }
    } else if t == 1 {
        assert(buf[base as int] == (ns[0] * 16 + ns[1]) as u8);
        assert(((ns[0] * 16 + ns[1]) as u8) % 16 == ns[1]) by (nonlinear_arith)
            requires
                ns[0] < 16,
                ns[1] < 16,
        ;
    } else {
        let tail = ns.subrange(2, ns.len() as int);
        assert(pack_nibbles(ns) == seq![pack_nibbles(ns)[0]] + pack_nibbles(tail));
        assert(forall|x: int|
            base + 1 <= x < base + 1 + pack_nibbles(tail).len() ==> #[trigger] buf[x]
                == pack_nibbles(tail)[x - (base + 1)]) by {
            assert(forall|t: int|
                0 <= t < pack_nibbles(tail).len() ==> pack_nibbles(ns)[t + 1]
                    == #[trigger] pack_nibbles(tail)[t]);
        }
        lemma_pack_nibbles_index(tail, buf, base + 1, t - 2);
        assert(nibble_at(buf, base, t as nat) == nibble_at(buf, base + 1, (t - 2) as nat));
    }
}

} // verus!

// ------------------------------------------------------------------
// Round trip, part four: the placing walk consumes exactly the classes
// and atoms that the encoder emitted for each value.
// ------------------------------------------------------------------

verus! {

/// `sub` stands in the class list at position `ci`.
pub open spec fn cls_frame(cs: Seq<u8>, ci: nat, sub: Seq<u8>) -> bool {
    &&& ci + sub.len() <= cs.len()
    &&& forall|x: int| ci <= x < ci + sub.len() ==> #[trigger] cs[x] == sub[x - ci]
}

/// `sub` stands in the nibble stream at index `j`.
pub open spec fn ats_frame(buf: Seq<u8>, co: nat, j: nat, sub: Seq<u8>) -> bool {
    &&& 2 * co + j + sub.len() <= 2 * buf.len()
    &&& forall|x: nat| j <= x < j + sub.len() ==> #[trigger] nibble_at(buf, co, x) == sub[x - j]
}

/// `sub` stands in the payload at position `pp`.
pub open spec fn pay_frame(buf: Seq<u8>, pp: nat, sub: Seq<u8>) -> bool {
    &&& pp + sub.len() <= buf.len()
    &&& forall|x: int| pp <= x < pp + sub.len() ==> #[trigger] buf[x] == sub[x - pp]
}

proof fn lemma_cls_frame_split(cs: Seq<u8>, ci: nat, a: Seq<u8>, b: Seq<u8>)
    requires
        cls_frame(cs, ci, a + b),
    ensures
        cls_frame(cs, ci, a),
        cls_frame(cs, ci + a.len(), b),
{
    assert forall|x: int| ci <= x < ci + a.len() implies #[trigger] cs[x] == a[x - ci] by {
        assert(cs[x] == (a + b)[x - ci]);
    }
    assert forall|x: int|
        ci + a.len() <= x < ci + a.len() + b.len() implies #[trigger] cs[x] == b[x - (ci
        + a.len())] by {
        assert(cs[x] == (a + b)[x - ci]);
    }
}

proof fn lemma_ats_frame_split(buf: Seq<u8>, co: nat, j: nat, a: Seq<u8>, b: Seq<u8>)
    requires
        ats_frame(buf, co, j, a + b),
    ensures
        ats_frame(buf, co, j, a),
        ats_frame(buf, co, j + a.len(), b),
{
    assert forall|x: nat| j <= x < j + a.len() implies #[trigger] nibble_at(buf, co, x) == a[x
        - j] by {
        assert(nibble_at(buf, co, x) == (a + b)[x - j]);
    }
    assert forall|x: nat|
        j + a.len() <= x < j + a.len() + b.len() implies #[trigger] nibble_at(buf, co, x) == b[x
        - (j + a.len())] by {
        assert(nibble_at(buf, co, x) == (a + b)[x - j]);
    }
}

proof fn lemma_pay_frame_split(buf: Seq<u8>, pp: nat, a: Seq<u8>, b: Seq<u8>)
    requires
        pay_frame(buf, pp, a + b),
    ensures
        pay_frame(buf, pp, a),
        pay_frame(buf, pp + a.len(), b),
{
    assert forall|x: int| pp <= x < pp + a.len() implies #[trigger] buf[x] == a[x - pp] by {
        assert(buf[x] == (a + b)[x - pp]);
    }
    assert forall|x: int|
        pp + a.len() <= x < pp + a.len() + b.len() implies #[trigger] buf[x] == b[x - (pp
        + a.len())] by {
        assert(buf[x] == (a + b)[x - pp]);
    }
}

/// The length field of any encodable value fits the machine word.
proof fn lemma_lenval_bounded(v: SpecVal)
    requires
        encodable(v),
    ensures
        lenval(v) <= usize::MAX as nat,
        class_of(v) == 3 ==> lenval(v) <= 255,
{
    match v {
        SpecVal::SInt(i) => {
            lemma_sint_round_trip(i);
        },
        SpecVal::UInt(u) => {
            lemma_u128_round_trip(u);
        },
        _ => {},
    }
}

/// Every value occupies at least one class and one atom.
proof fn lemma_stream_lens(v: SpecVal)
    ensures
        cls_of(v).len() >= 1,
        ats_of(v).len() >= 1,
{
}

#[verifier::rlimit(50)]
proof fn lemma_walk_obj_enc(v: SpecVal, cs: Seq<u8>, ci: nat, buf: Seq<u8>, co: nat, j: nat)
    requires
        encodable(v),
        cls_frame(cs, ci, cls_of(v)),
        ats_frame(buf, co, j, ats_of(v)),
    ensures
        walk_obj(cs, ci, buf, co, j) == Ok::<_, Error>(
            ((ci + cls_of(v).len()) as nat, (j + ats_of(v).len()) as nat),
        ),
    decreases v,
{
    lemma_lenval_bounded(v);
    assert(cs[ci as int] == cls_of(v)[0]);
    match v {
        SpecVal::Dict(ps) => {
            let hdr = atoms(2 * ps.len());
            lemma_ats_frame_split(buf, co, j, hdr, ats_of_pairs(ps));
            lemma_atoms_round_trip(buf, co, j, 2 * ps.len());
            lemma_cls_frame_split(cs, ci, seq![2u8], cls_of_pairs(ps));
            assert((2 * ps.len()) % 2 == 0 && (2 * ps.len()) / 2 == ps.len());
            lemma_walk_pairs_enc(ps, cs, ci + 1, buf, co, j + hdr.len());
        },
        SpecVal::List(es) => {
            let hdr = atoms(2 * es.len() + 1);
            lemma_ats_frame_split(buf, co, j, hdr, ats_of_list(es));
            lemma_atoms_round_trip(buf, co, j, 2 * es.len() + 1);
            lemma_cls_frame_split(cs, ci, seq![2u8], cls_of_list(es));
            assert((2 * es.len() + 1) % 2 == 1 && (2 * es.len() + 1) / 2 == es.len());
            lemma_walk_list_enc(es, cs, ci + 1, buf, co, j + hdr.len());
        },
        _ => {
            lemma_atoms_round_trip(buf, co, j, lenval(v));
        },
    }
}

#[verifier::rlimit(50)]
proof fn lemma_walk_pairs_enc(
    ps: Seq<(SpecVal, SpecVal)>,
    cs: Seq<u8>,
    ci: nat,
    buf: Seq<u8>,
    co: nat,
    j: nat,
)
    requires
        pairs_encodable(ps),
        cls_frame(cs, ci, cls_of_pairs(ps)),
        ats_frame(buf, co, j, ats_of_pairs(ps)),
    ensures
        walk_children(cs, ci, buf, co, j, ps.len(), true) == Ok::<_, Error>(
            ((ci + cls_of_pairs(ps).len()) as nat, (j + ats_of_pairs(ps).len()) as nat),
        ),
    decreases ps,
{
    if ps.len() == 0 {
    } else {
        let key = ps[0].0;
        let v1 = ps[0].1;
        let rest = ps.subrange(1, ps.len() as int);
        let ka = atoms(lenval(key));
        assert(ats_of_pairs(ps) == (ka + ats_of(v1)) + ats_of_pairs(rest));
        lemma_ats_frame_split(buf, co, j, ka + ats_of(v1), ats_of_pairs(rest));
        lemma_ats_frame_split(buf, co, j, ka, ats_of(v1));
        lemma_lenval_bounded(key);
        lemma_atoms_round_trip(buf, co, j, lenval(key));
        let j2 = j + ka.len();
        assert(cls_of_pairs(ps) == cls_of(v1) + cls_of_pairs(rest));
        lemma_cls_frame_split(cs, ci, cls_of(v1), cls_of_pairs(rest));
        lemma_walk_obj_enc(v1, cs, ci, buf, co, j2);
        lemma_stream_lens(v1);
        let ci3 = ci + cls_of(v1).len();
        let j3 = j2 + ats_of(v1).len();
        assert(pairs_encodable(rest)) by {
            assert(forall|i: int| 0 <= i < rest.len() ==> rest[i] == #[trigger] ps[i + 1]);
        }
        lemma_walk_pairs_enc(rest, cs, ci3, buf, co, j3);
        assert(rest.len() == ps.len() - 1);
    }
}

#[verifier::rlimit(50)]
proof fn lemma_walk_list_enc(es: Seq<SpecVal>, cs: Seq<u8>, ci: nat, buf: Seq<u8>, co: nat, j: nat)
    requires
        list_encodable(es),
        cls_frame(cs, ci, cls_of_list(es)),
        ats_frame(buf, co, j, ats_of_list(es)),
    ensures
        walk_children(cs, ci, buf, co, j, es.len(), false) == Ok::<_, Error>(
            ((ci + cls_of_list(es).len()) as nat, (j + ats_of_list(es).len()) as nat),
        ),
    decreases es,
{
    if es.len() == 0 {
    } else {
        let v1 = es[0];
        let rest = es.subrange(1, es.len() as int);
        assert(ats_of_list(es) == ats_of(v1) + ats_of_list(rest));
        lemma_ats_frame_split(buf, co, j, ats_of(v1), ats_of_list(rest));
        assert(cls_of_list(es) == cls_of(v1) + cls_of_list(rest));
        lemma_cls_frame_split(cs, ci, cls_of(v1), cls_of_list(rest));
        lemma_walk_obj_enc(v1, cs, ci, buf, co, j);
        lemma_stream_lens(v1);
        let ci2 = ci + cls_of(v1).len();
        let j2 = j + ats_of(v1).len();
        assert(list_encodable(rest)) by {
            assert(forall|i: int| 0 <= i < rest.len() ==> rest[i] == #[trigger] es[i + 1]);
        }
        lemma_walk_list_enc(rest, cs, ci2, buf, co, j2);
        assert(rest.len() == es.len() - 1);
    }
}

/// The placing walk over a whole message body.
#[verifier::rlimit(50)]
proof fn lemma_walk_top_pairs_enc(
    ps: Seq<(SpecVal, SpecVal)>,
    cs: Seq<u8>,
    ci: nat,
    buf: Seq<u8>,
    co: nat,
    j: nat,
)
    requires
        pairs_encodable(ps),
        cs.len() == ci + cls_of_pairs(ps).len(),
        cls_frame(cs, ci, cls_of_pairs(ps)),
        ats_frame(buf, co, j, ats_of_pairs(ps)),
    ensures
        walk_top(cs, ci, buf, co, j, true) == Ok::<_, Error>((j + ats_of_pairs(ps).len()) as nat),
    decreases ps,
{
    if ps.len() == 0 {
        assert(cls_of_pairs(ps).len() == 0);
    } else {
        let key = ps[0].0;
        let v1 = ps[0].1;
        let rest = ps.subrange(1, ps.len() as int);
        let ka = atoms(lenval(key));
        assert(ats_of_pairs(ps) == (ka + ats_of(v1)) + ats_of_pairs(rest));
        lemma_ats_frame_split(buf, co, j, ka + ats_of(v1), ats_of_pairs(rest));
        lemma_ats_frame_split(buf, co, j, ka, ats_of(v1));
        lemma_lenval_bounded(key);
        lemma_atoms_round_trip(buf, co, j, lenval(key));
        let j2 = j + ka.len();
        assert(cls_of_pairs(ps) == cls_of(v1) + cls_of_pairs(rest));
        lemma_cls_frame_split(cs, ci, cls_of(v1), cls_of_pairs(rest));
        lemma_walk_obj_enc(v1, cs, ci, buf, co, j2);
        lemma_stream_lens(v1);
        assert(pairs_encodable(rest)) by {
            assert(forall|i: int| 0 <= i < rest.len() ==> rest[i] == #[trigger] ps[i + 1]);
        }
        lemma_walk_top_pairs_enc(
            rest,
            cs,
            ci + cls_of(v1).len(),
            buf,
            co,
            j2 + ats_of(v1).len(),
        );
    }
}

#[verifier::rlimit(50)]
proof fn lemma_walk_top_list_enc(
    es: Seq<SpecVal>,
    cs: Seq<u8>,
    ci: nat,
    buf: Seq<u8>,
    co: nat,
    j: nat,
)
    requires
        list_encodable(es),
        cs.len() == ci + cls_of_list(es).len(),
        cls_frame(cs, ci, cls_of_list(es)),
        ats_frame(buf, co, j, ats_of_list(es)),
    ensures
        walk_top(cs, ci, buf, co, j, false) == Ok::<_, Error>((j + ats_of_list(es).len()) as nat),
    decreases es,
{
    if es.len() == 0 {
        assert(cls_of_list(es).len() == 0);
    } else {
        let v1 = es[0];
        let rest = es.subrange(1, es.len() as int);
        assert(ats_of_list(es) == ats_of(v1) + ats_of_list(rest));
        lemma_ats_frame_split(buf, co, j, ats_of(v1), ats_of_list(rest));
        assert(cls_of_list(es) == cls_of(v1) + cls_of_list(rest));
        lemma_cls_frame_split(cs, ci, cls_of(v1), cls_of_list(rest));
        lemma_walk_obj_enc(v1, cs, ci, buf, co, j);
        lemma_stream_lens(v1);
        assert(list_encodable(rest)) by {
            assert(forall|i: int| 0 <= i < rest.len() ==> rest[i] == #[trigger] es[i + 1]);
        }
        lemma_walk_top_list_enc(rest, cs, ci + cls_of(v1).len(), buf, co, j + ats_of(v1).len());
    }
}

} // verus!

// ------------------------------------------------------------------
// Round trip, part five: the building walk reconstructs each value
// from its class, its length and its payload bytes.
// ------------------------------------------------------------------

verus! {

proof fn lemma_pay_frame_extract(buf: Seq<u8>, pp: nat, sub: Seq<u8>)
    requires
        pay_frame(buf, pp, sub),
    ensures
        buf.subrange(pp as int, (pp + sub.len()) as int) == sub,
{
    assert(buf.subrange(pp as int, (pp + sub.len()) as int) =~= sub);
}

proof fn lemma_be32_val(x: u32)
    ensures
        u32_be_val(be32(x)) == x,
{
    assert(x / 0x1000000 % 256 * 0x1000000 + x / 0x10000 % 256 * 0x10000 + x / 0x100 % 256 * 0x100
        + x % 256 == x) by (bit_vector);
}

proof fn lemma_be64_val(x: u64)
    ensures
        u64_be_val(be64(x)) == x,
{
    assert(x / 0x100000000000000 % 256 * 0x100000000000000 + x / 0x1000000000000 % 256
        * 0x1000000000000 + x / 0x10000000000 % 256 * 0x10000000000 + x / 0x100000000 % 256
        * 0x100000000 + x / 0x1000000 % 256 * 0x1000000 + x / 0x10000 % 256 * 0x10000 + x / 0x100
        % 256 * 0x100 + x % 256 == x) by (bit_vector);
}

proof fn lemma_build_fixed_enc(v: SpecVal, buf: Seq<u8>, pp: nat)
    requires
        encodable(v),
        class_of(v) == 3,
        pay_frame(buf, pp, payload(v)),
    ensures
        build_fixed(buf, lenval(v), pp) == Ok::<_, Error>((v, (pp + payload(v).len()) as nat)),
{
    lemma_pay_frame_extract(buf, pp, payload(v));
    match v {
        SpecVal::SInt(i) => {
            lemma_sint_round_trip(i);
        },
        SpecVal::UInt(u) => {
            lemma_u128_round_trip(u);
            assert(uint_bytes(u as nat).len() >= 1);
        },
        SpecVal::Float32(b) => {
            lemma_be32_val(b);
        },
        SpecVal::Float64(b) => {
            lemma_be64_val(b);
        },
        SpecVal::Timestamp32(t) => {
            lemma_be32_val(t);
        },
        _ => {},
    }
}

#[verifier::rlimit(50)]
proof fn lemma_build_obj_enc(
    v: SpecVal,
    cs: Seq<u8>,
    ci: nat,
    buf: Seq<u8>,
    co: nat,
    j: nat,
    pp: nat,
)
    requires
        encodable(v),
        cls_frame(cs, ci, cls_of(v)),
        ats_frame(buf, co, j, ats_of(v)),
        pay_frame(buf, pp, pay_of(v)),
    ensures
        build_obj(cs, ci, buf, co, j, pp) == Ok::<_, Error>(
            (
                v,
                (ci + cls_of(v).len()) as nat,
                (j + ats_of(v).len()) as nat,
                (pp + pay_of(v).len()) as nat,
            ),
        ),
    decreases v,
{
    lemma_lenval_bounded(v);
    assert(cs[ci as int] == cls_of(v)[0]);
    match v {
        SpecVal::Dict(ps) => {
            let hdr = atoms(2 * ps.len());
            lemma_ats_frame_split(buf, co, j, hdr, ats_of_pairs(ps));
            lemma_atoms_round_trip(buf, co, j, 2 * ps.len());
            lemma_cls_frame_split(cs, ci, seq![2u8], cls_of_pairs(ps));
            assert((2 * ps.len()) % 2 == 0 && (2 * ps.len()) / 2 == ps.len());
            lemma_build_pairs_enc(ps, cs, ci + 1, buf, co, j + hdr.len(), pp);
        },
        SpecVal::List(es) => {
            let hdr = atoms(2 * es.len() + 1);
            lemma_ats_frame_split(buf, co, j, hdr, ats_of_list(es));
            lemma_atoms_round_trip(buf, co, j, 2 * es.len() + 1);
            lemma_cls_frame_split(cs, ci, seq![2u8], cls_of_list(es));
            assert((2 * es.len() + 1) % 2 == 1 && (2 * es.len() + 1) / 2 == es.len());
            lemma_build_list_enc(es, cs, ci + 1, buf, co, j + hdr.len(), pp);
        },
        SpecVal::Str(s) => {
            lemma_atoms_round_trip(buf, co, j, lenval(v));
            lemma_pay_frame_extract(buf, pp, s);
        },
        SpecVal::Bytes(b) => {
            lemma_atoms_round_trip(buf, co, j, lenval(v));
            lemma_pay_frame_extract(buf, pp, b);
        },
        _ => {
            lemma_atoms_round_trip(buf, co, j, lenval(v));
            lemma_build_fixed_enc(v, buf, pp);
        },
    }
}

#[verifier::rlimit(50)]
proof fn lemma_build_pairs_enc(
    ps: Seq<(SpecVal, SpecVal)>,
    cs: Seq<u8>,
    ci: nat,
    buf: Seq<u8>,
    co: nat,
    j: nat,
    pp: nat,
)
    requires
        pairs_encodable(ps),
        cls_frame(cs, ci, cls_of_pairs(ps)),
        ats_frame(buf, co, j, ats_of_pairs(ps)),
        pay_frame(buf, pp, pay_of_pairs(ps)),
    ensures
        build_pairs_n(cs, ci, buf, co, j, pp, ps.len()) == Ok::<_, Error>(
            (
                ps,
                (ci + cls_of_pairs(ps).len()) as nat,
                (j + ats_of_pairs(ps).len()) as nat,
                (pp + pay_of_pairs(ps).len()) as nat,
            ),
        ),
    decreases ps,
{
    if ps.len() == 0 {
        assert(Seq::<(SpecVal, SpecVal)>::empty() =~= ps);
    } else {
        let key = ps[0].0;
        let v1 = ps[0].1;
        let rest = ps.subrange(1, ps.len() as int);
        let kb = key->Str_0;
        let ka = atoms(lenval(key));
        assert(ats_of_pairs(ps) == (ka + ats_of(v1)) + ats_of_pairs(rest));
        lemma_ats_frame_split(buf, co, j, ka + ats_of(v1), ats_of_pairs(rest));
        lemma_ats_frame_split(buf, co, j, ka, ats_of(v1));
        lemma_lenval_bounded(key);
        lemma_atoms_round_trip(buf, co, j, lenval(key));
        let j2 = j + ka.len();
        assert(payload(key) == kb);
        assert(pay_of_pairs(ps) == (kb + pay_of(v1)) + pay_of_pairs(rest));
        lemma_pay_frame_split(buf, pp, kb + pay_of(v1), pay_of_pairs(rest));
        lemma_pay_frame_split(buf, pp, kb, pay_of(v1));
        lemma_pay_frame_extract(buf, pp, kb);
        assert(SpecVal::Str(buf.subrange(pp as int, (pp + lenval(key)) as int)) == key);
        assert(cls_of_pairs(ps) == cls_of(v1) + cls_of_pairs(rest));
        lemma_cls_frame_split(cs, ci, cls_of(v1), cls_of_pairs(rest));
        lemma_build_obj_enc(v1, cs, ci, buf, co, j2, pp + kb.len());
        lemma_stream_lens(v1);
        assert(pairs_encodable(rest)) by {
            assert(forall|i: int| 0 <= i < rest.len() ==> rest[i] == #[trigger] ps[i + 1]);
        }
        lemma_build_pairs_enc(
            rest,
            cs,
            ci + cls_of(v1).len(),
            buf,
            co,
            j2 + ats_of(v1).len(),
            pp + kb.len() + pay_of(v1).len(),
        );
        assert(rest.len() == ps.len() - 1);
        assert(seq![(key, v1)] + rest =~= ps);
    }
}

#[verifier::rlimit(50)]
proof fn lemma_build_list_enc(
    es: Seq<SpecVal>,
    cs: Seq<u8>,
    ci: nat,
    buf: Seq<u8>,
    co: nat,
    j: nat,
    pp: nat,
)
    requires
        list_encodable(es),
        cls_frame(cs, ci, cls_of_list(es)),
        ats_frame(buf, co, j, ats_of_list(es)),
        pay_frame(buf, pp, pay_of_list(es)),
    ensures
        build_list_n(cs, ci, buf, co, j, pp, es.len()) == Ok::<_, Error>(
            (
                es,
                (ci + cls_of_list(es).len()) as nat,
                (j + ats_of_list(es).len()) as nat,
                (pp + pay_of_list(es).len()) as nat,
            ),
        ),
    decreases es,
{
    if es.len() == 0 {
        assert(Seq::<SpecVal>::empty() =~= es);
    } else {
        let v1 = es[0];
        let rest = es.subrange(1, es.len() as int);
        assert(ats_of_list(es) == ats_of(v1) + ats_of_list(rest));
        lemma_ats_frame_split(buf, co, j, ats_of(v1), ats_of_list(rest));
        assert(pay_of_list(es) == pay_of(v1) + pay_of_list(rest));
        lemma_pay_frame_split(buf, pp, pay_of(v1), pay_of_list(rest));
        assert(cls_of_list(es) == cls_of(v1) + cls_of_list(rest));
        lemma_cls_frame_split(cs, ci, cls_of(v1), cls_of_list(rest));
        lemma_build_obj_enc(v1, cs, ci, buf, co, j, pp);
        lemma_stream_lens(v1);
        assert(list_encodable(rest)) by {
            assert(forall|i: int| 0 <= i < rest.len() ==> rest[i] == #[trigger] es[i + 1]);
        }
        lemma_build_list_enc(
            rest,
            cs,
            ci + cls_of(v1).len(),
            buf,
            co,
            j + ats_of(v1).len(),
            pp + pay_of(v1).len(),
        );
        assert(rest.len() == es.len() - 1);
        assert(seq![v1] + rest =~= es);
    }
}

#[verifier::rlimit(50)]
proof fn lemma_build_top_map_enc(
    ps: Seq<(SpecVal, SpecVal)>,
    cs: Seq<u8>,
    ci: nat,
    buf: Seq<u8>,
    co: nat,
    j: nat,
    pp: nat,
)
    requires
        pairs_encodable(ps),
        cs.len() == ci + cls_of_pairs(ps).len(),
        cls_frame(cs, ci, cls_of_pairs(ps)),
        ats_frame(buf, co, j, ats_of_pairs(ps)),
        pay_frame(buf, pp, pay_of_pairs(ps)),
    ensures
        build_top_map(cs, ci, buf, co, j, pp) == Ok::<_, Error>(ps),
    decreases ps,
{
    if ps.len() == 0 {
        assert(cls_of_pairs(ps).len() == 0);
        assert(Seq::<(SpecVal, SpecVal)>::empty() =~= ps);
    } else {
        let key = ps[0].0;
        let v1 = ps[0].1;
        let rest = ps.subrange(1, ps.len() as int);
        let kb = key->Str_0;
        let ka = atoms(lenval(key));
        assert(ats_of_pairs(ps) == (ka + ats_of(v1)) + ats_of_pairs(rest));
        lemma_ats_frame_split(buf, co, j, ka + ats_of(v1), ats_of_pairs(rest));
        lemma_ats_frame_split(buf, co, j, ka, ats_of(v1));
        lemma_lenval_bounded(key);
        lemma_atoms_round_trip(buf, co, j, lenval(key));
        let j2 = j + ka.len();
        assert(payload(key) == kb);
        assert(pay_of_pairs(ps) == (kb + pay_of(v1)) + pay_of_pairs(rest));
        lemma_pay_frame_split(buf, pp, kb + pay_of(v1), pay_of_pairs(rest));
        lemma_pay_frame_split(buf, pp, kb, pay_of(v1));
        lemma_pay_frame_extract(buf, pp, kb);
        assert(SpecVal::Str(buf.subrange(pp as int, (pp + lenval(key)) as int)) == key);
        assert(cls_of_pairs(ps) == cls_of(v1) + cls_of_pairs(rest));
        lemma_cls_frame_split(cs, ci, cls_of(v1), cls_of_pairs(rest));
        lemma_build_obj_enc(v1, cs, ci, buf, co, j2, pp + kb.len());
        lemma_stream_lens(v1);
        assert(pairs_encodable(rest)) by {
            assert(forall|i: int| 0 <= i < rest.len() ==> rest[i] == #[trigger] ps[i + 1]);
        }
        lemma_build_top_map_enc(
            rest,
            cs,
            ci + cls_of(v1).len(),
            buf,
            co,
            j2 + ats_of(v1).len(),
            pp + kb.len() + pay_of(v1).len(),
        );
        assert(seq![(key, v1)] + rest =~= ps);
    }
}

#[verifier::rlimit(50)]
proof fn lemma_build_top_list_enc(
    es: Seq<SpecVal>,
    cs: Seq<u8>,
    ci: nat,
    buf: Seq<u8>,
    co: nat,
    j: nat,
    pp: nat,
)
    requires
        list_encodable(es),
        cs.len() == ci + cls_of_list(es).len(),
        cls_frame(cs, ci, cls_of_list(es)),
        ats_frame(buf, co, j, ats_of_list(es)),
        pay_frame(buf, pp, pay_of_list(es)),
    ensures
        build_top_list(cs, ci, buf, co, j, pp) == Ok::<_, Error>(es),
    decreases es,
{
    if es.len() == 0 {
        assert(cls_of_list(es).len() == 0);
        assert(Seq::<SpecVal>::empty() =~= es);
    } else {
        let v1 = es[0];
        let rest = es.subrange(1, es.len() as int);
        assert(ats_of_list(es) == ats_of(v1) + ats_of_list(rest));
        lemma_ats_frame_split(buf, co, j, ats_of(v1), ats_of_list(rest));
        assert(pay_of_list(es) == pay_of(v1) + pay_of_list(rest));
        lemma_pay_frame_split(buf, pp, pay_of(v1), pay_of_list(rest));
        assert(cls_of_list(es) == cls_of(v1) + cls_of_list(rest));
        lemma_cls_frame_split(cs, ci, cls_of(v1), cls_of_list(rest));
        lemma_build_obj_enc(v1, cs, ci, buf, co, j, pp);
        lemma_stream_lens(v1);
        assert(list_encodable(rest)) by {
            assert(forall|i: int| 0 <= i < rest.len() ==> rest[i] == #[trigger] es[i + 1]);
        }
        lemma_build_top_list_enc(
            rest,
            cs,
            ci + cls_of(v1).len(),
            buf,
            co,
            j + ats_of(v1).len(),
            pp + pay_of(v1).len(),
        );
        assert(seq![v1] + rest =~= es);
    }
}

} // verus!

// ------------------------------------------------------------------
// The round-trip theorem.
// ------------------------------------------------------------------

verus! {

proof fn lemma_cls_of_pairs_len(ps: Seq<(SpecVal, SpecVal)>)
    ensures
        cls_of_pairs(ps).len() >= ps.len(),
    decreases ps,
{
    if ps.len() > 0 {
        lemma_stream_lens(ps[0].1);
        lemma_cls_of_pairs_len(ps.subrange(1, ps.len() as int));
    }
}

proof fn lemma_cls_of_list_len(es: Seq<SpecVal>)
    ensures
        cls_of_list(es).len() >= es.len(),
    decreases es,
{
    if es.len() > 0 {
        lemma_stream_lens(es[0]);
        lemma_cls_of_list_len(es.subrange(1, es.len() as int));
    }
}

/// Law: decoding an encoded message gives the message back — for every
/// encodable value tree with a map or list root, `spec_decode` inverts
/// `spec_encode` exactly, map entry order included. Together with the
/// contracts of `headpack_encode` and `headpack_decode` this carries the
/// round trip to the executable codec.
#[verifier::rlimit(50)]
pub proof fn lemma_round_trip(v: SpecVal)
    requires
        encodable_root(v),
    ensures
        spec_decode(spec_encode(v)) == Ok::<_, Error>(v),
{
    let m = v is Dict;
    let rcls = root_cls(v);
    let rats = root_ats(v);
    let rpay = root_pay(v);
    let pc = pack_classes(rcls, m);
    let pn = pack_nibbles(rats);
    let buf = spec_encode(v);
    match v {
        SpecVal::Dict(ps) => {
            lemma_cls_of_pairs_bounded(ps);
            lemma_ats_of_pairs_bounded(ps);
        },
        SpecVal::List(es) => {
            lemma_cls_of_list_bounded(es);
            lemma_ats_of_list_bounded(es);
        },
        _ => {},
    }
    assert(buf =~= pc + (pn + rpay));
    lemma_classes_pack(rcls, m, pn + rpay);
    assert(spec_classes(buf) == Ok::<_, Error>((rcls, m, pc.len() as nat)));
    let co = pc.len();
    if rcls.len() == 0 {
        match v {
            SpecVal::Dict(ps) => {
                lemma_cls_of_pairs_len(ps);
                assert(ps.len() == 0);
                assert(Seq::<(SpecVal, SpecVal)>::empty() =~= ps);
            },
            SpecVal::List(es) => {
                lemma_cls_of_list_len(es);
                assert(es.len() == 0);
                assert(Seq::<SpecVal>::empty() =~= es);
            },
            _ => {},
        }
    } else {
        lemma_pack_nibbles_len(rats);
        assert(buf.len() == co + pn.len() + rpay.len());
        assert(forall|x: int| co <= x < co + pn.len() ==> #[trigger] buf[x] == pn[x - co]) by {
            assert(forall|x: int|
                co <= x < co + pn.len() ==> #[trigger] buf[x] == (pn + rpay)[x - co]);
        }
        assert forall|x: nat| 0 <= x < rats.len() implies #[trigger] nibble_at(buf, co, x)
            == rats[x as int] by {
            lemma_pack_nibbles_index(rats, buf, co, x as int);
        }
        assert(2 * pn.len() >= rats.len());
        assert(ats_frame(buf, co, 0, rats)) by {
            assert(forall|x: nat|
                0 <= x < rats.len() ==> #[trigger] nibble_at(buf, co, x) == rats[x - 0]);
        }
        assert(cls_frame(rcls, 0, rcls)) by {
            assert(forall|x: int| 0 <= x < rcls.len() ==> #[trigger] rcls[x] == rcls[x - 0]);
        }
        let pp0 = co + pn.len();
        assert(pay_frame(buf, pp0, rpay)) by {
            assert(forall|x: int|
                pp0 <= x < pp0 + rpay.len() ==> #[trigger] buf[x] == rpay[x - pp0]);
        }
        assert((rats.len() + 1) / 2 == pn.len());
        match v {
            SpecVal::Dict(ps) => {
                lemma_walk_top_pairs_enc(ps, rcls, 0, buf, co, 0);
                assert(walk_top(rcls, 0, buf, co, 0, true) == Ok::<_, Error>(rats.len() as nat));
                lemma_build_top_map_enc(ps, rcls, 0, buf, co, 0, pp0);
                assert(v == SpecVal::Dict(ps));
            },
            SpecVal::List(es) => {
                lemma_walk_top_list_enc(es, rcls, 0, buf, co, 0);
                assert(walk_top(rcls, 0, buf, co, 0, false) == Ok::<_, Error>(rats.len() as nat));
                lemma_build_top_list_enc(es, rcls, 0, buf, co, 0, pp0);
                assert(v == SpecVal::List(es));
            },
            _ => {},
        }
    }
}

} // verus!

// ------------------------------------------------------------------
// Size monotonicity: a map that gains an entry encodes strictly larger.
// ------------------------------------------------------------------

verus! {

proof fn lemma_pack_rest_len(cs: Seq<u8>)
    ensures
        pack_rest(cs).len() == (cs.len() + 2) / 3,
    decreases cs.len(),
{
    if cs.len() >= 3 {
        lemma_pack_rest_len(cs.subrange(3, cs.len() as int));
    }
}

/// The classes section takes one byte for up to two classes, then one more
/// for each further three.
proof fn lemma_pack_classes_len(cs: Seq<u8>, m: bool)
    ensures
        cs.len() <= 1 ==> pack_classes(cs, m).len() == 1,
        cs.len() >= 2 ==> pack_classes(cs, m).len() == 1 + cs.len() / 3,
{
    if cs.len() >= 2 {
        lemma_pack_rest_len(cs.subrange(2, cs.len() as int));
        assert((cs.len() - 2 + 2) / 3 == cs.len() / 3);
    }
}

/// Appending one entry appends its streams.
proof fn lemma_pairs_streams_snoc(ps: Seq<(SpecVal, SpecVal)>, entry: (SpecVal, SpecVal))
    ensures
        cls_of_pairs(ps.push(entry)) == cls_of_pairs(ps) + cls_of(entry.1),
        ats_of_pairs(ps.push(entry)) == ats_of_pairs(ps) + atoms(lenval(entry.0)) + ats_of(
            entry.1,
        ),
        pay_of_pairs(ps.push(entry)) == pay_of_pairs(ps) + payload(entry.0) + pay_of(entry.1),
    decreases ps.len(),
{
    let all = ps.push(entry);
    if ps.len() == 0 {
        assert(all[0] == entry);
        assert(all.subrange(1, all.len() as int) =~= Seq::<(SpecVal, SpecVal)>::empty());
        assert(cls_of_pairs(Seq::<(SpecVal, SpecVal)>::empty()) == Seq::<u8>::empty());
        assert(ats_of_pairs(Seq::<(SpecVal, SpecVal)>::empty()) == Seq::<u8>::empty());
        assert(pay_of_pairs(Seq::<(SpecVal, SpecVal)>::empty()) == Seq::<u8>::empty());
        assert(cls_of_pairs(all) =~= cls_of_pairs(ps) + cls_of(entry.1));
        assert(ats_of_pairs(all) =~= ats_of_pairs(ps) + atoms(lenval(entry.0)) + ats_of(entry.1));
        assert(pay_of_pairs(all) =~= pay_of_pairs(ps) + payload(entry.0) + pay_of(entry.1));
    } else {
        let tail = ps.subrange(1, ps.len() as int);
        assert(all.subrange(1, all.len() as int) =~= tail.push(entry));
        lemma_pairs_streams_snoc(tail, entry);
        assert(all[0] == ps[0]);
        assert(cls_of_pairs(all) =~= cls_of_pairs(ps) + cls_of(entry.1));
        assert(ats_of_pairs(all) =~= ats_of_pairs(ps) + atoms(lenval(entry.0)) + ats_of(entry.1));
        assert(pay_of_pairs(all) =~= pay_of_pairs(ps) + payload(entry.0) + pay_of(entry.1));
    }
}

/// Law: adding an entry to a map strictly increases the encoded size. The
/// new entry always costs at least one more lengths byte — a key atom and a
/// value atom — beside whatever classes and payload bytes it brings.
pub proof fn lemma_size_monotonic(ps: Seq<(SpecVal, SpecVal)>, entry: (SpecVal, SpecVal))
    requires
        encodable(SpecVal::Dict(ps.push(entry))),
    ensures
        spec_encode(SpecVal::Dict(ps.push(entry))).len() > spec_encode(SpecVal::Dict(ps)).len(),
{
    let all = ps.push(entry);
    let c1 = cls_of_pairs(ps);
    let a1 = ats_of_pairs(ps);
    let p1 = pay_of_pairs(ps);
    let c2 = cls_of_pairs(all);
    let a2 = ats_of_pairs(all);
    let p2 = pay_of_pairs(all);
    lemma_pairs_streams_snoc(ps, entry);
    lemma_stream_lens(entry.1);
    assert(c2.len() == c1.len() + cls_of(entry.1).len());
    assert(a2.len() >= a1.len() + 2);
    assert(p2.len() >= p1.len());
    lemma_pack_classes_len(c1, true);
    lemma_pack_classes_len(c2, true);
    assert(pack_classes(c2, true).len() >= pack_classes(c1, true).len()) by {
        assert(c2.len() >= c1.len());
        assert(c1.len() >= 2 ==> c1.len() / 3 <= c2.len() / 3);
    }
    lemma_pack_nibbles_len(a1);
    lemma_pack_nibbles_len(a2);
    assert((a2.len() + 1) / 2 >= (a1.len() + 1) / 2 + 1);
    assert(spec_encode(SpecVal::Dict(all)).len() == pack_classes(c2, true).len() + (a2.len() + 1)
        / 2 + p2.len());
    assert(spec_encode(SpecVal::Dict(ps)).len() == pack_classes(c1, true).len() + (a1.len() + 1)
        / 2 + p1.len());
}

} // verus!
