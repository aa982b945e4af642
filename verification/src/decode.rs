use crate::encode::{sint_of_bytes, uint_from};
use crate::object::{valid_utf8, Error, SpecVal};
use vstd::prelude::*;

verus! {

// ------------------------------------------------------------------
// The decoder, specification level.
//
// Decoding is three phases over one buffer: read the packed classes,
// walk the lengths section once to find where the payload starts, then
// walk it again building the tree while consuming payload bytes.
// ------------------------------------------------------------------

/// The four 2-bit fields of a classes byte, highest first.
pub open spec fn classes_split_spec(b: u8) -> (u8, u8, u8, u8) {
    ((b / 64) as u8, (b / 16 % 4) as u8, (b / 4 % 4) as u8, (b % 4) as u8)
}

/// Classes after the first two: groups of up to three per byte, each byte
/// closing with the continuation count for the next.
pub open spec fn spec_unrest(buf: Seq<u8>, pos: nat, k: u8) -> Result<(Seq<u8>, nat), Error>
    decreases buf.len() - pos,
{
    if k == 0 {
        Ok((Seq::empty(), pos))
    } else if pos >= buf.len() {
        Err(Error::TruncatedInput)
    } else {
        let (a, b, c, d) = classes_split_spec(buf[pos as int]);
        if k == 1 {
            Ok((seq![a], pos + 1))
        } else if k == 2 {
            Ok((seq![a, b], pos + 1))
        } else {
            match spec_unrest(buf, pos + 1, d) {
                Ok((s, p)) => Ok((seq![a, b, c] + s, p)),
                Err(e) => Err(e),
            }
        }
    }
}

/// The classes section: the visible-object classes, the root-is-map flag,
/// and how many bytes the section took.
pub open spec fn spec_classes(buf: Seq<u8>) -> Result<(Seq<u8>, bool, nat), Error> {
    if buf.len() == 0 {
        Err(Error::TruncatedInput)
    } else {
        let (fl, c0, c1, k) = classes_split_spec(buf[0]);
        let m = fl % 2 == 1;
        if fl / 2 == 0 && c0 == 0 && c1 == 3 && k == 0 {
            // the reserved empty-collection marker
            Ok((Seq::empty(), m, 1))
        } else if fl / 2 == 0 {
            Ok((seq![c0], m, 1))
        } else {
            match spec_unrest(buf, 1, k) {
                Ok((s, p)) => Ok((seq![c0, c1] + s, m, p)),
                Err(e) => Err(e),
            }
        }
    }
}

/// Nibble `j` of the lengths section that starts at byte `co`: even indices
/// are high nibbles.
pub open spec fn nibble_at(buf: Seq<u8>, co: nat, j: nat) -> u8 {
    if j % 2 == 0 {
        (buf[(co + j / 2) as int] / 16) as u8
    } else {
        (buf[(co + j / 2) as int] % 16) as u8
    }
}

/// Reads one length: 3-bit atoms shifted in until one has its continuation
/// bit clear. Fails on a truncated section or a length that cannot fit the
/// machine word.
pub open spec fn spec_read_len(buf: Seq<u8>, co: nat, j: nat, acc: nat) -> Result<
    (nat, nat),
    Error,
>
    decreases 2 * buf.len() - 2 * co - j,
{
    if co + j / 2 >= buf.len() {
        Err(Error::TruncatedInput)
    } else if acc > usize::MAX as nat / 8 {
        Err(Error::TruncatedInput)
    } else {
        let a = nibble_at(buf, co, j);
        let acc2 = acc * 8 + (a / 2) as nat;
        if a % 2 == 0 {
            Ok((acc2, j + 1))
        } else {
            spec_read_len(buf, co, j + 1, acc2)
        }
    }
}

/// First walk, one object: consume its class and its length atoms, and those
/// of everything under it. Yields the class and nibble cursors after it.
pub open spec fn walk_obj(cs: Seq<u8>, ci: nat, buf: Seq<u8>, co: nat, j: nat) -> Result<
    (nat, nat),
    Error,
>
    decreases 2 * buf.len() - 2 * co - j, 0nat,
{
    if ci >= cs.len() {
        Err(Error::StructuralError)
    } else {
        match spec_read_len(buf, co, j, 0) {
            Err(e) => Err(e),
            Ok((l, j2)) => {
                if j2 <= j || 2 * co + j2 > 2 * buf.len() {
                    Err(Error::TruncatedInput)
                } else {
                    let c = cs[ci as int];
                    if c == 2 {
                        walk_children(cs, ci + 1, buf, co, j2, l / 2, l % 2 == 0)
                    } else if c == 3 {
                        if l > 255 {
                            Err(Error::InvalidDiscriminator)
                        } else {
                            Ok((ci + 1, j2))
                        }
                    } else {
                        Ok((ci + 1, j2))
                    }
                }
            },
        }
    }
}

/// First walk, the `cnt` children of a collection; a map child is a key
/// (one length, no class) followed by a value object.
pub open spec fn walk_children(
    cs: Seq<u8>,
    ci: nat,
    buf: Seq<u8>,
    co: nat,
    j: nat,
    cnt: nat,
    is_map: bool,
) -> Result<(nat, nat), Error>
    decreases 2 * buf.len() - 2 * co - j, cnt,
{
    if cnt == 0 {
        Ok((ci, j))
    } else if is_map {
        match spec_read_len(buf, co, j, 0) {
            Err(e) => Err(e),
            Ok((kl, j2)) => {
                if j2 <= j || 2 * co + j2 > 2 * buf.len() {
                    Err(Error::TruncatedInput)
                } else {
                    match walk_obj(cs, ci, buf, co, j2) {
                        Err(e) => Err(e),
                        Ok((ci3, j3)) => {
                            if j3 <= j2 || 2 * co + j3 > 2 * buf.len() {
                                Err(Error::TruncatedInput)
                            } else {
                                walk_children(cs, ci3, buf, co, j3, (cnt - 1) as nat, true)
                            }
                        },
                    }
                }
            },
        }
    } else {
        match walk_obj(cs, ci, buf, co, j) {
            Err(e) => Err(e),
            Ok((ci2, j2)) => {
                if j2 <= j || 2 * co + j2 > 2 * buf.len() {
                    Err(Error::TruncatedInput)
                } else {
                    walk_children(cs, ci2, buf, co, j2, (cnt - 1) as nat, false)
                }
            },
        }
    }
}

/// First walk, the whole message body: objects (with keys interleaved when
/// the root is a map) until every class is consumed. Yields the final nibble
/// cursor, which places the payload section.
pub open spec fn walk_top(cs: Seq<u8>, ci: nat, buf: Seq<u8>, co: nat, j: nat, is_map: bool) -> Result<
    nat,
    Error,
>
    decreases cs.len() - ci,
{
    if ci >= cs.len() {
        Ok(j)
    } else if is_map {
        match spec_read_len(buf, co, j, 0) {
            Err(e) => Err(e),
            Ok((kl, j2)) => match walk_obj(cs, ci, buf, co, j2) {
                Err(e) => Err(e),
                Ok((ci3, j3)) => {
                    if ci3 <= ci || ci3 > cs.len() {
                        Err(Error::StructuralError)
                    } else {
                        walk_top(cs, ci3, buf, co, j3, true)
                    }
                },
            },
        }
    } else {
        match walk_obj(cs, ci, buf, co, j) {
            Err(e) => Err(e),
            Ok((ci2, j2)) => {
                if ci2 <= ci || ci2 > cs.len() {
                    Err(Error::StructuralError)
                } else {
                    walk_top(cs, ci2, buf, co, j2, false)
                }
            },
        }
    }
}

/// The unsigned value of 4 big-endian bytes.
pub open spec fn u32_be_val(s: Seq<u8>) -> u32 {
    (s[0] * 0x1000000 + s[1] * 0x10000 + s[2] * 0x100 + s[3]) as u32
}

/// The unsigned value of 8 big-endian bytes.
pub open spec fn u64_be_val(s: Seq<u8>) -> u64 {
    (s[0] * 0x100000000000000 + s[1] * 0x1000000000000 + s[2] * 0x10000000000 + s[3] * 0x100000000
        + s[4] * 0x1000000 + s[5] * 0x10000 + s[6] * 0x100 + s[7]) as u64
}

/// Second walk, one object: read its class and length again, slice its
/// payload at `pp`, and build the value. Yields the three cursors after it.
pub open spec fn build_obj(cs: Seq<u8>, ci: nat, buf: Seq<u8>, co: nat, j: nat, pp: nat) -> Result<
    (SpecVal, nat, nat, nat),
    Error,
>
    decreases 2 * buf.len() - 2 * co - j, 0nat,
{
    if ci >= cs.len() {
        Err(Error::StructuralError)
    } else {
        match spec_read_len(buf, co, j, 0) {
            Err(e) => Err(e),
            Ok((l, j2)) => {
                if j2 <= j || 2 * co + j2 > 2 * buf.len() {
                    Err(Error::TruncatedInput)
                } else {
                    let c = cs[ci as int];
                    if c == 0 {
                        if pp + l > buf.len() {
                            Err(Error::TruncatedInput)
                        } else if !valid_utf8(buf.subrange(pp as int, (pp + l) as int)) {
                            Err(Error::InvalidUtf8)
                        } else {
                            Ok(
                                (
                                    SpecVal::Str(buf.subrange(pp as int, (pp + l) as int)),
                                    ci + 1,
                                    j2,
                                    pp + l,
                                ),
                            )
                        }
                    } else if c == 1 {
                        if pp + l > buf.len() {
                            Err(Error::TruncatedInput)
                        } else {
                            Ok(
                                (
                                    SpecVal::Bytes(buf.subrange(pp as int, (pp + l) as int)),
                                    ci + 1,
                                    j2,
                                    pp + l,
                                ),
                            )
                        }
                    } else if c == 2 {
                        if l % 2 == 1 {
                            match build_list_n(cs, ci + 1, buf, co, j2, pp, l / 2) {
                                Err(e) => Err(e),
                                Ok((es, ci3, j3, pp3)) => Ok((SpecVal::List(es), ci3, j3, pp3)),
                            }
                        } else {
                            match build_pairs_n(cs, ci + 1, buf, co, j2, pp, l / 2) {
                                Err(e) => Err(e),
                                Ok((ps, ci3, j3, pp3)) => Ok((SpecVal::Dict(ps), ci3, j3, pp3)),
                            }
                        }
                    } else {
                        match build_fixed(buf, l, pp) {
                            Err(e) => Err(e),
                            Ok((v, pp2)) => Ok((v, ci + 1, j2, pp2)),
                        }
                    }
                }
            },
        }
    }
}

/// A fixed-class value: the length field is a sub-type discriminator, and
/// the payload size follows from it.
pub open spec fn build_fixed(buf: Seq<u8>, l: nat, pp: nat) -> Result<(SpecVal, nat), Error> {
    if l <= 16 {
        if pp + l > buf.len() {
            Err(Error::TruncatedInput)
        } else {
            Ok((SpecVal::SInt(sint_of_bytes(buf.subrange(pp as int, (pp + l) as int))), pp + l))
        }
    } else if l <= 32 {
        if pp + (l - 16) > buf.len() {
            Err(Error::TruncatedInput)
        } else {
            Ok(
                (
                    SpecVal::UInt(uint_from(buf.subrange(pp as int, (pp + (l - 16)) as int))),
                    (pp + (l - 16)) as nat,
                ),
            )
        }
    } else if l == 33 {
        if pp + 4 > buf.len() {
            Err(Error::TruncatedInput)
        } else {
            Ok((SpecVal::Float32(u32_be_val(buf.subrange(pp as int, (pp + 4) as int))), pp + 4))
        }
    } else if l == 34 {
        if pp + 8 > buf.len() {
            Err(Error::TruncatedInput)
        } else {
            Ok((SpecVal::Float64(u64_be_val(buf.subrange(pp as int, (pp + 8) as int))), pp + 8))
        }
    } else if l == 35 {
        Ok((SpecVal::Null, pp))
    } else if l == 36 {
        Ok((SpecVal::Bool(false), pp))
    } else if l == 37 {
        Ok((SpecVal::Bool(true), pp))
    } else if l == 38 {
        if pp + 4 > buf.len() {
            Err(Error::TruncatedInput)
        } else {
            Ok((SpecVal::Timestamp32(u32_be_val(buf.subrange(pp as int, (pp + 4) as int))), pp + 4))
        }
    } else if l <= 255 {
        // a user-defined blob carries exactly `id` payload bytes
        if pp + l > buf.len() {
            Err(Error::TruncatedInput)
        } else {
            Ok(
                (
                    SpecVal::UserDefined(l as u8, buf.subrange(pp as int, (pp + l) as int)),
                    pp + l,
                ),
            )
        }
    } else {
        Err(Error::InvalidDiscriminator)
    }
}

/// Second walk, the `cnt` entries of a map: each a key string (length from
/// the atoms, class implied) and a value object.
pub open spec fn build_pairs_n(
    cs: Seq<u8>,
    ci: nat,
    buf: Seq<u8>,
    co: nat,
    j: nat,
    pp: nat,
    cnt: nat,
) -> Result<(Seq<(SpecVal, SpecVal)>, nat, nat, nat), Error>
    decreases 2 * buf.len() - 2 * co - j, cnt,
{
    if cnt == 0 {
        Ok((Seq::empty(), ci, j, pp))
    } else {
        match spec_read_len(buf, co, j, 0) {
            Err(e) => Err(e),
            Ok((kl, j2)) => {
                if j2 <= j || 2 * co + j2 > 2 * buf.len() {
                    Err(Error::TruncatedInput)
                } else if pp + kl > buf.len() {
                    Err(Error::TruncatedInput)
                } else if !valid_utf8(buf.subrange(pp as int, (pp + kl) as int)) {
                    Err(Error::InvalidUtf8)
                } else {
                    let key = SpecVal::Str(buf.subrange(pp as int, (pp + kl) as int));
                    match build_obj(cs, ci, buf, co, j2, pp + kl) {
                        Err(e) => Err(e),
                        Ok((v, ci3, j3, pp3)) => {
                            if j3 <= j2 || 2 * co + j3 > 2 * buf.len() {
                                Err(Error::TruncatedInput)
                            } else {
                                match build_pairs_n(cs, ci3, buf, co, j3, pp3, (cnt - 1) as nat) {
                                    Err(e) => Err(e),
                                    Ok((rest, ci4, j4, pp4)) => Ok(
                                        (seq![(key, v)] + rest, ci4, j4, pp4),
                                    ),
                                }
                            }
                        },
                    }
                }
            },
        }
    }
}

/// Second walk, the `cnt` elements of a list.
pub open spec fn build_list_n(
    cs: Seq<u8>,
    ci: nat,
    buf: Seq<u8>,
    co: nat,
    j: nat,
    pp: nat,
    cnt: nat,
) -> Result<(Seq<SpecVal>, nat, nat, nat), Error>
    decreases 2 * buf.len() - 2 * co - j, cnt,
{
    if cnt == 0 {
        Ok((Seq::empty(), ci, j, pp))
    } else {
        match build_obj(cs, ci, buf, co, j, pp) {
            Err(e) => Err(e),
            Ok((v, ci2, j2, pp2)) => {
                if j2 <= j || 2 * co + j2 > 2 * buf.len() {
                    Err(Error::TruncatedInput)
                } else {
                    match build_list_n(cs, ci2, buf, co, j2, pp2, (cnt - 1) as nat) {
                        Err(e) => Err(e),
                        Ok((rest, ci3, j3, pp3)) => Ok((seq![v] + rest, ci3, j3, pp3)),
                    }
                }
            },
        }
    }
}

/// Second walk, the body of a root map: entries until the classes run out.
pub open spec fn build_top_map(cs: Seq<u8>, ci: nat, buf: Seq<u8>, co: nat, j: nat, pp: nat) -> Result<
    Seq<(SpecVal, SpecVal)>,
    Error,
>
    decreases cs.len() - ci,
{
    if ci >= cs.len() {
        Ok(Seq::empty())
    } else {
        match spec_read_len(buf, co, j, 0) {
            Err(e) => Err(e),
            Ok((kl, j2)) => {
                if pp + kl > buf.len() {
                    Err(Error::TruncatedInput)
                } else if !valid_utf8(buf.subrange(pp as int, (pp + kl) as int)) {
                    Err(Error::InvalidUtf8)
                } else {
                    let key = SpecVal::Str(buf.subrange(pp as int, (pp + kl) as int));
                    match build_obj(cs, ci, buf, co, j2, pp + kl) {
                        Err(e) => Err(e),
                        Ok((v, ci3, j3, pp3)) => {
                            if ci3 <= ci || ci3 > cs.len() {
                                Err(Error::StructuralError)
                            } else {
                                match build_top_map(cs, ci3, buf, co, j3, pp3) {
                                    Err(e) => Err(e),
                                    Ok(rest) => Ok(seq![(key, v)] + rest),
                                }
                            }
                        },
                    }
                }
            },
        }
    }
}

/// Second walk, the body of a root list: elements until the classes run out.
pub open spec fn build_top_list(cs: Seq<u8>, ci: nat, buf: Seq<u8>, co: nat, j: nat, pp: nat) -> Result<
    Seq<SpecVal>,
    Error,
>
    decreases cs.len() - ci,
{
    if ci >= cs.len() {
        Ok(Seq::empty())
    } else {
        match build_obj(cs, ci, buf, co, j, pp) {
            Err(e) => Err(e),
            Ok((v, ci2, j2, pp2)) => {
                if ci2 <= ci || ci2 > cs.len() {
                    Err(Error::StructuralError)
                } else {
                    match build_top_list(cs, ci2, buf, co, j2, pp2) {
                        Err(e) => Err(e),
                        Ok(rest) => Ok(seq![v] + rest),
                    }
                }
            },
        }
    }
}

/// The decoded value of a whole message: classes, then the placing walk,
/// then the building walk. Map keys come back as strings in entry order;
/// every string payload, key or value, must be well-formed UTF-8.
pub open spec fn spec_decode(buf: Seq<u8>) -> Result<SpecVal, Error> {
    match spec_classes(buf) {
        Err(e) => Err(e),
        Ok((cs, m, co)) => {
            if cs.len() == 0 {
                if m {
                    Ok(SpecVal::Dict(Seq::empty()))
                } else {
                    Ok(SpecVal::List(Seq::empty()))
                }
            } else {
                match walk_top(cs, 0, buf, co, 0, m) {
                    Err(e) => Err(e),
                    Ok(jt) => {
                        let pp0 = co + (jt + 1) / 2;
                        if m {
                            match build_top_map(cs, 0, buf, co, 0, pp0) {
                                Err(e) => Err(e),
                                Ok(ps) => Ok(SpecVal::Dict(ps)),
                            }
                        } else {
                            match build_top_list(cs, 0, buf, co, 0, pp0) {
                                Err(e) => Err(e),
                                Ok(es) => Ok(SpecVal::List(es)),
                            }
                        }
                    },
                }
            }
        },
    }
}

} // verus!

// ------------------------------------------------------------------
// The decoder, executable level. Each function returns exactly what its
// specification counterpart denotes. The nibble cursor is carried as a
// byte position and a low/high flag.
// ------------------------------------------------------------------

verus! {

use crate::object::Object;

/// The nibble index denoted by a cursor standing at byte `pos` (low half
/// if `lo`) of a lengths section that begins at byte `co`.
pub open spec fn cur_j(pos: usize, lo: bool, co: nat) -> nat {
    (2 * (pos - co) + if lo {
        1int
    } else {
        0int
    }) as nat
}

/// A length read that succeeds leaves the cursor strictly ahead, inside the
/// buffer, and yields a value that fits the machine word.
proof fn lemma_read_len_props(buf: Seq<u8>, co: nat, j: nat, acc: nat)
    ensures
        spec_read_len(buf, co, j, acc) is Ok ==> {
            let (l, j2) = spec_read_len(buf, co, j, acc)->Ok_0;
            j < j2 && 2 * co + j2 <= 2 * buf.len() && l <= usize::MAX as nat
        },
    decreases 2 * buf.len() - 2 * co - j,
{
    if co + j / 2 < buf.len() && acc <= usize::MAX as nat / 8 {
        let a = nibble_at(buf, co, j);
        if a % 2 != 0 {
            lemma_read_len_props(buf, co, j + 1, acc * 8 + (a / 2) as nat);
        }
    }
}

/// Splits a classes byte into its four 2-bit fields, highest first.
pub fn classes_split(byte: u8) -> (r: (u8, u8, u8, u8))
    ensures
        r == classes_split_spec(byte),
{
    (byte / 64, byte / 16 % 4, byte / 4 % 4, byte % 4)
}

/// Reads the classes section: the visible-object classes, the root-is-map
/// flag, and the count of bytes consumed.
pub fn decode_classes_section(buf: &Vec<u8>) -> (r: Result<(Vec<u8>, bool, usize), Error>)
    ensures
        match r {
            Ok((cs, m, co)) => spec_classes(buf@) == Ok::<_, Error>((cs@, m, co as nat)) && co
                <= buf@.len(),
            Err(e) => spec_classes(buf@) == Err::<(Seq<u8>, bool, nat), _>(e),
        },
{
    if buf.len() == 0 {
        return Err(Error::TruncatedInput);
    }
    let (fl, c0, c1, k0) = classes_split(buf[0]);
    let m = fl % 2 == 1;
    if fl / 2 == 0 && c0 == 0 && c1 == 3 && k0 == 0 {
        return Ok((Vec::new(), m, 1));
    }
    if fl / 2 == 0 {
        let mut cs: Vec<u8> = Vec::new();
        cs.push(c0);
        proof {
            assert(cs@ =~= seq![c0]);
        }
        return Ok((cs, m, 1));
    }
    let mut cs: Vec<u8> = Vec::new();
    cs.push(c0);
    cs.push(c1);
    let mut k = k0;
    let mut pos: usize = 1;
    proof {
        assert(cs@ =~= seq![c0, c1]);
    }
    while k > 0
        invariant
            k < 4,
            1 <= pos,
            buf@.len() >= 1,
            match spec_unrest(buf@, pos as nat, k) {
                Ok((s, p)) => spec_classes(buf@) == Ok::<_, Error>((cs@ + s, m, p)),
                Err(e) => spec_classes(buf@) == Err::<(Seq<u8>, bool, nat), _>(e),
            },
            pos <= buf@.len(),
        decreases buf@.len() - pos, k,
    {
        if pos >= buf.len() {
            return Err(Error::TruncatedInput);
        }
        let (a, b, c, d) = classes_split(buf[pos]);
        let ghost cs_pre = cs@;
        if k == 1 {
            cs.push(a);
            pos = pos + 1;
            k = 0;
            proof {
                assert(cs@ =~= cs_pre + seq![a]);
            }
        } else if k == 2 {
            cs.push(a);
            cs.push(b);
            pos = pos + 1;
            k = 0;
            proof {
                assert(cs@ =~= cs_pre + seq![a, b]);
            }
        } else {
            cs.push(a);
            cs.push(b);
            cs.push(c);
            pos = pos + 1;
            k = d;
            proof {
                assert(cs@ + spec_unrest(buf@, pos as nat, k)->Ok_0.0 =~= cs_pre + (seq![a, b, c]
                    + spec_unrest(buf@, pos as nat, k)->Ok_0.0));
            }
        }
    }
    proof {
        assert(spec_unrest(buf@, pos as nat, 0) == Ok::<_, Error>((Seq::<u8>::empty(), pos as nat)));
        assert(cs@ + Seq::<u8>::empty() =~= cs@);
    }
    Ok((cs, m, pos))
}

/// Reads one length from the atom stream, continuing from `acc`.
fn next_len_acc(buf: &Vec<u8>, co: usize, pos: usize, lo: bool, acc: usize) -> (r: Result<
    (usize, usize, bool),
    Error,
>)
    requires
        co <= pos,
    ensures
        match r {
            Ok((l, pos2, lo2)) => co <= pos2 && spec_read_len(
                buf@,
                co as nat,
                cur_j(pos, lo, co as nat),
                acc as nat,
            ) == Ok::<_, Error>((l as nat, cur_j(pos2, lo2, co as nat))),
            Err(e) => spec_read_len(buf@, co as nat, cur_j(pos, lo, co as nat), acc as nat)
                == Err::<(nat, nat), _>(e),
        },
    decreases 2 * buf@.len() - 2 * (pos - co) - (if lo {
        1int
    } else {
        0int
    }),
{
    if pos >= buf.len() {
        return Err(Error::TruncatedInput);
    }
    if acc > usize::MAX / 8 {
        return Err(Error::TruncatedInput);
    }
    let byte = buf[pos];
    let nib: u8 = if !lo {
        byte / 16
    } else {
        byte % 16
    };
    let (pos2, lo2) = if !lo {
        (pos, true)
    } else {
        (pos + 1, false)
    };
    let acc2: usize = acc * 8 + (nib / 2) as usize;
    proof {
        assert(nibble_at(buf@, co as nat, cur_j(pos, lo, co as nat)) == nib);
        assert(cur_j(pos2, lo2, co as nat) == cur_j(pos, lo, co as nat) + 1);
    }
    if nib % 2 == 0 {
        Ok((acc2, pos2, lo2))
    } else {
        next_len_acc(buf, co, pos2, lo2, acc2)
    }
}

/// Reads the next length from the atom stream.
fn next_len(buf: &Vec<u8>, co: usize, pos: usize, lo: bool) -> (r: Result<
    (usize, usize, bool),
    Error,
>)
    requires
        co <= pos,
    ensures
        match r {
            Ok((l, pos2, lo2)) => co <= pos2 && spec_read_len(
                buf@,
                co as nat,
                cur_j(pos, lo, co as nat),
                0,
            ) == Ok::<_, Error>((l as nat, cur_j(pos2, lo2, co as nat))) && cur_j(pos, lo, co as nat)
                < cur_j(pos2, lo2, co as nat) && 2 * co + cur_j(pos2, lo2, co as nat) <= 2
                * buf@.len(),
            Err(e) => spec_read_len(buf@, co as nat, cur_j(pos, lo, co as nat), 0) == Err::<
                (nat, nat),
                _,
            >(e),
        },
{
    let r = next_len_acc(buf, co, pos, lo, 0);
    proof {
        lemma_read_len_props(buf@, co as nat, cur_j(pos, lo, co as nat), 0);
    }
    r
}

} // verus!

verus! {

/// First walk, one object (executable twin of `walk_obj`).
fn scan_object(cs: &Vec<u8>, ci: usize, buf: &Vec<u8>, co: usize, pos: usize, lo: bool) -> (r:
    Result<(usize, usize, bool), Error>)
    requires
        co <= pos,
        2 * co + cur_j(pos, lo, co as nat) <= 2 * buf@.len(),
        ci <= cs@.len(),
    ensures
        match r {
            Ok((ci2, pos2, lo2)) => walk_obj(
                cs@,
                ci as nat,
                buf@,
                co as nat,
                cur_j(pos, lo, co as nat),
            ) == Ok::<_, Error>((ci2 as nat, cur_j(pos2, lo2, co as nat))) && co <= pos2 && 2 * co
                + cur_j(pos2, lo2, co as nat) <= 2 * buf@.len() && ci < ci2 && ci2 <= cs@.len()
                && cur_j(pos, lo, co as nat) < cur_j(pos2, lo2, co as nat),
            Err(e) => walk_obj(cs@, ci as nat, buf@, co as nat, cur_j(pos, lo, co as nat)) == Err::<
                (nat, nat),
                _,
            >(e),
        },
    decreases 2 * buf@.len() - 2 * (pos - co) - (if lo {
        1int
    } else {
        0int
    }), 0int,
{
    if ci >= cs.len() {
        return Err(Error::StructuralError);
    }
    let (l, pos2, lo2) = match next_len(buf, co, pos, lo) {
        Ok(x) => x,
        Err(e) => {
            return Err(e);
        },
    };
    let c = cs[ci];
    if c == 2 {
        scan_children(cs, ci + 1, buf, co, pos2, lo2, l / 2, l % 2 == 0)
    } else if c == 3 {
        if l > 255 {
            Err(Error::InvalidDiscriminator)
        } else {
            Ok((ci + 1, pos2, lo2))
        }
    } else {
        Ok((ci + 1, pos2, lo2))
    }
}

/// First walk, the children of a collection (executable twin of
/// `walk_children`).
fn scan_children(
    cs: &Vec<u8>,
    ci: usize,
    buf: &Vec<u8>,
    co: usize,
    pos: usize,
    lo: bool,
    cnt: usize,
    is_map: bool,
) -> (r: Result<(usize, usize, bool), Error>)
    requires
        co <= pos,
        2 * co + cur_j(pos, lo, co as nat) <= 2 * buf@.len(),
        ci <= cs@.len(),
    ensures
        match r {
            Ok((ci2, pos2, lo2)) => walk_children(
                cs@,
                ci as nat,
                buf@,
                co as nat,
                cur_j(pos, lo, co as nat),
                cnt as nat,
                is_map,
            ) == Ok::<_, Error>((ci2 as nat, cur_j(pos2, lo2, co as nat))) && co <= pos2 && 2 * co
                + cur_j(pos2, lo2, co as nat) <= 2 * buf@.len() && ci <= ci2 && ci2 <= cs@.len()
                && cur_j(pos, lo, co as nat) <= cur_j(pos2, lo2, co as nat),
            Err(e) => walk_children(
                cs@,
                ci as nat,
                buf@,
                co as nat,
                cur_j(pos, lo, co as nat),
                cnt as nat,
                is_map,
            ) == Err::<(nat, nat), _>(e),
        },
    decreases 2 * buf@.len() - 2 * (pos - co) - (if lo {
        1int
    } else {
        0int
    }), cnt as int,
{
    let mut cur_ci = ci;
    let mut cur_pos = pos;
    let mut cur_lo = lo;
    let mut t: usize = 0;
    while t < cnt
        invariant
            t <= cnt,
            co <= cur_pos,
            2 * co + cur_j(cur_pos, cur_lo, co as nat) <= 2 * buf@.len(),
            ci <= cur_ci,
            cur_ci <= cs@.len(),
            t == 0 ==> cur_pos == pos && cur_lo == lo && cur_ci == ci,
            t > 0 ==> cur_j(pos, lo, co as nat) < cur_j(cur_pos, cur_lo, co as nat),
            cur_j(pos, lo, co as nat) <= cur_j(cur_pos, cur_lo, co as nat),
            walk_children(
                cs@,
                ci as nat,
                buf@,
                co as nat,
                cur_j(pos, lo, co as nat),
                cnt as nat,
                is_map,
            ) == walk_children(
                cs@,
                cur_ci as nat,
                buf@,
                co as nat,
                cur_j(cur_pos, cur_lo, co as nat),
                (cnt - t) as nat,
                is_map,
            ),
        decreases cnt - t,
    {
        if is_map {
            let (kl, kpos, klo) = match next_len(buf, co, cur_pos, cur_lo) {
                Ok(x) => x,
                Err(e) => {
                    return Err(e);
                },
            };
            let (ci3, pos3, lo3) = match scan_object(cs, cur_ci, buf, co, kpos, klo) {
                Ok(x) => x,
                Err(e) => {
                    return Err(e);
                },
            };
            cur_ci = ci3;
            cur_pos = pos3;
            cur_lo = lo3;
        } else {
            let (ci2, pos2, lo2) = match scan_object(cs, cur_ci, buf, co, cur_pos, cur_lo) {
                Ok(x) => x,
                Err(e) => {
                    return Err(e);
                },
            };
            cur_ci = ci2;
            cur_pos = pos2;
            cur_lo = lo2;
        }
        t = t + 1;
    }
    Ok((cur_ci, cur_pos, cur_lo))
}

/// First walk over the whole message body: finds the nibble cursor at which
/// the lengths section ends.
fn scan_top(cs: &Vec<u8>, buf: &Vec<u8>, co: usize, is_map: bool) -> (r: Result<
    (usize, bool),
    Error,
>)
    requires
        co <= buf@.len(),
    ensures
        match r {
            Ok((pos2, lo2)) => walk_top(cs@, 0, buf@, co as nat, 0, is_map) == Ok::<_, Error>(
                cur_j(pos2, lo2, co as nat),
            ) && co <= pos2 && 2 * co + cur_j(pos2, lo2, co as nat) <= 2 * buf@.len(),
            Err(e) => walk_top(cs@, 0, buf@, co as nat, 0, is_map) == Err::<nat, _>(e),
        },
{
    let mut cur_ci: usize = 0;
    let mut cur_pos = co;
    let mut cur_lo = false;
    while cur_ci < cs.len()
        invariant
            co <= cur_pos,
            2 * co + cur_j(cur_pos, cur_lo, co as nat) <= 2 * buf@.len(),
            cur_ci <= cs@.len(),
            walk_top(cs@, 0, buf@, co as nat, 0, is_map) == walk_top(
                cs@,
                cur_ci as nat,
                buf@,
                co as nat,
                cur_j(cur_pos, cur_lo, co as nat),
                is_map,
            ),
        decreases cs@.len() - cur_ci,
    {
        if is_map {
            let (kl, kpos, klo) = match next_len(buf, co, cur_pos, cur_lo) {
                Ok(x) => x,
                Err(e) => {
                    return Err(e);
                },
            };
            let (ci3, pos3, lo3) = match scan_object(cs, cur_ci, buf, co, kpos, klo) {
                Ok(x) => x,
                Err(e) => {
                    return Err(e);
                },
            };
            cur_ci = ci3;
            cur_pos = pos3;
            cur_lo = lo3;
        } else {
            let (ci2, pos2, lo2) = match scan_object(cs, cur_ci, buf, co, cur_pos, cur_lo) {
                Ok(x) => x,
                Err(e) => {
                    return Err(e);
                },
            };
            cur_ci = ci2;
            cur_pos = pos2;
            cur_lo = lo2;
        }
    }
    Ok((cur_pos, cur_lo))
}

} // verus!

verus! {

use crate::encode::{sint_from_bytes, uint_from_bytes};
use crate::object::{
    check_utf8, deep_view_list, deep_view_pairs, lemma_deep_view_list_push,
    lemma_deep_view_pairs_push,
};

/// Copies `n` payload bytes starting at `start`.
fn copy_range(buf: &Vec<u8>, start: usize, n: usize) -> (r: Vec<u8>)
    requires
        start + n <= buf@.len(),
    ensures
        r@ == buf@.subrange(start as int, (start + n) as int),
{
    let mut out: Vec<u8> = Vec::new();
    proof {
        assert(buf.len() == buf@.len());
        assert(out@ =~= buf@.subrange(start as int, start as int));
    }
    let mut i: usize = 0;
    while i < n
        invariant
            i <= n,
            start + n <= buf@.len(),
            buf@.len() <= usize::MAX,
            out@ == buf@.subrange(start as int, (start + i) as int),
        decreases n - i,
    {
        out.push(buf[start + i]);
        proof {
            assert(out@ =~= buf@.subrange(start as int, (start + i + 1) as int));
        }
        i = i + 1;
    }
    out
}

/// Reads 4 big-endian payload bytes as a 32-bit value.
fn read_u32_be(buf: &Vec<u8>, pp: usize) -> (r: u32)
    requires
        pp + 4 <= buf@.len(),
    ensures
        r == u32_be_val(buf@.subrange(pp as int, (pp + 4) as int)),
{
    proof {
        assert(buf.len() == buf@.len());
    }
    (buf[pp] as u32) * 0x1000000 + (buf[pp + 1] as u32) * 0x10000 + (buf[pp + 2] as u32) * 0x100
        + (buf[pp + 3] as u32)
}

/// Reads 8 big-endian payload bytes as a 64-bit value.
fn read_u64_be(buf: &Vec<u8>, pp: usize) -> (r: u64)
    requires
        pp + 8 <= buf@.len(),
    ensures
        r == u64_be_val(buf@.subrange(pp as int, (pp + 8) as int)),
{
    proof {
        assert(buf.len() == buf@.len());
    }
    (buf[pp] as u64) * 0x100000000000000 + (buf[pp + 1] as u64) * 0x1000000000000 + (buf[pp
        + 2] as u64) * 0x10000000000 + (buf[pp + 3] as u64) * 0x100000000 + (buf[pp + 4] as u64)
        * 0x1000000 + (buf[pp + 5] as u64) * 0x10000 + (buf[pp + 6] as u64) * 0x100 + (buf[pp
        + 7] as u64)
}

/// Builds one fixed-class value from its discriminator and payload.
fn read_fixed(buf: &Vec<u8>, l: usize, pp: usize) -> (r: Result<(Object, usize), Error>)
    requires
        pp <= buf@.len(),
    ensures
        match r {
            Ok((v, pp2)) => build_fixed(buf@, l as nat, pp as nat) == Ok::<_, Error>(
                (v@, pp2 as nat),
            ) && pp <= pp2 <= buf@.len(),
            Err(e) => build_fixed(buf@, l as nat, pp as nat) == Err::<(SpecVal, nat), _>(e),
        },
{
    if l <= 16 {
        if l > buf.len() - pp {
            Err(Error::TruncatedInput)
        } else {
            let sb = copy_range(buf, pp, l);
            Ok((Object::sint(sint_from_bytes(sb.as_slice())), pp + l))
        }
    } else if l <= 32 {
        let n = l - 16;
        if n > buf.len() - pp {
            Err(Error::TruncatedInput)
        } else {
            let ub = copy_range(buf, pp, n);
            Ok((Object::uint(uint_from_bytes(ub.as_slice())), pp + n))
        }
    } else if l == 33 {
        if 4 > buf.len() - pp {
            Err(Error::TruncatedInput)
        } else {
            Ok((Object::float32(read_u32_be(buf, pp)), pp + 4))
        }
    } else if l == 34 {
        if 8 > buf.len() - pp {
            Err(Error::TruncatedInput)
        } else {
            Ok((Object::float64(read_u64_be(buf, pp)), pp + 8))
        }
    } else if l == 35 {
        Ok((Object::null(), pp))
    } else if l == 36 {
        Ok((Object::bool(false), pp))
    } else if l == 37 {
        Ok((Object::bool(true), pp))
    } else if l == 38 {
        if 4 > buf.len() - pp {
            Err(Error::TruncatedInput)
        } else {
            Ok((Object::timestamp32(read_u32_be(buf, pp)), pp + 4))
        }
    } else if l <= 255 {
        if l > buf.len() - pp {
            Err(Error::TruncatedInput)
        } else {
            let data = copy_range(buf, pp, l);
            Ok((Object::user_defined(l as u8, data), pp + l))
        }
    } else {
        Err(Error::InvalidDiscriminator)
    }
}

/// Second walk, one object (executable twin of `build_obj`).
#[verifier::rlimit(50)]
fn read_object(
    cs: &Vec<u8>,
    ci: usize,
    buf: &Vec<u8>,
    co: usize,
    pos: usize,
    lo: bool,
    pp: usize,
) -> (r: Result<(Object, usize, usize, bool, usize), Error>)
    requires
        co <= pos,
        2 * co + cur_j(pos, lo, co as nat) <= 2 * buf@.len(),
        ci <= cs@.len(),
        pp <= buf@.len(),
    ensures
        match r {
            Ok((v, ci2, pos2, lo2, pp2)) => build_obj(
                cs@,
                ci as nat,
                buf@,
                co as nat,
                cur_j(pos, lo, co as nat),
                pp as nat,
            ) == Ok::<_, Error>((v@, ci2 as nat, cur_j(pos2, lo2, co as nat), pp2 as nat)) && co
                <= pos2 && 2 * co + cur_j(pos2, lo2, co as nat) <= 2 * buf@.len() && ci < ci2 && ci2
                <= cs@.len() && pp <= pp2 <= buf@.len() && cur_j(pos, lo, co as nat) < cur_j(
                pos2,
                lo2,
                co as nat,
            ),
            Err(e) => build_obj(
                cs@,
                ci as nat,
                buf@,
                co as nat,
                cur_j(pos, lo, co as nat),
                pp as nat,
            ) == Err::<(SpecVal, nat, nat, nat), _>(e),
        },
    decreases 2 * buf@.len() - 2 * (pos - co) - (if lo {
        1int
    } else {
        0int
    }), 0int,
{
    if ci >= cs.len() {
        return Err(Error::StructuralError);
    }
    let (l, pos2, lo2) = match next_len(buf, co, pos, lo) {
        Ok(x) => x,
        Err(e) => {
            return Err(e);
        },
    };
    let c = cs[ci];
    if c == 0 {
        if l > buf.len() - pp {
            Err(Error::TruncatedInput)
        } else {
            let s = copy_range(buf, pp, l);
            if !check_utf8(&s) {
                Err(Error::InvalidUtf8)
            } else {
                Ok((Object::string(s), ci + 1, pos2, lo2, pp + l))
            }
        }
    } else if c == 1 {
        if l > buf.len() - pp {
            Err(Error::TruncatedInput)
        } else {
            let b = copy_range(buf, pp, l);
            Ok((Object::bytes(b), ci + 1, pos2, lo2, pp + l))
        }
    } else if c == 2 {
        if l % 2 == 1 {
            match read_elements(cs, ci + 1, buf, co, pos2, lo2, pp, l / 2) {
                Ok((es, ci3, pos3, lo3, pp3)) => Ok((Object::list(es), ci3, pos3, lo3, pp3)),
                Err(e) => Err(e),
            }
        } else {
            match read_pairs(cs, ci + 1, buf, co, pos2, lo2, pp, l / 2) {
                Ok((ps, ci3, pos3, lo3, pp3)) => Ok((Object::map(ps), ci3, pos3, lo3, pp3)),
                Err(e) => Err(e),
            }
        }
    } else {
        match read_fixed(buf, l, pp) {
            Ok((v, pp2)) => Ok((v, ci + 1, pos2, lo2, pp2)),
            Err(e) => Err(e),
        }
    }
}

/// Second walk, the entries of a map (executable twin of `build_pairs_n`).
#[verifier::rlimit(50)]
fn read_pairs(
    cs: &Vec<u8>,
    ci: usize,
    buf: &Vec<u8>,
    co: usize,
    pos: usize,
    lo: bool,
    pp: usize,
    cnt: usize,
) -> (r: Result<(Vec<(Object, Object)>, usize, usize, bool, usize), Error>)
    requires
        co <= pos,
        2 * co + cur_j(pos, lo, co as nat) <= 2 * buf@.len(),
        ci <= cs@.len(),
        pp <= buf@.len(),
    ensures
        match r {
            Ok((ps, ci2, pos2, lo2, pp2)) => build_pairs_n(
                cs@,
                ci as nat,
                buf@,
                co as nat,
                cur_j(pos, lo, co as nat),
                pp as nat,
                cnt as nat,
            ) == Ok::<_, Error>(
                (deep_view_pairs(ps@), ci2 as nat, cur_j(pos2, lo2, co as nat), pp2 as nat),
            ) && co <= pos2 && 2 * co + cur_j(pos2, lo2, co as nat) <= 2 * buf@.len() && ci <= ci2
                && ci2 <= cs@.len() && pp <= pp2 <= buf@.len() && cur_j(pos, lo, co as nat)
                <= cur_j(pos2, lo2, co as nat),
            Err(e) => build_pairs_n(
                cs@,
                ci as nat,
                buf@,
                co as nat,
                cur_j(pos, lo, co as nat),
                pp as nat,
                cnt as nat,
            ) == Err::<(Seq<(SpecVal, SpecVal)>, nat, nat, nat), _>(e),
        },
    decreases 2 * buf@.len() - 2 * (pos - co) - (if lo {
        1int
    } else {
        0int
    }), cnt as int,
{
    let mut acc: Vec<(Object, Object)> = Vec::new();
    let mut cur_ci = ci;
    let mut cur_pos = pos;
    let mut cur_lo = lo;
    let mut cur_pp = pp;
    let mut t: usize = 0;
    proof {
        assert(deep_view_pairs(acc@) =~= Seq::<(SpecVal, SpecVal)>::empty());
    }
    while t < cnt
        invariant
            t <= cnt,
            co <= cur_pos,
            2 * co + cur_j(cur_pos, cur_lo, co as nat) <= 2 * buf@.len(),
            ci <= cur_ci,
            cur_ci <= cs@.len(),
            pp <= cur_pp <= buf@.len(),
            t == 0 ==> cur_pos == pos && cur_lo == lo && cur_ci == ci && cur_pp == pp,
            t > 0 ==> cur_j(pos, lo, co as nat) < cur_j(cur_pos, cur_lo, co as nat),
            cur_j(pos, lo, co as nat) <= cur_j(cur_pos, cur_lo, co as nat),
            match build_pairs_n(
                cs@,
                cur_ci as nat,
                buf@,
                co as nat,
                cur_j(cur_pos, cur_lo, co as nat),
                cur_pp as nat,
                (cnt - t) as nat,
            ) {
                Ok((rest, cif, jf, ppf)) => build_pairs_n(
                    cs@,
                    ci as nat,
                    buf@,
                    co as nat,
                    cur_j(pos, lo, co as nat),
                    pp as nat,
                    cnt as nat,
                ) == Ok::<_, Error>((deep_view_pairs(acc@) + rest, cif, jf, ppf)),
                Err(e) => build_pairs_n(
                    cs@,
                    ci as nat,
                    buf@,
                    co as nat,
                    cur_j(pos, lo, co as nat),
                    pp as nat,
                    cnt as nat,
                ) == Err::<(Seq<(SpecVal, SpecVal)>, nat, nat, nat), _>(e),
            },
        decreases cnt - t,
    {
        let (kl, kpos, klo) = match next_len(buf, co, cur_pos, cur_lo) {
            Ok(x) => x,
            Err(e) => {
                return Err(e);
            },
        };
        if kl > buf.len() - cur_pp {
            return Err(Error::TruncatedInput);
        }
        let kb = copy_range(buf, cur_pp, kl);
        if !check_utf8(&kb) {
            return Err(Error::InvalidUtf8);
        }
        let kobj = Object::string(kb);
        let (vobj, ci3, pos3, lo3, pp3) = match read_object(
            cs,
            cur_ci,
            buf,
            co,
            kpos,
            klo,
            cur_pp + kl,
        ) {
            Ok(x) => x,
            Err(e) => {
                return Err(e);
            },
        };
        proof {
            lemma_deep_view_pairs_push(acc@, (kobj, vobj));
            let rem2 = build_pairs_n(
                cs@,
                ci3 as nat,
                buf@,
                co as nat,
                cur_j(pos3, lo3, co as nat),
                pp3 as nat,
                (cnt - t - 1) as nat,
            );
            if rem2 is Ok {
                let (rest, cif, jf, ppf) = rem2->Ok_0;
                assert(deep_view_pairs(acc@) + (seq![(kobj@, vobj@)] + rest) =~= deep_view_pairs(
                    acc@.push((kobj, vobj)),
                ) + rest);
            }
        }
        acc.push((kobj, vobj));
        cur_ci = ci3;
        cur_pos = pos3;
        cur_lo = lo3;
        cur_pp = pp3;
        t = t + 1;
    }
    proof {
        assert(deep_view_pairs(acc@) + Seq::<(SpecVal, SpecVal)>::empty() =~= deep_view_pairs(
            acc@,
        ));
    }
    Ok((acc, cur_ci, cur_pos, cur_lo, cur_pp))
}

/// Second walk, the elements of a list (executable twin of `build_list_n`).
#[verifier::rlimit(50)]
fn read_elements(
    cs: &Vec<u8>,
    ci: usize,
    buf: &Vec<u8>,
    co: usize,
    pos: usize,
    lo: bool,
    pp: usize,
    cnt: usize,
) -> (r: Result<(Vec<Object>, usize, usize, bool, usize), Error>)
    requires
        co <= pos,
        2 * co + cur_j(pos, lo, co as nat) <= 2 * buf@.len(),
        ci <= cs@.len(),
        pp <= buf@.len(),
    ensures
        match r {
            Ok((es, ci2, pos2, lo2, pp2)) => build_list_n(
                cs@,
                ci as nat,
                buf@,
                co as nat,
                cur_j(pos, lo, co as nat),
                pp as nat,
                cnt as nat,
            ) == Ok::<_, Error>(
                (deep_view_list(es@), ci2 as nat, cur_j(pos2, lo2, co as nat), pp2 as nat),
            ) && co <= pos2 && 2 * co + cur_j(pos2, lo2, co as nat) <= 2 * buf@.len() && ci <= ci2
                && ci2 <= cs@.len() && pp <= pp2 <= buf@.len() && cur_j(pos, lo, co as nat)
                <= cur_j(pos2, lo2, co as nat),
            Err(e) => build_list_n(
                cs@,
                ci as nat,
                buf@,
                co as nat,
                cur_j(pos, lo, co as nat),
                pp as nat,
                cnt as nat,
            ) == Err::<(Seq<SpecVal>, nat, nat, nat), _>(e),
        },
    decreases 2 * buf@.len() - 2 * (pos - co) - (if lo {
        1int
    } else {
        0int
    }), cnt as int,
{
    let mut acc: Vec<Object> = Vec::new();
    let mut cur_ci = ci;
    let mut cur_pos = pos;
    let mut cur_lo = lo;
    let mut cur_pp = pp;
    let mut t: usize = 0;
    proof {
        assert(deep_view_list(acc@) =~= Seq::<SpecVal>::empty());
    }
    while t < cnt
        invariant
            t <= cnt,
            co <= cur_pos,
            2 * co + cur_j(cur_pos, cur_lo, co as nat) <= 2 * buf@.len(),
            ci <= cur_ci,
            cur_ci <= cs@.len(),
            pp <= cur_pp <= buf@.len(),
            t == 0 ==> cur_pos == pos && cur_lo == lo && cur_ci == ci && cur_pp == pp,
            t > 0 ==> cur_j(pos, lo, co as nat) < cur_j(cur_pos, cur_lo, co as nat),
            cur_j(pos, lo, co as nat) <= cur_j(cur_pos, cur_lo, co as nat),
            match build_list_n(
                cs@,
                cur_ci as nat,
                buf@,
                co as nat,
                cur_j(cur_pos, cur_lo, co as nat),
                cur_pp as nat,
                (cnt - t) as nat,
            ) {
                Ok((rest, cif, jf, ppf)) => build_list_n(
                    cs@,
                    ci as nat,
                    buf@,
                    co as nat,
                    cur_j(pos, lo, co as nat),
                    pp as nat,
                    cnt as nat,
                ) == Ok::<_, Error>((deep_view_list(acc@) + rest, cif, jf, ppf)),
                Err(e) => build_list_n(
                    cs@,
                    ci as nat,
                    buf@,
                    co as nat,
                    cur_j(pos, lo, co as nat),
                    pp as nat,
                    cnt as nat,
                ) == Err::<(Seq<SpecVal>, nat, nat, nat), _>(e),
            },
        decreases cnt - t,
    {
        let (vobj, ci2, pos2, lo2, pp2) = match read_object(
            cs,
            cur_ci,
            buf,
            co,
            cur_pos,
            cur_lo,
            cur_pp,
        ) {
            Ok(x) => x,
            Err(e) => {
                return Err(e);
            },
        };
        proof {
            lemma_deep_view_list_push(acc@, vobj);
            let rem2 = build_list_n(
                cs@,
                ci2 as nat,
                buf@,
                co as nat,
                cur_j(pos2, lo2, co as nat),
                pp2 as nat,
                (cnt - t - 1) as nat,
            );
            if rem2 is Ok {
                let (rest, cif, jf, ppf) = rem2->Ok_0;
                assert(deep_view_list(acc@) + (seq![vobj@] + rest) =~= deep_view_list(
                    acc@.push(vobj),
                ) + rest);
            }
        }
        acc.push(vobj);
        cur_ci = ci2;
        cur_pos = pos2;
        cur_lo = lo2;
        cur_pp = pp2;
        t = t + 1;
    }
    proof {
        assert(deep_view_list(acc@) + Seq::<SpecVal>::empty() =~= deep_view_list(acc@));
    }
    Ok((acc, cur_ci, cur_pos, cur_lo, cur_pp))
}

} // verus!

verus! {

/// Second walk over the body of a root map.
#[verifier::rlimit(50)]
fn read_top_map(cs: &Vec<u8>, buf: &Vec<u8>, co: usize, pp0: usize) -> (r: Result<
    Vec<(Object, Object)>,
    Error,
>)
    requires
        co <= buf@.len(),
        pp0 <= buf@.len(),
    ensures
        match r {
            Ok(ps) => build_top_map(cs@, 0, buf@, co as nat, 0, pp0 as nat) == Ok::<_, Error>(
                deep_view_pairs(ps@),
            ),
            Err(e) => build_top_map(cs@, 0, buf@, co as nat, 0, pp0 as nat) == Err::<
                Seq<(SpecVal, SpecVal)>,
                _,
            >(e),
        },
{
    let mut acc: Vec<(Object, Object)> = Vec::new();
    let mut cur_ci: usize = 0;
    let mut cur_pos = co;
    let mut cur_lo = false;
    let mut cur_pp = pp0;
    proof {
        assert(deep_view_pairs(acc@) =~= Seq::<(SpecVal, SpecVal)>::empty());
    }
    while cur_ci < cs.len()
        invariant
            co <= cur_pos,
            2 * co + cur_j(cur_pos, cur_lo, co as nat) <= 2 * buf@.len(),
            cur_ci <= cs@.len(),
            cur_pp <= buf@.len(),
            match build_top_map(
                cs@,
                cur_ci as nat,
                buf@,
                co as nat,
                cur_j(cur_pos, cur_lo, co as nat),
                cur_pp as nat,
            ) {
                Ok(rest) => build_top_map(cs@, 0, buf@, co as nat, 0, pp0 as nat) == Ok::<
                    _,
                    Error,
                >(deep_view_pairs(acc@) + rest),
                Err(e) => build_top_map(cs@, 0, buf@, co as nat, 0, pp0 as nat) == Err::<
                    Seq<(SpecVal, SpecVal)>,
                    _,
                >(e),
            },
        decreases cs@.len() - cur_ci,
    {
        let (kl, kpos, klo) = match next_len(buf, co, cur_pos, cur_lo) {
            Ok(x) => x,
            Err(e) => {
                return Err(e);
            },
        };
        if kl > buf.len() - cur_pp {
            return Err(Error::TruncatedInput);
        }
        let kb = copy_range(buf, cur_pp, kl);
        if !check_utf8(&kb) {
            return Err(Error::InvalidUtf8);
        }
        let kobj = Object::string(kb);
        let (vobj, ci3, pos3, lo3, pp3) = match read_object(
            cs,
            cur_ci,
            buf,
            co,
            kpos,
            klo,
            cur_pp + kl,
        ) {
            Ok(x) => x,
            Err(e) => {
                return Err(e);
            },
        };
        proof {
            lemma_deep_view_pairs_push(acc@, (kobj, vobj));
            let rem2 = build_top_map(
                cs@,
                ci3 as nat,
                buf@,
                co as nat,
                cur_j(pos3, lo3, co as nat),
                pp3 as nat,
            );
            if rem2 is Ok {
                let rest = rem2->Ok_0;
                assert(deep_view_pairs(acc@) + (seq![(kobj@, vobj@)] + rest) =~= deep_view_pairs(
                    acc@.push((kobj, vobj)),
                ) + rest);
            }
        }
        acc.push((kobj, vobj));
        cur_ci = ci3;
        cur_pos = pos3;
        cur_lo = lo3;
        cur_pp = pp3;
    }
    proof {
        assert(deep_view_pairs(acc@) + Seq::<(SpecVal, SpecVal)>::empty() =~= deep_view_pairs(
            acc@,
        ));
    }
    Ok(acc)
}

/// Second walk over the body of a root list.
#[verifier::rlimit(50)]
fn read_top_list(cs: &Vec<u8>, buf: &Vec<u8>, co: usize, pp0: usize) -> (r: Result<
    Vec<Object>,
    Error,
>)
    requires
        co <= buf@.len(),
        pp0 <= buf@.len(),
    ensures
        match r {
            Ok(es) => build_top_list(cs@, 0, buf@, co as nat, 0, pp0 as nat) == Ok::<_, Error>(
                deep_view_list(es@),
            ),
            Err(e) => build_top_list(cs@, 0, buf@, co as nat, 0, pp0 as nat) == Err::<
                Seq<SpecVal>,
                _,
            >(e),
        },
{
    let mut acc: Vec<Object> = Vec::new();
    let mut cur_ci: usize = 0;
    let mut cur_pos = co;
    let mut cur_lo = false;
    let mut cur_pp = pp0;
    proof {
        assert(deep_view_list(acc@) =~= Seq::<SpecVal>::empty());
    }
    while cur_ci < cs.len()
        invariant
            co <= cur_pos,
            2 * co + cur_j(cur_pos, cur_lo, co as nat) <= 2 * buf@.len(),
            cur_ci <= cs@.len(),
            cur_pp <= buf@.len(),
            match build_top_list(
                cs@,
                cur_ci as nat,
                buf@,
                co as nat,
                cur_j(cur_pos, cur_lo, co as nat),
                cur_pp as nat,
            ) {
                Ok(rest) => build_top_list(cs@, 0, buf@, co as nat, 0, pp0 as nat) == Ok::<
                    _,
                    Error,
                >(deep_view_list(acc@) + rest),
                Err(e) => build_top_list(cs@, 0, buf@, co as nat, 0, pp0 as nat) == Err::<
                    Seq<SpecVal>,
                    _,
                >(e),
            },
        decreases cs@.len() - cur_ci,
    {
        let (vobj, ci2, pos2, lo2, pp2) = match read_object(
            cs,
            cur_ci,
            buf,
            co,
            cur_pos,
            cur_lo,
            cur_pp,
        ) {
            Ok(x) => x,
            Err(e) => {
                return Err(e);
            },
        };
        proof {
            lemma_deep_view_list_push(acc@, vobj);
            let rem2 = build_top_list(
                cs@,
                ci2 as nat,
                buf@,
                co as nat,
                cur_j(pos2, lo2, co as nat),
                pp2 as nat,
            );
            if rem2 is Ok {
                let rest = rem2->Ok_0;
                assert(deep_view_list(acc@) + (seq![vobj@] + rest) =~= deep_view_list(
                    acc@.push(vobj),
                ) + rest);
            }
        }
        acc.push(vobj);
        cur_ci = ci2;
        cur_pos = pos2;
        cur_lo = lo2;
        cur_pp = pp2;
    }
    proof {
        assert(deep_view_list(acc@) + Seq::<SpecVal>::empty() =~= deep_view_list(acc@));
    }
    Ok(acc)
}

/// Decodes a whole message: classes section, a placing walk over the
/// lengths, then the building walk. Returns exactly what `spec_decode`
/// denotes for the input; on any encoded form of an encodable tree it
/// returns that tree.
pub fn headpack_decode(buf: Vec<u8>) -> (r: Result<Object, Error>)
    ensures
        match r {
            Ok(v) => spec_decode(buf@) == Ok::<_, Error>(v@),
            Err(e) => spec_decode(buf@) == Err::<SpecVal, _>(e),
        },
        forall|v: SpecVal|
            crate::object::encodable_root(v) && buf@ == crate::encode::spec_encode(v) ==> r is Ok
                && r->Ok_0@ == v,
{
    let r = decode_message(buf);
    proof {
        assert forall|v: SpecVal|
            crate::object::encodable_root(v) && buf@ == crate::encode::spec_encode(v) implies r is Ok
            && r->Ok_0@ == v by {
            crate::roundtrip::lemma_round_trip(v);
        }
    }
    r
}

/// The decoding pipeline behind `headpack_decode`.
fn decode_message(buf: Vec<u8>) -> (r: Result<Object, Error>)
    ensures
        match r {
            Ok(v) => spec_decode(buf@) == Ok::<_, Error>(v@),
            Err(e) => spec_decode(buf@) == Err::<SpecVal, _>(e),
        },
{
    let (classes, is_root_map, co) = match decode_classes_section(&buf) {
        Ok(x) => x,
        Err(e) => {
            return Err(e);
        },
    };
    if classes.len() == 0 {
        proof {
            assert(deep_view_pairs(Seq::<(Object, Object)>::empty()) =~= Seq::<
                (SpecVal, SpecVal),
            >::empty());
            assert(deep_view_list(Seq::<Object>::empty()) =~= Seq::<SpecVal>::empty());
        }
        if is_root_map {
            let ps: Vec<(Object, Object)> = Vec::new();
            return Ok(Object::map(ps));
        } else {
            let es: Vec<Object> = Vec::new();
            return Ok(Object::list(es));
        }
    }
    let (post, lot) = match scan_top(&classes, &buf, co, is_root_map) {
        Ok(x) => x,
        Err(e) => {
            return Err(e);
        },
    };
    let pp0 = if lot {
        post + 1
    } else {
        post
    };
    proof {
        assert(pp0 as nat == co + (walk_top(classes@, 0, buf@, co as nat, 0, is_root_map)->Ok_0
            + 1) / 2);
    }
    if is_root_map {
        match read_top_map(&classes, &buf, co, pp0) {
            Ok(ps) => Ok(Object::map(ps)),
            Err(e) => Err(e),
        }
    } else {
        match read_top_list(&classes, &buf, co, pp0) {
            Ok(es) => Ok(Object::list(es)),
            Err(e) => Err(e),
        }
    }
}

} // verus!
