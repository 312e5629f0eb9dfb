//! Base-128 continuation-bit encoding of unsigned integers.
//!
//! Each byte carries seven value bits, least significant group first; the
//! high bit of a byte says whether another byte follows.  `spec_varint` is
//! the canonical (shortest) encoding; `spec_varint_parse` accepts any
//! encoding, including ones padded with zero groups.

use vstd::arithmetic::power2::{
    lemma2_to64, lemma_pow2_adds, lemma_pow2_strictly_increases, pow2,
};
use vstd::prelude::*;

verus! {

/// The canonical encoding of `n`: seven bits per byte, low group first,
/// continuation bit set on every byte but the last.
pub open spec fn spec_varint(n: nat) -> Seq<u8>
    decreases n,
{
    if n < 128 {
        seq![n as u8]
    } else {
        seq![((n % 128) + 128) as u8] + spec_varint(n / 128)
    }
}

/// What a decoder reads from the front of `s`: the value and the number of
/// bytes consumed, or `None` if `s` ends before a terminating byte.
pub open spec fn spec_varint_parse(s: Seq<u8>) -> Option<(nat, int)>
    decreases s.len(),
{
    if s.len() == 0 {
        None
    } else if s[0] < 128 {
        Some((s[0] as nat, 1))
    } else {
        match spec_varint_parse(s.skip(1)) {
            None => None,
            Some((v, l)) => Some(((((s[0] - 128) as nat) + 128 * v) as nat, l + 1)),
        }
    }
}

/// A parse that succeeds consumed between one byte and the whole input.
pub proof fn lemma_varint_parse_len(s: Seq<u8>)
    requires
        spec_varint_parse(s) is Some,
    ensures
        1 <= spec_varint_parse(s).unwrap().1 <= s.len(),
    decreases s.len(),
{
    if s.len() == 0 {
    } else if s[0] < 128 {
    } else {
        if spec_varint_parse(s.skip(1)) is Some {
            lemma_varint_parse_len(s.skip(1));
        }
    }
}

/// Decoding undoes the canonical encoding, whatever follows it.
pub proof fn lemma_varint_parse_encode(n: nat, rest: Seq<u8>)
    ensures
        spec_varint_parse(spec_varint(n) + rest) == Some::<(nat, int)>(
            (n, spec_varint(n).len() as int),
        ),
    decreases n,
{
    let enc = spec_varint(n);
    let s = enc + rest;
    if n < 128 {
        assert(s[0] == n as u8);
    } else {
        let b = ((n % 128) + 128) as u8;
        assert(enc == seq![b] + spec_varint(n / 128));
        assert(s[0] == b);
        assert(b >= 128);
        assert(s.skip(1) =~= spec_varint(n / 128) + rest);
        lemma_varint_parse_encode(n / 128, rest);
        vstd::arithmetic::div_mod::lemma_fundamental_div_mod(n as int, 128);
        assert(((b - 128) as nat) + 128 * (n / 128) == n);
        assert(enc.len() == 1 + spec_varint(n / 128).len());
    }
}

/// A parse starting with a continuation byte yields at least the low group.
proof fn lemma_varint_parse_first_low(s: Seq<u8>)
    requires
        s.len() > 0,
        s[0] >= 128,
        spec_varint_parse(s) is Some,
    ensures
        spec_varint_parse(s).unwrap().0 >= s[0] - 128,
{
}

/// Appends the canonical encoding of `n` to `out`.
pub fn push_varint(out: &mut Vec<u8>, n: u64)
    ensures
        final(out)@ == old(out)@ + spec_varint(n as nat),
{
    let ghost base = out@;
    let ghost orig = n as nat;
    let mut n = n;
    while n >= 128
        invariant
            base + spec_varint(orig) == out@ + spec_varint(n as nat),
        decreases n,
    {
        out.push(((n % 128) as u8) + 128);
        proof {
            assert(spec_varint(n as nat) == seq![(((n as nat) % 128) + 128) as u8] + spec_varint(
                (n as nat) / 128,
            ));
            assert(out@.drop_last() + (seq![(((n as nat) % 128) + 128) as u8] + spec_varint(
                (n as nat) / 128,
            )) =~= out@ + spec_varint((n as nat) / 128));
        }
        n = n / 128;
    }
    out.push(n as u8);
    proof {
        assert(spec_varint(n as nat) == seq![n as u8]);
        assert(out@.drop_last() + seq![n as u8] =~= out@);
    }
}

/// Reads one varint from `s` at `pos`.  Fails exactly when the input ends
/// before a terminating byte or the value does not fit in 64 bits.
pub fn decode_varint(s: &[u8], pos: usize) -> (r: Option<(u64, usize)>)
    requires
        pos <= s@.len(),
    ensures
        match r {
            Some((v, end)) => pos < end <= s@.len() && spec_varint_parse(s@.skip(pos as int))
                == Some::<(nat, int)>((v as nat, end - pos)),
            None => match spec_varint_parse(s@.skip(pos as int)) {
                None => true,
                Some((v, l)) => v >= 0x1_0000_0000_0000_0000,
            },
        },
{
    let len = s.len();
    let mut i = pos;
    let mut value: u64 = 0;
    let mut shift: u32 = 0;
    let mut mult: u64 = 1;
    proof {
        lemma2_to64();
    }
    while i < len
        invariant
            pos <= i <= len,
            len == s@.len(),
            shift == if 7 * (i - pos) <= 70 {
                7 * (i - pos)
            } else {
                70
            },
            shift <= 63 ==> mult == pow2(shift as nat),
            (value as nat) < pow2((7 * (i - pos)) as nat),
            spec_varint_parse(s@.skip(pos as int)) == (match spec_varint_parse(
                s@.skip(i as int),
            ) {
                None => None::<(nat, int)>,
                Some((v, l)) => Some(
                    (((value as nat) + v * pow2((7 * (i - pos)) as nat)) as nat, l + (i - pos)),
                ),
            }),
        decreases len - i,
    {
        let ghost shift_g = (7 * (i - pos)) as nat;
        let ghost value0 = value as nat;
        let b = s[i];
        let low: u64 = (b % 128) as u64;
        proof {
            lemma2_to64();
            assert(s@.skip(i as int).len() == len - i);
            assert(s@.skip(i as int)[0] == s@[i as int]);
            assert(s@.skip(i as int).skip(1) =~= s@.skip(i as int + 1));
            lemma_pow2_adds(shift_g, 7);
            assert(pow2((shift_g + 7) as nat) == pow2(shift_g) * 128);
        }
        // The value contributed by this byte is low * 2^shift_g; reject the
        // byte when that cannot fit below 2^64.
        if shift <= 56 {
            proof {
                assert(shift_g == shift);
                assert(mult == pow2(shift_g));
                assert(low * mult <= 127 * mult) by (nonlinear_arith)
                    requires
                        low <= 127,
                        mult >= 0,
                ;
                assert(value + 127 * mult < 128 * mult) by (nonlinear_arith)
                    requires
                        value < mult,
                        mult > 0,
                ;
                lemma_pow2_strictly_increases((shift_g + 7) as nat, 64);
            }
            value = value + low * mult;
            proof {
                assert((value as nat) == value0 + (low as nat) * pow2(shift_g));
                assert((value as nat) < pow2((shift_g + 7) as nat));
            }
        } else if shift == 63 {
            proof {
                assert(shift_g == 63);
            }
            if low > 1 {
                proof {
                    // Whatever the rest parses to, the total value carries at
                    // least low * 2^63 >= 2^64.
                    if spec_varint_parse(s@.skip(i as int)) is Some {
                        let vi = spec_varint_parse(s@.skip(i as int)).unwrap().0;
                        if b >= 128 {
                            lemma_varint_parse_first_low(s@.skip(i as int));
                        }
                        assert(vi >= low);
                        assert(value0 + vi * pow2(shift_g) >= low * pow2(shift_g))
                            by (nonlinear_arith)
                            requires
                                vi >= low,
                                pow2(shift_g) > 0,
                                value0 >= 0,
                        ;
                        assert(low * pow2(63) >= 2 * pow2(63)) by (nonlinear_arith)
                            requires
                                low >= 2,
                                pow2(63) > 0,
                        ;
                        lemma_pow2_adds(63, 1);
                        assert(2 * pow2(63) == pow2(64));
                    }
                }
                return None;
            }
            proof {
                assert(mult == pow2(63));
                assert(low * mult <= mult) by (nonlinear_arith)
                    requires
                        low <= 1,
                        mult >= 0,
                ;
                lemma_pow2_adds(63, 1);
                assert(pow2(64) == 2 * pow2(63));
            }
            value = value + low * mult;
            proof {
                assert(low <= 1);
                assert(shift_g == 63);
                assert(mult == pow2(63nat));
                assert((value as nat) == value0 + (low as nat) * (mult as nat));
                assert((low as nat) * (mult as nat) == (low as nat) * pow2(shift_g));
                assert((value as nat) == value0 + (low as nat) * pow2(shift_g));
                assert((value as nat) < pow2((shift_g + 7) as nat)) by {
                    lemma2_to64();
                    lemma_pow2_adds(63, 1);
                    lemma_pow2_strictly_increases(64, (shift_g + 7) as nat);
                };
            }
        } else {
            // shift is capped at 70: only zero groups may still follow.
            proof {
                assert(shift_g >= 70);
            }
            if low > 0 {
                proof {
                    if spec_varint_parse(s@.skip(i as int)) is Some {
                        let vi = spec_varint_parse(s@.skip(i as int)).unwrap().0;
                        if b >= 128 {
                            lemma_varint_parse_first_low(s@.skip(i as int));
                        }
                        assert(vi >= low >= 1);
                        assert(value0 + vi * pow2(shift_g) >= pow2(shift_g)) by (nonlinear_arith)
                            requires
                                vi >= 1,
                                pow2(shift_g) > 0,
                                value0 >= 0,
                        ;
                        lemma_pow2_strictly_increases(64, shift_g);
                    }
                }
                return None;
            }
            proof {
                assert(low == 0);
                assert((low as nat) * pow2(shift_g) == 0) by (nonlinear_arith)
                    requires
                        low == 0,
                ;
                assert((value as nat) == value0 + (low as nat) * pow2(shift_g));
            }
        }
        if b < 128 {
            proof {
                assert(spec_varint_parse(s@.skip(i as int)) == Some::<(nat, int)>((b as nat, 1)));
                assert((low as nat) == b as nat);
                assert(spec_varint_parse(s@.skip(pos as int)) == Some::<(nat, int)>(
                    (value as nat, 1 + (i - pos)),
                ));
            }
            return Some((value, i + 1));
        }
        i = i + 1;
        proof {
            let new_shift_g = (7 * (i - pos)) as nat;
            assert(new_shift_g == shift_g + 7);
            // The accumulated value stays below 2^new_shift_g.
            if shift_g >= 70 {
                lemma_pow2_strictly_increases(shift_g, new_shift_g);
            }
            // Re-associate the remaining value through the new group.
            assert(spec_varint_parse(s@.skip(i - 1)) == (match spec_varint_parse(
                s@.skip(i as int),
            ) {
                None => None::<(nat, int)>,
                Some((v, l)) => Some((((low as nat) + 128 * v) as nat, l + 1)),
            }));
            if spec_varint_parse(s@.skip(i as int)) is Some {
                let v2 = spec_varint_parse(s@.skip(i as int)).unwrap().0;
                assert(((low as nat) + 128 * v2) * pow2(shift_g) == (low as nat) * pow2(shift_g)
                    + v2 * (pow2(shift_g) * 128)) by (nonlinear_arith);
                assert(pow2(shift_g) * 128 == pow2(new_shift_g));
            }
        }
        if shift < 70 {
            if shift <= 56 {
                proof {
                    if (shift as nat) < 56 {
                        lemma_pow2_strictly_increases(shift as nat, 56);
                    }
                    assert(mult * 128 == pow2((shift + 7) as nat));
                }
                mult = mult * 128;
            }
            shift = shift + 7;
        }
    }
    proof {
        assert(s@.skip(i as int) =~= Seq::<u8>::empty());
    }
    None
}

} // verus!
