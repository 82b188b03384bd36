//! Delta codec for elements that are native-endian unsigned integers of one,
//! two, four or eight bytes: stores the first element verbatim, then each
//! successive element as its wrapping difference from the previous one.
//! Decoding replays the first element and accumulates the differences with
//! wrapping addition, which inverts the subtraction exactly.

use vstd::prelude::*;

verus! {

use crate::compressor::{CompressError, Compressor};
use crate::algorithms::common::{
    le_bytes, le_value, pow256, lemma_le_bytes_len, lemma_le_bytes_value, lemma_le_value_bound,
    lemma_pow256_pos, push_le, read_le, push_range,
};

/// The delta fields for the elements in `rest`, given the previous element's
/// value: each element's wrapping difference from its predecessor.
pub open spec fn delta_encode_tail(es: int, rest: Seq<u8>, prev: int) -> Seq<u8>
    decreases rest.len(),
{
    if es < 1 || rest.len() < es {
        Seq::empty()
    } else {
        let cur = le_value(rest.subrange(0, es));
        le_bytes((cur - prev) % pow256(es as nat), es as nat) + delta_encode_tail(
            es,
            rest.skip(es),
            cur,
        )
    }
}

/// The whole delta stream: the first element verbatim, then the differences.
pub open spec fn delta_encode(es: int, bs: Seq<u8>) -> Seq<u8> {
    if bs.len() == 0 {
        Seq::empty()
    } else {
        bs.subrange(0, es) + delta_encode_tail(es, bs.skip(es), le_value(bs.subrange(0, es)))
    }
}

/// The elements recovered from the delta fields in `rest`, given the previous
/// element's value.
pub open spec fn delta_decode_tail(es: int, rest: Seq<u8>, prev: int) -> Seq<u8>
    decreases rest.len(),
{
    if es < 1 || rest.len() < es {
        Seq::empty()
    } else {
        let v = (prev + le_value(rest.subrange(0, es))) % pow256(es as nat);
        le_bytes(v, es as nat) + delta_decode_tail(es, rest.skip(es), v)
    }
}

/// What decoding a delta stream yields: the first element, then the running
/// wrapping sums. Only a buffer that is a whole number of elements decodes.
pub open spec fn delta_decode(es: int, cs: Seq<u8>) -> Result<Seq<u8>, CompressError> {
    if es < 1 {
        Err(CompressError::MalformedInput)
    } else if cs.len() as int % es != 0 {
        Err(CompressError::MalformedInput)
    } else if cs.len() == 0 {
        Ok(Seq::empty())
    } else {
        Ok(cs.subrange(0, es) + delta_decode_tail(es, cs.skip(es), le_value(cs.subrange(0, es))))
    }
}

pub proof fn lemma_delta_encode_tail_len(es: int, rest: Seq<u8>, prev: int)
    requires
        es >= 1,
        rest.len() as int % es == 0,
    ensures
        delta_encode_tail(es, rest, prev).len() == rest.len(),
    decreases rest.len(),
{
    if rest.len() >= es {
        let cur = le_value(rest.subrange(0, es));
        lemma_le_bytes_len((cur - prev) % pow256(es as nat), es as nat);
        vstd::arithmetic::div_mod::lemma_mod_sub_multiples_vanish(rest.len() as int, es);
        lemma_delta_encode_tail_len(es, rest.skip(es), cur);
    } else if rest.len() > 0 {
        vstd::arithmetic::div_mod::lemma_small_mod(rest.len(), es as nat);
    }
}

/// Accumulating an encoded difference on top of the previous value recovers
/// the element it was encoded from.
pub proof fn lemma_delta_round_trip_tail(es: int, rest: Seq<u8>, prev: int)
    requires
        es >= 1,
        rest.len() as int % es == 0,
        0 <= prev < pow256(es as nat),
    ensures
        delta_decode_tail(es, delta_encode_tail(es, rest, prev), prev) == rest,
    decreases rest.len(),
{
    let p = pow256(es as nat);
    lemma_pow256_pos(es as nat);
    if rest.len() < es {
        if rest.len() > 0 {
            vstd::arithmetic::div_mod::lemma_small_mod(rest.len(), es as nat);
        }
        assert(rest =~= Seq::<u8>::empty());
    } else {
        let first = rest.subrange(0, es);
        let cur = le_value(first);
        lemma_le_value_bound(first);
        let d = (cur - prev) % p;
        vstd::arithmetic::div_mod::lemma_mod_bound(cur - prev, p);
        lemma_le_bytes_len(d, es as nat);
        let enc = delta_encode_tail(es, rest, prev);
        let enc_rest = delta_encode_tail(es, rest.skip(es), cur);
        assert(enc == le_bytes(d, es as nat) + enc_rest);
        assert(enc.subrange(0, es) =~= le_bytes(d, es as nat));
        lemma_le_bytes_value(d, es as nat);
        assert(le_value(enc.subrange(0, es)) == d);
        // prev + ((cur - prev) mod p) is cur, modulo p.
        vstd::arithmetic::div_mod::lemma_add_mod_noop_right(prev, cur - prev, p);
        vstd::arithmetic::div_mod::lemma_small_mod(cur as nat, p as nat);
        assert((prev + d) % p == cur);
        assert(le_bytes(cur, es as nat) == first) by {
            lemma_le_bytes_of_value(first);
        }
        assert(enc.skip(es) =~= enc_rest);
        vstd::arithmetic::div_mod::lemma_mod_sub_multiples_vanish(rest.len() as int, es);
        lemma_delta_round_trip_tail(es, rest.skip(es), cur);
        assert(first + rest.skip(es) =~= rest);
    }
}

/// Writing a byte string's value back as bytes of the same width gives the
/// same byte string.
pub proof fn lemma_le_bytes_of_value(s: Seq<u8>)
    ensures
        le_bytes(le_value(s), s.len()) == s,
    decreases s.len(),
{
    if s.len() > 0 {
        let r = le_value(s.skip(1));
        lemma_le_value_bound(s.skip(1));
        let v = le_value(s);
        vstd::arithmetic::div_mod::lemma_fundamental_div_mod_converse(v, 256, r, s[0] as int);
        assert(v % 256 == s[0] as int);
        assert(v / 256 == r);
        lemma_le_bytes_of_value(s.skip(1));
        assert(le_bytes(v, s.len()) =~= s);
    } else {
        assert(le_bytes(le_value(s), 0) =~= s);
    }
}

/// Delta codec over elements that are unsigned integers of one, two, four or
/// eight bytes.
pub struct Delta {
    pub elem_size: usize,
}

impl Delta {
    /// A delta codec for integer elements of `elem_size` bytes.
    pub fn new(elem_size: usize) -> (r: Self)
        requires
            elem_size == 1 || elem_size == 2 || elem_size == 4 || elem_size == 8,
        ensures
            r.valid(),
            r.spec_elem_size() == elem_size,
    {
        Delta { elem_size }
    }
}

/// The modulus of an element width, as a value.
fn p256_exec(es: usize) -> (r: u64)
    requires
        es == 1 || es == 2 || es == 4,
    ensures
        r as int == pow256(es as nat),
        r <= 0x1_0000_0000,
{
    proof {
        reveal_with_fuel(pow256, 5);
    }
    if es == 1 {
        256
    } else if es == 2 {
        0x1_0000
    } else {
        0x1_0000_0000
    }
}

impl Compressor for Delta {
    open spec fn spec_elem_size(&self) -> int {
        self.elem_size as int
    }

    open spec fn valid(&self) -> bool {
        self.elem_size == 1 || self.elem_size == 2 || self.elem_size == 4 || self.elem_size == 8
    }

    open spec fn spec_compress(&self, data: Seq<u8>) -> Seq<u8> {
        delta_encode(self.elem_size as int, data)
    }

    open spec fn spec_decompress(&self, compressed: Seq<u8>) -> Result<Seq<u8>, CompressError> {
        delta_decode(self.elem_size as int, compressed)
    }

    open spec fn spec_fits(&self, data: Seq<u8>) -> bool {
        true
    }

    proof fn lemma_valid_elem_size(&self) {
    }

    fn elem_size(&self) -> (width: usize) {
        self.elem_size
    }

    fn compress(&self, uncompressed: &[u8], compressed: &mut Vec<u8>) {
        let es = self.elem_size;
        let total = uncompressed.len();
        let ghost bs = uncompressed@;
        let ghost orig = compressed@;
        if total == 0 {
            proof {
                assert(compressed@ =~= orig + delta_encode(es as int, bs));
            }
            return ;
        }
        push_range(compressed, uncompressed, 0, es);
        let mut prev = read_le(uncompressed, 0, es);
        proof {
            assert(bs.subrange(0int, 0int + es as int) =~= bs.subrange(0, es as int));
            lemma_le_value_bound(bs.subrange(0, es as int));
            assert((0int) * (es as int) == 0 && (1int) * (es as int) == es as int)
                by (nonlinear_arith);
            assert(bs.skip((1int) * es) =~= bs.skip(es as int));
            assert(bs.subrange((1 - 1) * (es as int), (1int) * es) =~= bs.subrange(0, es as int));
        }
        let mut i: usize = 1;
        let n = total / es;
        proof {
            vstd::arithmetic::div_mod::lemma_fundamental_div_mod(total as int, es as int);
            assert(total as int == n * (es as int)) by (nonlinear_arith)
                requires
                    total as int == (es as int) * (n as int) + total as int % (es as int),
                    total as int % (es as int) == 0,
            ;
        }
        while i < n
            invariant
                self.elem_size == es,
                self.valid(),
                bs == uncompressed@,
                total == bs.len(),
                bs.len() as int % es as int == 0,
                total as int == n * (es as int),
                n == total as int / es as int,
                1 <= i <= n,
                prev as int == le_value(bs.subrange((i - 1) * es, i as int * es)),
                prev < pow256(es as nat),
                orig + delta_encode(es as int, bs) == compressed@ + delta_encode_tail(
                    es as int,
                    bs.skip(i as int * es),
                    prev as int,
                ),
            decreases n - i,
        {
            proof {
                assert((i + 1) * (es as int) <= n * (es as int) && i as int * es >= 0 && (i + 1) * (
                es as int) == i as int * es + es) by (nonlinear_arith)
                    requires
                        1 <= i < n,
                        es >= 1,
                ;
            }
            let cur = read_le(uncompressed, i * es, es);
            proof {
                lemma_le_value_bound(bs.subrange(i as int * es, i as int * es + es));
                let rest = bs.skip(i as int * es);
                assert(rest.subrange(0, es as int) =~= bs.subrange(
                    i as int * es,
                    i as int * es + es,
                ));
                assert(rest.skip(es as int) =~= bs.skip((i + 1) * (es as int)));
                lemma_pow256_pos(es as nat);
            }
            let d: u64 = if es == 8 {
                proof {
                    reveal_with_fuel(pow256, 9);
                    let diff = cur as int - prev as int;
                    if diff < 0 {
                        vstd::arithmetic::div_mod::lemma_fundamental_div_mod_converse(
                            diff,
                            0x1_0000_0000_0000_0000,
                            -1,
                            diff + 0x1_0000_0000_0000_0000,
                        );
                    } else {
                        vstd::arithmetic::div_mod::lemma_small_mod(
                            diff as nat,
                            0x1_0000_0000_0000_0000,
                        );
                    }
                }
                cur.wrapping_sub(prev)
            } else {
                let pu = p256_exec(es);
                proof {
                    assert(cur < pu);
                    let diff = cur as int - prev as int;
                    if cur < prev {
                        vstd::arithmetic::div_mod::lemma_fundamental_div_mod_converse(
                            diff,
                            pu as int,
                            -1,
                            diff + pu as int,
                        );
                    } else {
                        vstd::arithmetic::div_mod::lemma_small_mod(diff as nat, pu as nat);
                    }
                }
                if cur >= prev {
                    cur - prev
                } else {
                    cur + pu - prev
                }
            };
            push_le(compressed, d, es);
            proof {
                let rest = bs.skip(i as int * es);
                assert(delta_encode_tail(es as int, rest, prev as int) == le_bytes(
                    d as int,
                    es as nat,
                ) + delta_encode_tail(es as int, bs.skip((i + 1) * (es as int)), cur as int));
                assert(compressed@ + delta_encode_tail(
                    es as int,
                    bs.skip((i + 1) * (es as int)),
                    cur as int,
                ) =~= (compressed@ + delta_encode_tail(
                    es as int,
                    bs.skip((i + 1) * (es as int)),
                    cur as int,
                )));
                let before = compressed@.subrange(
                    0,
                    compressed@.len() - le_bytes(d as int, es as nat).len(),
                );
                lemma_le_bytes_len(d as int, es as nat);
                assert(before + le_bytes(d as int, es as nat) + delta_encode_tail(
                    es as int,
                    bs.skip((i + 1) * (es as int)),
                    cur as int,
                ) =~= before + (le_bytes(d as int, es as nat) + delta_encode_tail(
                    es as int,
                    bs.skip((i + 1) * (es as int)),
                    cur as int,
                )));
                assert(before =~= compressed@.subrange(
                    0,
                    compressed@.len() - es,
                ));
            }
            prev = cur;
            i = i + 1;
        }
        proof {
            assert(bs.skip(n as int * (es as int)) =~= Seq::<u8>::empty());
            assert(delta_encode_tail(es as int, Seq::<u8>::empty(), prev as int)
                =~= Seq::<u8>::empty());
            assert(compressed@ + Seq::<u8>::empty() =~= compressed@);
        }
    }

    fn decompress(&self, compressed: &[u8], uncompressed: &mut Vec<u8>) -> (r: Result<
        (),
        CompressError,
    >) {
        let es = self.elem_size;
        let total = compressed.len();
        let ghost cs = compressed@;
        if total % es != 0 {
            return Err(CompressError::MalformedInput);
        }
        if total == 0 {
            proof {
                assert(uncompressed@ + Seq::<u8>::empty() =~= uncompressed@);
            }
            return Ok(());
        }
        let n = total / es;
        proof {
            vstd::arithmetic::div_mod::lemma_fundamental_div_mod(total as int, es as int);
            assert(total as int == n * (es as int)) by (nonlinear_arith)
                requires
                    total as int == (es as int) * (n as int) + total as int % (es as int),
                    total as int % (es as int) == 0,
            ;
            assert(n >= 1) by {
                if n == 0 {
                    assert(total as int == 0 * (es as int)) by (nonlinear_arith)
                        requires
                            n == 0,
                            total as int == n * (es as int),
                    ;
                }
            }
        }
        let mut out: Vec<u8> = Vec::new();
        push_range(&mut out, compressed, 0, es);
        let mut prev = read_le(compressed, 0, es);
        proof {
            assert(cs.subrange(0int, 0int + es as int) =~= cs.subrange(0, es as int));
            lemma_le_value_bound(cs.subrange(0, es as int));
            assert((0int) * (es as int) == 0 && (1int) * (es as int) == es as int)
                by (nonlinear_arith);
            assert(cs.skip((1int) * es) =~= cs.skip(es as int));
            assert(out@.subrange((1 - 1) * (es as int), (1int) * es) =~= cs.subrange(
                0,
                es as int,
            ));
        }
        let ghost whole = cs.subrange(0, es as int) + delta_decode_tail(
            es as int,
            cs.skip(es as int),
            le_value(cs.subrange(0, es as int)),
        );
        let mut i: usize = 1;
        while i < n
            invariant
                self.elem_size == es,
                self.valid(),
                cs == compressed@,
                total == cs.len(),
                cs.len() as int % es as int == 0,
                total as int == n * (es as int),
                n >= 1,
                1 <= i <= n,
                prev as int == le_value(out@.subrange((i - 1) * es, i as int * es)),
                prev < pow256(es as nat),
                out@.len() == i as int * es,
                whole == out@ + delta_decode_tail(es as int, cs.skip(i as int * es), prev as int),
            decreases n - i,
        {
            proof {
                assert((i + 1) * (es as int) <= n * (es as int) && i as int * es >= 0 && (i + 1) * (
                es as int) == i as int * es + es) by (nonlinear_arith)
                    requires
                        1 <= i < n,
                        es >= 1,
                ;
            }
            let dv = read_le(compressed, i * es, es);
            proof {
                lemma_le_value_bound(cs.subrange(i as int * es, i as int * es + es));
                let rest = cs.skip(i as int * es);
                assert(rest.subrange(0, es as int) =~= cs.subrange(
                    i as int * es,
                    i as int * es + es,
                ));
                assert(rest.skip(es as int) =~= cs.skip((i + 1) * (es as int)));
                lemma_pow256_pos(es as nat);
            }
            let v: u64 = if es == 8 {
                proof {
                    reveal_with_fuel(pow256, 9);
                    let sum = prev as int + dv as int;
                    if sum > u64::MAX as int {
                        vstd::arithmetic::div_mod::lemma_fundamental_div_mod_converse(
                            sum,
                            0x1_0000_0000_0000_0000,
                            1,
                            sum - 0x1_0000_0000_0000_0000,
                        );
                    } else {
                        vstd::arithmetic::div_mod::lemma_small_mod(
                            sum as nat,
                            0x1_0000_0000_0000_0000,
                        );
                    }
                }
                prev.wrapping_add(dv)
            } else {
                let pu = p256_exec(es);
                proof {
                    assert(dv < pu);
                    vstd::arithmetic::div_mod::lemma_mod_bound(
                        prev as int + dv as int,
                        pu as int,
                    );
                }
                (prev + dv) % pu
            };
            let ghost before = out@;
            push_le(&mut out, v, es);
            proof {
                let rest = cs.skip(i as int * es);
                assert(delta_decode_tail(es as int, rest, prev as int) == le_bytes(
                    v as int,
                    es as nat,
                ) + delta_decode_tail(es as int, cs.skip((i + 1) * (es as int)), v as int));
                lemma_le_bytes_len(v as int, es as nat);
                assert(before + le_bytes(v as int, es as nat) + delta_decode_tail(
                    es as int,
                    cs.skip((i + 1) * (es as int)),
                    v as int,
                ) =~= before + (le_bytes(v as int, es as nat) + delta_decode_tail(
                    es as int,
                    cs.skip((i + 1) * (es as int)),
                    v as int,
                )));
                assert(out@.subrange(i as int * es, (i + 1) * (es as int)) =~= le_bytes(
                    v as int,
                    es as nat,
                ));
                lemma_le_bytes_value(v as int, es as nat);
            }
            prev = v;
            i = i + 1;
        }
        proof {
            assert(cs.skip(n as int * (es as int)) =~= Seq::<u8>::empty());
            assert(delta_decode_tail(es as int, Seq::<u8>::empty(), prev as int)
                =~= Seq::<u8>::empty());
            assert(out@ + Seq::<u8>::empty() =~= out@);
            assert(out@ == whole);
        }
        uncompressed.append(&mut out);
        Ok(())
    }

    proof fn lemma_round_trip(&self, data: Seq<u8>) {
        let es = self.elem_size as int;
        if data.len() == 0 {
            assert(delta_encode(es, data) =~= Seq::<u8>::empty());
            vstd::arithmetic::div_mod::lemma_small_mod(0, es as nat);
            assert(data =~= Seq::<u8>::empty());
        } else {
            let first = data.subrange(0, es);
            let v0 = le_value(first);
            lemma_le_value_bound(first);
            let enc = delta_encode(es, data);
            vstd::arithmetic::div_mod::lemma_mod_sub_multiples_vanish(data.len() as int, es);
            lemma_delta_encode_tail_len(es, data.skip(es), v0);
            assert(enc.len() == data.len());
            assert(enc.subrange(0, es) =~= first);
            assert(enc.skip(es) =~= delta_encode_tail(es, data.skip(es), v0));
            lemma_delta_round_trip_tail(es, data.skip(es), v0);
            assert(first + data.skip(es) =~= data);
            assert(le_value(enc.subrange(0, es)) == v0);
            assert(delta_decode(es, enc) == Ok::<Seq<u8>, CompressError>(
                enc.subrange(0, es) + delta_decode_tail(es, enc.skip(es), v0),
            ));
        }
    }
}

} // verus!
