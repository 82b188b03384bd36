//! Run-length codec with a variable-width count: each maximal run of equal
//! consecutive elements is stored as a self-describing count field followed
//! by the raw bytes of one element. Short runs take as little as two bytes of
//! overhead instead of the fixed codec's eight.

use vstd::prelude::*;

verus! {

use crate::compressor::{CompressError, Compressor};
use crate::algorithms::common::{
    spec_count_bytes, spec_read_count, mode_width, to_elems, elems_wf, repeat_elem,
    lemma_count_round_trip_prefix, lemma_to_elems_wf, lemma_to_elems_flatten,
    lemma_flatten_all_equal, write_count_bytes, read_le, push_range, range_eq, mode_width_exec,
    le_value,
};
use crate::algorithms::run_length_encoding::{run_len, lemma_run_len_props, lemma_run_len_exact};
use vstd::math::min;

/// The variable-count run-length encoding of an element sequence: one maximal
/// run after another, each as a count field and one element.
pub open spec fn vrle_encode(xs: Seq<Seq<u8>>) -> Seq<u8>
    decreases xs.len(),
{
    if xs.len() == 0 {
        Seq::empty()
    } else {
        let l = min(run_len(xs) as int, xs.len() as int);
        spec_count_bytes(l as u64) + xs[0] + vrle_encode(xs.skip(l))
    }
}

/// What decoding a variable-count run-length buffer yields: for each record,
/// a count field and one `w`-byte element, repeated `count` times.
pub open spec fn vrle_decode(w: int, cs: Seq<u8>) -> Result<Seq<u8>, CompressError>
    decreases cs.len(),
{
    if w < 1 {
        Err(CompressError::MalformedInput)
    } else if cs.len() == 0 {
        Ok(Seq::empty())
    } else {
        match spec_read_count(cs) {
            None => Err(CompressError::MalformedInput),
            Some((count, used)) => {
                if cs.len() < used + w {
                    Err(CompressError::MalformedInput)
                } else {
                    let elem = cs.subrange(used, used + w);
                    match vrle_decode(w, cs.skip(used + w)) {
                        Ok(rest) => Ok(repeat_elem(elem, count as nat) + rest),
                        Err(e) => Err(e),
                    }
                }
            },
        }
    }
}

/// Encoding then decoding a well-formed element sequence recovers its bytes.
pub proof fn lemma_vrle_round_trip_elems(w: int, xs: Seq<Seq<u8>>)
    requires
        w >= 1,
        elems_wf(w, xs),
        xs.len() < 0x1_0000_0000_0000_0000,
    ensures
        vrle_decode(w, vrle_encode(xs)) == Ok::<Seq<u8>, CompressError>(xs.flatten()),
    decreases xs.len(),
{
    if xs.len() == 0 {
        assert(xs.flatten() =~= Seq::<u8>::empty());
    } else {
        lemma_run_len_props(xs);
        let l = run_len(xs) as int;
        assert(min(l, xs.len() as int) == l);
        let cnt = spec_count_bytes(l as u64);
        let rest_enc = vrle_encode(xs.skip(l));
        let cs = vrle_encode(xs);
        assert(cs == cnt + xs[0] + rest_enc);
        lemma_count_round_trip_prefix(l as u64, xs[0] + rest_enc);
        let used = cnt.len() as int;
        assert(cnt + xs[0] + rest_enc =~= cnt + (xs[0] + rest_enc));
        assert(spec_read_count(cs) == Some((l as u64, used)));
        assert(xs[0].len() == w);
        assert(cs.len() >= used + w);
        assert(cs.subrange(used, used + w) =~= xs[0]);
        assert(cs.skip(used + w) =~= rest_enc);
        let ys = xs.skip(l);
        assert forall|i: int| 0 <= i < ys.len() implies (#[trigger] ys[i]).len() == w by {
            assert(ys[i] == xs[i + l]);
        }
        lemma_vrle_round_trip_elems(w, ys);
        lemma_flatten_all_equal(xs, l);
        vstd::seq_lib::lemma_flatten_concat(xs.take(l), xs.skip(l));
        assert(xs.take(l) + xs.skip(l) =~= xs);
        assert(repeat_elem(xs[0], l as nat) + ys.flatten() == xs.flatten());
        assert(vrle_decode(w, cs) == Ok::<Seq<u8>, CompressError>(xs.flatten()));
    }
}

/// Run-length codec whose count field uses the shared variable-width count
/// encoding.
pub struct VRLE {
    pub elem_size: usize,
}

impl VRLE {
    /// A variable-count run-length codec for elements of `elem_size` bytes.
    pub fn new(elem_size: usize) -> (r: Self)
        requires
            elem_size >= 1,
        ensures
            r.valid(),
            r.spec_elem_size() == elem_size,
    {
        VRLE { elem_size }
    }
}

impl Compressor for VRLE {
    open spec fn spec_elem_size(&self) -> int {
        self.elem_size as int
    }

    open spec fn valid(&self) -> bool {
        self.elem_size >= 1
    }

    open spec fn spec_compress(&self, data: Seq<u8>) -> Seq<u8> {
        vrle_encode(to_elems(self.elem_size as int, data))
    }

    open spec fn spec_decompress(&self, compressed: Seq<u8>) -> Result<Seq<u8>, CompressError> {
        vrle_decode(self.elem_size as int, compressed)
    }

    open spec fn spec_fits(&self, data: Seq<u8>) -> bool {
        data.len() < 0x1_0000_0000_0000_0000
    }

    proof fn lemma_valid_elem_size(&self) {
    }

    fn elem_size(&self) -> (width: usize) {
        self.elem_size
    }

    fn compress(&self, uncompressed: &[u8], compressed: &mut Vec<u8>) {
        let w = self.elem_size;
        let total = uncompressed.len();
        let n = total / w;
        let ghost xs = to_elems(w as int, uncompressed@);
        let ghost orig = compressed@;
        proof {
            lemma_to_elems_wf(w as int, uncompressed@);
        }
        if n == 0 {
            proof {
                assert(compressed@ =~= orig + vrle_encode(xs));
            }
            return ;
        }
        let mut i: usize = 1;
        let mut run_start: usize = 0;
        proof {
            assert(xs.skip(0) =~= xs);
        }
        while i < n
            invariant
                self.elem_size == w,
                1 <= w,
                total == uncompressed@.len(),
                n == uncompressed@.len() as int / w as int,
                n >= 1,
                xs == to_elems(w as int, uncompressed@),
                elems_wf(w as int, xs),
                xs.len() == n,
                run_start < i <= n,
                forall|j: int| run_start <= j < i ==> xs[j] == xs[run_start as int],
                orig + vrle_encode(xs) == compressed@ + vrle_encode(xs.skip(run_start as int)),
            decreases n - i,
        {
            proof {
                assert((i + 1) * (w as int) <= n * (w as int)) by (nonlinear_arith)
                    requires
                        i + 1 <= n,
                        w >= 1,
                ;
                assert((run_start + 1) * (w as int) <= n * (w as int)) by (nonlinear_arith)
                    requires
                        run_start + 1 <= n,
                        w >= 1,
                ;
                vstd::arithmetic::div_mod::lemma_fundamental_div_mod(
                    uncompressed@.len() as int,
                    w as int,
                );
                vstd::arithmetic::div_mod::lemma_remainder_lower(
                    uncompressed@.len() as int,
                    w as int,
                );
                assert(n * (w as int) <= uncompressed@.len());
                assert(i * w + w == (i + 1) * (w as int)) by (nonlinear_arith);
                assert(run_start * w + w == (run_start + 1) * (w as int)) by (nonlinear_arith);
                assert(i * w + w <= total);
                assert(run_start * w + w <= total);
            }
            let same = range_eq(uncompressed, i * w, run_start * w, w);
            proof {
                assert(xs[i as int] == uncompressed@.subrange(
                    i as int * w as int,
                    (i + 1) * w as int,
                ));
                assert(xs[run_start as int] == uncompressed@.subrange(
                    run_start as int * w as int,
                    (run_start + 1) * w as int,
                ));
            }
            if !same {
                self.flush_run(uncompressed, compressed, run_start, i, Ghost(xs), Ghost(orig));
                run_start = i;
            }
            i = i + 1;
        }
        self.flush_run(uncompressed, compressed, run_start, n, Ghost(xs), Ghost(orig));
        proof {
            assert(xs.skip(n as int) =~= Seq::<Seq<u8>>::empty());
            assert(vrle_encode(xs.skip(n as int)) =~= Seq::<u8>::empty());
            assert(compressed@ + Seq::<u8>::empty() =~= compressed@);
        }
    }

    fn decompress(&self, compressed: &[u8], uncompressed: &mut Vec<u8>) -> (r: Result<
        (),
        CompressError,
    >) {
        let w = self.elem_size;
        let total = compressed.len();
        let mut out: Vec<u8> = Vec::new();
        let mut index: usize = 0;
        proof {
            assert(compressed@.skip(0) =~= compressed@);
        }
        while index < total
            invariant
                self.elem_size == w,
                1 <= w,
                total == compressed@.len(),
                index <= total,
                vrle_decode(w as int, compressed@) == match vrle_decode(
                    w as int,
                    compressed@.skip(index as int),
                ) {
                    Ok(rest) => Ok::<Seq<u8>, CompressError>(out@ + rest),
                    Err(e) => Err::<Seq<u8>, CompressError>(e),
                },
            decreases total - index,
        {
            let ghost s = compressed@.skip(index as int);
            let rem = total - index;
            let mode = compressed[index] as usize;
            let width = mode_width_exec(mode);
            proof {
                assert(s[0] == compressed@[index as int]);
            }
            if rem - 1 < width {
                assert(spec_read_count(s) is None);
                return Err(CompressError::MalformedInput);
            }
            let count = read_le(compressed, index + 1, width);
            let used = 1 + width;
            proof {
                assert(s.subrange(1, 1 + width as int) =~= compressed@.subrange(
                    index + 1,
                    index + 1 + width,
                ));
                assert(spec_read_count(s) == Some((count, used as int)));
            }
            if rem - used < w {
                assert(s.len() < used + w);
                return Err(CompressError::MalformedInput);
            }
            proof {
                assert(s.subrange(used as int, used + w) =~= compressed@.subrange(
                    index + used,
                    index + used + w,
                ));
            }
            let ghost elem = s.subrange(used as int, used + w);
            let ghost out_before = out@;
            let mut c: u64 = 0;
            while c < count
                invariant
                    self.elem_size == w,
                    1 <= w,
                    total == compressed@.len(),
                    index + used + w <= total,
                    used >= 2,
                    c <= count,
                    elem == compressed@.subrange(index + used, index + used + w),
                    out@ == out_before + repeat_elem(elem, c as nat),
                decreases count - c,
            {
                proof {
                    assert(out_before + repeat_elem(elem, c as nat) + elem =~= out_before
                        + (repeat_elem(elem, c as nat) + elem));
                    crate::algorithms::common::lemma_repeat_elem_snoc(elem, c as nat);
                }
                push_range(&mut out, compressed, index + used, index + used + w);
                c = c + 1;
            }
            proof {
                assert(s.skip(used + w) =~= compressed@.skip(index + used + w));
                match vrle_decode(w as int, s.skip(used + w)) {
                    Ok(rest) => {
                        assert(out_before + repeat_elem(elem, count as nat) + rest =~= out_before
                            + (repeat_elem(elem, count as nat) + rest));
                    },
                    Err(_) => {},
                }
            }
            index = index + used + w;
        }
        proof {
            assert(compressed@.skip(total as int) =~= Seq::<u8>::empty());
            assert(out@ + Seq::<u8>::empty() =~= out@);
        }
        uncompressed.append(&mut out);
        Ok(())
    }

    proof fn lemma_round_trip(&self, data: Seq<u8>) {
        let w = self.elem_size as int;
        lemma_to_elems_wf(w, data);
        vstd::arithmetic::div_mod::lemma_div_nonincreasing(data.len() as int, w);
        vstd::arithmetic::div_mod::lemma_div_pos_is_pos(data.len() as int, w);
        lemma_vrle_round_trip_elems(w, to_elems(w, data));
        lemma_to_elems_flatten(w, data);
    }
}

impl VRLE {
    /// Writes out one finished run: the count field, then the element's bytes.
    fn flush_run(
        &self,
        uncompressed: &[u8],
        compressed: &mut Vec<u8>,
        run_start: usize,
        end: usize,
        Ghost(xs): Ghost<Seq<Seq<u8>>>,
        Ghost(orig): Ghost<Seq<u8>>,
    )
        requires
            self.valid(),
            xs == to_elems(self.spec_elem_size(), uncompressed@),
            elems_wf(self.spec_elem_size(), xs),
            xs.len() == uncompressed@.len() as int / self.spec_elem_size(),
            run_start < end <= xs.len(),
            forall|j: int| run_start <= j < end ==> xs[j] == xs[run_start as int],
            end < xs.len() ==> xs[end as int] != xs[run_start as int],
            orig + vrle_encode(xs) == old(compressed)@ + vrle_encode(xs.skip(run_start as int)),
        ensures
            orig + vrle_encode(xs) == final(compressed)@ + vrle_encode(xs.skip(end as int)),
    {
        let w = self.elem_size;
        let total = uncompressed.len();
        let ghost ys = xs.skip(run_start as int);
        let ghost l = end - run_start as int;
        proof {
            assert forall|j: int| 0 <= j < l implies #[trigger] ys[j] == ys[0] by {
                assert(ys[j] == xs[j + run_start]);
                assert(ys[0] == xs[run_start as int]);
            }
            if l < ys.len() {
                assert(ys[l] == xs[end as int]);
            }
            lemma_run_len_exact(ys, l);
            assert(min(run_len(ys) as int, ys.len() as int) == l);
            vstd::arithmetic::div_mod::lemma_fundamental_div_mod(
                uncompressed@.len() as int,
                w as int,
            );
            vstd::arithmetic::div_mod::lemma_remainder_lower(
                uncompressed@.len() as int,
                w as int,
            );
            assert((run_start + 1) * (w as int) <= xs.len() * (w as int)) by (nonlinear_arith)
                requires
                    run_start + 1 <= xs.len(),
                    w >= 1,
            ;
            assert(xs.len() * (w as int) <= uncompressed@.len());
            assert(run_start * w + w == (run_start + 1) * (w as int)) by (nonlinear_arith);
            assert(run_start * w + w <= total);
        }
        write_count_bytes((end - run_start) as u64, compressed);
        push_range(compressed, uncompressed, run_start * w, run_start * w + w);
        proof {
            let cnt = spec_count_bytes(l as u64);
            assert(ys[0] == xs[run_start as int]);
            assert(xs[run_start as int] == uncompressed@.subrange(
                run_start as int * w as int,
                (run_start + 1) * w as int,
            ));
            assert(uncompressed@.subrange(
                run_start as int * w as int,
                run_start as int * w as int + w as int,
            ) == xs[run_start as int]);
            assert(vrle_encode(ys) == cnt + ys[0] + vrle_encode(ys.skip(l)));
            assert(ys.skip(l) =~= xs.skip(end as int));
            assert(old(compressed)@ + cnt + xs[run_start as int] =~= old(compressed)@ + (cnt
                + xs[run_start as int]));
            assert(old(compressed)@ + (cnt + ys[0] + vrle_encode(ys.skip(l))) =~= (old(
                compressed,
            )@ + (cnt + ys[0])) + vrle_encode(ys.skip(l)));
        }
    }
}

} // verus!
