//! Run-length codec with a fixed-width count: each maximal run of equal
//! consecutive elements is stored as an eight-byte count followed by the raw
//! bytes of one element.

use vstd::prelude::*;

verus! {

use crate::compressor::{CompressError, Compressor};
use crate::algorithms::common::{
    le_bytes, le_value, pow256, to_elems, elems_wf, repeat_elem, lemma_le_bytes_len,
    lemma_le_bytes_value, lemma_le_value_bound, lemma_pow256_increases, lemma_to_elems_wf,
    lemma_to_elems_flatten, lemma_flatten_all_equal, push_le, read_le, push_range, range_eq,
};
use vstd::math::min;

/// Number of leading elements of `xs` that form one run: how far the chain of
/// adjacent equal elements extends from the front.
pub open spec fn run_len(xs: Seq<Seq<u8>>) -> nat
    decreases xs.len(),
{
    if xs.len() >= 2 && xs[1] == xs[0] {
        1 + run_len(xs.skip(1))
    } else if xs.len() >= 1 {
        1
    } else {
        0
    }
}

/// The run at the front covers the leading stretch of elements equal to the
/// first one, and stops right before the first different element.
pub proof fn lemma_run_len_props(xs: Seq<Seq<u8>>)
    requires
        xs.len() >= 1,
    ensures
        1 <= run_len(xs) <= xs.len(),
        forall|j: int| 0 <= j < run_len(xs) ==> #[trigger] xs[j] == xs[0],
        run_len(xs) < xs.len() ==> xs[run_len(xs) as int] != xs[0],
    decreases xs.len(),
{
    if xs.len() >= 2 && xs[1] == xs[0] {
        lemma_run_len_props(xs.skip(1));
        let l = run_len(xs);
        assert forall|j: int| 0 <= j < l implies #[trigger] xs[j] == xs[0] by {
            if j >= 1 {
                assert(xs.skip(1)[j - 1] == xs[j]);
            }
        }
        if l < xs.len() {
            assert(xs.skip(1)[l - 1] == xs[l as int]);
        }
    }
}

/// A stretch of equal elements bounded by a different element (or the end of
/// the sequence) is exactly the front run.
pub proof fn lemma_run_len_exact(xs: Seq<Seq<u8>>, l: int)
    requires
        1 <= l <= xs.len(),
        forall|j: int| 0 <= j < l ==> #[trigger] xs[j] == xs[0],
        l < xs.len() ==> xs[l] != xs[0],
    ensures
        run_len(xs) == l,
    decreases xs.len(),
{
    if l == 1 {
        if xs.len() >= 2 {
            assert(xs[1] != xs[0]);
        }
    } else {
        assert(xs[1] == xs[0]);
        let ys = xs.skip(1);
        assert forall|j: int| 0 <= j < l - 1 implies #[trigger] ys[j] == ys[0] by {
            assert(ys[j] == xs[j + 1]);
            assert(ys[0] == xs[1]);
        }
        if l - 1 < ys.len() {
            assert(ys[l - 1] == xs[l]);
        }
        lemma_run_len_exact(ys, l - 1);
    }
}

/// The fixed-count run-length encoding of an element sequence: one maximal
/// run after another, each as an eight-byte count and one element.
pub open spec fn rle_encode(xs: Seq<Seq<u8>>) -> Seq<u8>
    decreases xs.len(),
{
    if xs.len() == 0 {
        Seq::empty()
    } else {
        let l = min(run_len(xs) as int, xs.len() as int);
        le_bytes(l, 8) + xs[0] + rle_encode(xs.skip(l))
    }
}

/// What decoding a fixed-count run-length buffer yields: for each record, an
/// eight-byte count and one `w`-byte element, repeated `count` times.
pub open spec fn rle_decode(w: int, cs: Seq<u8>) -> Result<Seq<u8>, CompressError>
    decreases cs.len(),
{
    if w < 1 {
        Err(CompressError::MalformedInput)
    } else if cs.len() == 0 {
        Ok(Seq::empty())
    } else if cs.len() < 8 + w {
        Err(CompressError::MalformedInput)
    } else {
        let count = le_value(cs.subrange(0, 8));
        let elem = cs.subrange(8, 8 + w);
        match rle_decode(w, cs.skip(8 + w)) {
            Ok(rest) => Ok(repeat_elem(elem, count as nat) + rest),
            Err(e) => Err(e),
        }
    }
}

/// Encoding then decoding a well-formed element sequence recovers its bytes.
pub proof fn lemma_rle_round_trip_elems(w: int, xs: Seq<Seq<u8>>)
    requires
        w >= 1,
        elems_wf(w, xs),
        xs.len() < 0x1_0000_0000_0000_0000,
    ensures
        rle_decode(w, rle_encode(xs)) == Ok::<Seq<u8>, CompressError>(xs.flatten()),
    decreases xs.len(),
{
    if xs.len() == 0 {
        assert(xs.flatten() =~= Seq::<u8>::empty());
    } else {
        lemma_run_len_props(xs);
        let l = run_len(xs) as int;
        assert(min(l, xs.len() as int) == l);
        let cnt = le_bytes(l, 8);
        lemma_le_bytes_len(l, 8);
        let rest_enc = rle_encode(xs.skip(l));
        let cs = rle_encode(xs);
        assert(cs == cnt + xs[0] + rest_enc);
        assert(xs[0].len() == w);
        assert(cs.len() >= 8 + w);
        assert(cs.subrange(0, 8) =~= cnt);
        assert(pow256(8) == 0x1_0000_0000_0000_0000) by {
            reveal_with_fuel(pow256, 9);
        }
        lemma_le_bytes_value(l, 8);
        assert(le_value(cs.subrange(0, 8)) == l);
        assert(cs.subrange(8, 8 + w) =~= xs[0]);
        assert(cs.skip(8 + w) =~= rest_enc);
        let ys = xs.skip(l);
        assert forall|i: int| 0 <= i < ys.len() implies (#[trigger] ys[i]).len() == w by {
            assert(ys[i] == xs[i + l]);
        }
        lemma_rle_round_trip_elems(w, ys);
        lemma_flatten_all_equal(xs, l);
        vstd::seq_lib::lemma_flatten_concat(xs.take(l), xs.skip(l));
        assert(xs.take(l) + xs.skip(l) =~= xs);
        assert(repeat_elem(xs[0], l as nat) + ys.flatten() == xs.flatten());
        assert(rle_decode(w, cs) == Ok::<Seq<u8>, CompressError>(xs.flatten()));
    }
}

/// All elements of the buffer hold the same byte pattern.
pub open spec fn constant_elems(w: int, bs: Seq<u8>) -> bool {
    forall|i: int|
        0 <= i < to_elems(w, bs).len() ==> #[trigger] to_elems(w, bs)[i] == to_elems(w, bs)[0]
}

/// A non-empty buffer holding one repeated element compresses to a single
/// run: eight count bytes plus one element, regardless of the input length.
pub proof fn lemma_single_run_output_len(codec: RLE, data: Seq<u8>)
    requires
        codec.valid(),
        data.len() as int % codec.spec_elem_size() == 0,
        data.len() >= 1,
        constant_elems(codec.spec_elem_size(), data),
    ensures
        codec.spec_compress(data).len() == 8 + codec.spec_elem_size(),
{
    let w = codec.spec_elem_size();
    let xs = to_elems(w, data);
    lemma_to_elems_wf(w, data);
    vstd::arithmetic::div_mod::lemma_fundamental_div_mod(data.len() as int, w);
    vstd::arithmetic::div_mod::lemma_div_pos_is_pos(data.len() as int, w);
    let n = xs.len() as int;
    assert(n >= 1) by {
        if n == 0 {
            assert(data.len() as int == w * 0 + data.len() as int % w);
        }
    }
    lemma_run_len_exact(xs, n);
    assert(min(run_len(xs) as int, n) == n);
    assert(xs.skip(n) =~= Seq::<Seq<u8>>::empty());
    lemma_le_bytes_len(n, 8);
    assert(codec.spec_compress(data) == le_bytes(n, 8) + xs[0] + rle_encode(xs.skip(n)));
}


/// The fixed-count encoding never grows a buffer more than ninefold: each
/// run costs eight count bytes plus one element and covers at least one
/// element.
pub proof fn lemma_rle_encode_len_bound(w: int, xs: Seq<Seq<u8>>)
    requires
        w >= 1,
        elems_wf(w, xs),
    ensures
        rle_encode(xs).len() <= xs.len() * (8 + w),
    decreases xs.len(),
{
    if xs.len() == 0 {
        assert(xs.len() * (8 + w) == 0) by (nonlinear_arith)
            requires
                xs.len() == 0,
        ;
    } else {
        lemma_run_len_props(xs);
        let l = run_len(xs) as int;
        assert(min(l, xs.len() as int) == l);
        lemma_le_bytes_len(l, 8);
        let ys = xs.skip(l);
        assert forall|i: int| 0 <= i < ys.len() implies (#[trigger] ys[i]).len() == w by {
            assert(ys[i] == xs[i + l]);
        }
        lemma_rle_encode_len_bound(w, ys);
        assert(8 + w + (xs.len() - l) * (8 + w) <= xs.len() * (8 + w)) by (nonlinear_arith)
            requires
                1 <= l <= xs.len(),
                w >= 1,
        ;
    }
}

/// The compressed form of a whole buffer is at most nine times its size.
pub proof fn lemma_rle_compress_len_bound(codec: RLE, data: Seq<u8>)
    requires
        codec.valid(),
        data.len() as int % codec.spec_elem_size() == 0,
    ensures
        codec.spec_compress(data).len() <= 9 * data.len(),
{
    let w = codec.spec_elem_size();
    let xs = to_elems(w, data);
    lemma_to_elems_wf(w, data);
    lemma_rle_encode_len_bound(w, xs);
    vstd::arithmetic::div_mod::lemma_fundamental_div_mod(data.len() as int, w);
    assert(data.len() as int == xs.len() * w) by (nonlinear_arith)
        requires
            data.len() as int == w * (xs.len() as int) + data.len() as int % w,
            data.len() as int % w == 0,
            xs.len() == data.len() as int / w,
    ;
    assert(xs.len() * (8 + w) <= 9 * (xs.len() * w)) by (nonlinear_arith)
        requires
            w >= 1,
    ;
}

/// Run-length codec with a fixed eight-byte count field per run.
pub struct RLE {
    pub elem_size: usize,
}

impl RLE {
    /// A run-length codec for elements of `elem_size` bytes.
    pub fn new(elem_size: usize) -> (r: Self)
        requires
            elem_size >= 1,
        ensures
            r.valid(),
            r.spec_elem_size() == elem_size,
    {
        RLE { elem_size }
    }
}

impl Compressor for RLE {
    open spec fn spec_elem_size(&self) -> int {
        self.elem_size as int
    }

    open spec fn valid(&self) -> bool {
        self.elem_size >= 1
    }

    open spec fn spec_compress(&self, data: Seq<u8>) -> Seq<u8> {
        rle_encode(to_elems(self.elem_size as int, data))
    }

    open spec fn spec_decompress(&self, compressed: Seq<u8>) -> Result<Seq<u8>, CompressError> {
        rle_decode(self.elem_size as int, compressed)
    }

    open spec fn spec_fits(&self, data: Seq<u8>) -> bool {
        data.len() < 0x1_0000_0000_0000_0000
    }

    proof fn lemma_valid_elem_size(&self) {
    }

    fn elem_size(&self) -> (width: usize) {
        self.elem_size
    }

    fn compress(&self, uncompressed: &[u8], compressed: &mut Vec<u8>) {
        let w = self.elem_size;
        let total = uncompressed.len();
        let n = total / w;
        let ghost xs = to_elems(w as int, uncompressed@);
        let ghost orig = compressed@;
        proof {
            lemma_to_elems_wf(w as int, uncompressed@);
        }
        if n == 0 {
            proof {
                assert(compressed@ =~= orig + rle_encode(xs));
            }
            return ;
        }
        let mut i: usize = 1;
        let mut run_start: usize = 0;
        proof {
            assert(xs.skip(0) =~= xs);
        }
        while i < n
            invariant
                self.elem_size == w,
                1 <= w,
                total == uncompressed@.len(),
                n == uncompressed@.len() as int / w as int,
                n >= 1,
                xs == to_elems(w as int, uncompressed@),
                elems_wf(w as int, xs),
                xs.len() == n,
                run_start < i <= n,
                forall|j: int| run_start <= j < i ==> xs[j] == xs[run_start as int],
                orig + rle_encode(xs) == compressed@ + rle_encode(xs.skip(run_start as int)),
            decreases n - i,
        {
            proof {
                assert((i + 1) * (w as int) <= n * (w as int)) by (nonlinear_arith)
                    requires
                        i + 1 <= n,
                        w >= 1,
                ;
                assert((run_start + 1) * (w as int) <= n * (w as int)) by (nonlinear_arith)
                    requires
                        run_start + 1 <= n,
                        w >= 1,
                ;
                vstd::arithmetic::div_mod::lemma_fundamental_div_mod(
                    uncompressed@.len() as int,
                    w as int,
                );
                vstd::arithmetic::div_mod::lemma_remainder_lower(
                    uncompressed@.len() as int,
                    w as int,
                );
                assert(n * (w as int) <= uncompressed@.len());
                assert(i * w + w == (i + 1) * (w as int)) by (nonlinear_arith);
                assert(run_start * w + w == (run_start + 1) * (w as int)) by (nonlinear_arith);
                assert(i * w + w <= total);
                assert(run_start * w + w <= total);
            }
            let same = range_eq(uncompressed, i * w, run_start * w, w);
            proof {
                assert(xs[i as int] == uncompressed@.subrange(
                    i as int * w as int,
                    (i + 1) * w as int,
                ));
                assert(xs[run_start as int] == uncompressed@.subrange(
                    run_start as int * w as int,
                    (run_start + 1) * w as int,
                ));
            }
            if !same {
                self.flush_run(uncompressed, compressed, run_start, i, Ghost(xs), Ghost(orig));
                run_start = i;
            }
            i = i + 1;
        }
        self.flush_run(uncompressed, compressed, run_start, n, Ghost(xs), Ghost(orig));
        proof {
            assert(xs.skip(n as int) =~= Seq::<Seq<u8>>::empty());
            assert(rle_encode(xs.skip(n as int)) =~= Seq::<u8>::empty());
            assert(compressed@ + Seq::<u8>::empty() =~= compressed@);
        }
    }

    fn decompress(&self, compressed: &[u8], uncompressed: &mut Vec<u8>) -> (r: Result<
        (),
        CompressError,
    >) {
        let w = self.elem_size;
        let total = compressed.len();
        let mut out: Vec<u8> = Vec::new();
        let mut index: usize = 0;
        proof {
            assert(compressed@.skip(0) =~= compressed@);
        }
        while index < total
            invariant
                self.elem_size == w,
                1 <= w,
                total == compressed@.len(),
                index <= total,
                rle_decode(w as int, compressed@) == match rle_decode(
                    w as int,
                    compressed@.skip(index as int),
                ) {
                    Ok(rest) => Ok::<Seq<u8>, CompressError>(out@ + rest),
                    Err(e) => Err::<Seq<u8>, CompressError>(e),
                },
            decreases total - index,
        {
            let ghost s = compressed@.skip(index as int);
            let rem = total - index;
            if rem < 8 || rem - 8 < w {
                assert(s.len() < 8 + w);
                return Err(CompressError::MalformedInput);
            }
            let count = read_le(compressed, index, 8);
            proof {
                assert(s.subrange(0, 8) =~= compressed@.subrange(index as int, index + 8));
                assert(s.subrange(8, 8 + w) =~= compressed@.subrange(
                    index + 8,
                    index + 8 + w,
                ));
                lemma_le_value_bound(s.subrange(0, 8));
            }
            let ghost elem = s.subrange(8, 8 + w);
            let ghost out_before = out@;
            let mut c: u64 = 0;
            while c < count
                invariant
                    self.elem_size == w,
                    1 <= w,
                    total == compressed@.len(),
                    index + 8 + w <= total,
                    c <= count,
                    elem == compressed@.subrange(index + 8, index + 8 + w),
                    out@ == out_before + repeat_elem(elem, c as nat),
                decreases count - c,
            {
                proof {
                    assert(out_before + repeat_elem(elem, c as nat) + elem =~= out_before
                        + (repeat_elem(elem, c as nat) + elem));
                    crate::algorithms::common::lemma_repeat_elem_snoc(elem, c as nat);
                }
                push_range(&mut out, compressed, index + 8, index + 8 + w);
                c = c + 1;
            }
            proof {
                assert(s.skip(8 + w) =~= compressed@.skip(index + 8 + w));
                match rle_decode(w as int, s.skip(8 + w)) {
                    Ok(rest) => {
                        assert(out_before + repeat_elem(elem, count as nat) + rest =~= out_before
                            + (repeat_elem(elem, count as nat) + rest));
                    },
                    Err(_) => {},
                }
            }
            index = index + 8 + w;
        }
        proof {
            assert(compressed@.skip(total as int) =~= Seq::<u8>::empty());
            assert(out@ + Seq::<u8>::empty() =~= out@);
        }
        let ghost target = uncompressed@;
        uncompressed.append(&mut out);
        Ok(())
    }

    proof fn lemma_round_trip(&self, data: Seq<u8>) {
        let w = self.elem_size as int;
        lemma_to_elems_wf(w, data);
        vstd::arithmetic::div_mod::lemma_div_nonincreasing(data.len() as int, w);
        vstd::arithmetic::div_mod::lemma_div_pos_is_pos(data.len() as int, w);
        lemma_rle_round_trip_elems(w, to_elems(w, data));
        lemma_to_elems_flatten(w, data);
    }
}

impl RLE {
    /// Writes out one finished run: the count, then the element's bytes.
    fn flush_run(
        &self,
        uncompressed: &[u8],
        compressed: &mut Vec<u8>,
        run_start: usize,
        end: usize,
        Ghost(xs): Ghost<Seq<Seq<u8>>>,
        Ghost(orig): Ghost<Seq<u8>>,
    )
        requires
            self.valid(),
            xs == to_elems(self.spec_elem_size(), uncompressed@),
            elems_wf(self.spec_elem_size(), xs),
            xs.len() == uncompressed@.len() as int / self.spec_elem_size(),
            run_start < end <= xs.len(),
            forall|j: int| run_start <= j < end ==> xs[j] == xs[run_start as int],
            end < xs.len() ==> xs[end as int] != xs[run_start as int],
            orig + rle_encode(xs) == old(compressed)@ + rle_encode(xs.skip(run_start as int)),
        ensures
            orig + rle_encode(xs) == final(compressed)@ + rle_encode(xs.skip(end as int)),
    {
        let w = self.elem_size;
        let total = uncompressed.len();
        let ghost ys = xs.skip(run_start as int);
        let ghost l = end - run_start as int;
        proof {
            assert forall|j: int| 0 <= j < l implies #[trigger] ys[j] == ys[0] by {
                assert(ys[j] == xs[j + run_start]);
                assert(ys[0] == xs[run_start as int]);
            }
            if l < ys.len() {
                assert(ys[l] == xs[end as int]);
            }
            lemma_run_len_exact(ys, l);
            assert(min(run_len(ys) as int, ys.len() as int) == l);
            vstd::arithmetic::div_mod::lemma_fundamental_div_mod(
                uncompressed@.len() as int,
                w as int,
            );
            vstd::arithmetic::div_mod::lemma_remainder_lower(
                uncompressed@.len() as int,
                w as int,
            );
            assert((run_start + 1) * (w as int) <= xs.len() * (w as int)) by (nonlinear_arith)
                requires
                    run_start + 1 <= xs.len(),
                    w >= 1,
            ;
            assert(xs.len() * (w as int) <= uncompressed@.len());
            assert(run_start * w + w == (run_start + 1) * (w as int)) by (nonlinear_arith);
            assert(run_start * w + w <= total);
        }
        push_le(compressed, (end - run_start) as u64, 8);
        push_range(compressed, uncompressed, run_start * w, run_start * w + w);
        proof {
            assert(ys[0] == xs[run_start as int]);
            assert(xs[run_start as int] == uncompressed@.subrange(
                run_start as int * w as int,
                (run_start + 1) * w as int,
            ));
            assert(uncompressed@.subrange(
                run_start as int * w as int,
                run_start as int * w as int + w as int,
            ) == xs[run_start as int]);
            assert(rle_encode(ys) == le_bytes(l, 8) + ys[0] + rle_encode(ys.skip(l)));
            assert(ys.skip(l) =~= xs.skip(end as int));
            assert(old(compressed)@ + le_bytes(l, 8) + xs[run_start as int] =~= old(compressed)@
                + (le_bytes(l, 8) + xs[run_start as int]));
            assert(old(compressed)@ + (le_bytes(l, 8) + ys[0] + rle_encode(ys.skip(l))) =~= (old(
                compressed,
            )@ + (le_bytes(l, 8) + ys[0])) + rle_encode(ys.skip(l)));
        }
    }
}

} // verus!
