//! Chunking decorator: splits the input into consecutive chunks of a fixed or
//! parallelism-derived number of elements, compresses every chunk with the
//! wrapped codec on a worker pool, and prepends a chunk table of
//! (byte offset, byte length) pairs so each chunk can be located and decoded
//! independently. The table's order is the reassembly order, whatever order
//! the workers finish in.

use vstd::prelude::*;

use rayon::iter::IntoParallelRefIterator;
use rayon::iter::ParallelIterator;

verus! {

use crate::compressor::{CompressError, Compressor};
use crate::algorithms::run_length_encoding::{RLE, lemma_rle_compress_len_bound};
use crate::algorithms::common::{
    le_bytes, le_value, pow256, lemma_le_bytes_len, lemma_le_bytes_value, lemma_le_value_bound,
    push_le, read_le, push_range,
};
use vstd::math::min;

// ---------------------------------------------------------------------------
// The wire format, as spec functions
// ---------------------------------------------------------------------------

/// Number of chunks needed to cover `n` elements at `cs` elements per chunk.
pub open spec fn chunk_count(n: int, cs: int) -> int
    recommends
        cs >= 1,
{
    n / cs + if n % cs == 0 {
        0int
    } else {
        1int
    }
}

/// The input split into consecutive chunks of `cs` elements of `w` bytes;
/// the last chunk may be shorter.
pub open spec fn spec_chunks(w: int, cs: int, data: Seq<u8>) -> Seq<Seq<u8>>
    recommends
        w >= 1,
        cs >= 1,
{
    let n = data.len() as int / w;
    Seq::new(
        chunk_count(n, cs) as nat,
        |i: int| data.subrange(i * cs * w, min((i + 1) * cs * w, data.len() as int)),
    )
}

/// Each chunk compressed by the inner codec, in chunk order.
pub open spec fn comp_seq<C: Compressor>(inner: &C, chunks: Seq<Seq<u8>>) -> Seq<Seq<u8>> {
    Seq::new(chunks.len(), |i: int| inner.spec_compress(chunks[i]))
}

/// Total byte length of the first `upto` compressed chunks.
pub open spec fn sum_lens(cc: Seq<Seq<u8>>, upto: int) -> int
    decreases upto,
{
    if upto <= 0 {
        0
    } else {
        sum_lens(cc, upto - 1) + cc[upto - 1].len()
    }
}

/// The chunk table for the first `upto` chunks: for each chunk its running
/// byte offset and its byte length, as eight-byte fields.
pub open spec fn table_bytes(cc: Seq<Seq<u8>>, upto: int) -> Seq<u8>
    decreases upto,
{
    if upto <= 0 {
        Seq::empty()
    } else {
        table_bytes(cc, upto - 1) + le_bytes(sum_lens(cc, upto - 1) % 0x1_0000_0000_0000_0000, 8)
            + le_bytes(cc[upto - 1].len() as int % 0x1_0000_0000_0000_0000, 8)
    }
}

/// The concatenated compressed chunks, in chunk order.
pub open spec fn payload(cc: Seq<Seq<u8>>, upto: int) -> Seq<u8>
    decreases upto,
{
    if upto <= 0 {
        Seq::empty()
    } else {
        payload(cc, upto - 1) + cc[upto - 1]
    }
}

/// Walks the chunk table and slices each chunk's bytes out of the data
/// region. Each entry's offset must equal the running position, the entry's
/// range must lie inside the data region, and the last entry must end exactly
/// at its end.
pub open spec fn parse_chunks(entries: Seq<u8>, data: Seq<u8>, i: int, k: int, pos: int) -> Option<
    Seq<Seq<u8>>,
>
    decreases k - i,
{
    if i >= k {
        if pos == data.len() {
            Some(Seq::empty())
        } else {
            None
        }
    } else {
        let off = le_value(entries.subrange(i * 16, i * 16 + 8));
        let cnt = le_value(entries.subrange(i * 16 + 8, i * 16 + 16));
        if off != pos || cnt > data.len() - pos {
            None
        } else {
            match parse_chunks(entries, data, i + 1, k, pos + cnt) {
                Some(rest) => Some(seq![data.subrange(pos, pos + cnt)] + rest),
                None => None,
            }
        }
    }
}

/// Decodes the sliced chunks one after the other with the inner codec and
/// concatenates the results in table order.
pub open spec fn decode_chunk_list<C: Compressor>(
    inner: &C,
    chunks: Seq<Seq<u8>>,
    i: int,
) -> Result<Seq<u8>, CompressError>
    decreases chunks.len() - i,
{
    if i >= chunks.len() {
        Ok(Seq::empty())
    } else {
        match inner.spec_decompress(chunks[i]) {
            Ok(one) => match decode_chunk_list(inner, chunks, i + 1) {
                Ok(rest) => Ok(one + rest),
                Err(e) => Err(e),
            },
            Err(e) => Err(e),
        }
    }
}

// ---------------------------------------------------------------------------
// Facts about the format
// ---------------------------------------------------------------------------

/// The chunk count covers all elements and no chunk is superfluous.
pub proof fn lemma_chunk_count_bounds(n: int, cs: int)
    requires
        n >= 0,
        cs >= 1,
    ensures
        chunk_count(n, cs) >= 0,
        n == 0 ==> chunk_count(n, cs) == 0,
        n >= 1 ==> 1 <= chunk_count(n, cs) <= n,
        n <= chunk_count(n, cs) * cs,
        chunk_count(n, cs) >= 1 ==> (chunk_count(n, cs) - 1) * cs < n,
{
    vstd::arithmetic::div_mod::lemma_fundamental_div_mod(n, cs);
    vstd::arithmetic::div_mod::lemma_div_pos_is_pos(n, cs);
    vstd::arithmetic::div_mod::lemma_remainder_lower(n, cs);
    vstd::arithmetic::div_mod::lemma_remainder_upper(n, cs);
    let q = n / cs;
    let r = n % cs;
    let k = chunk_count(n, cs);
    assert(n == cs * q + r);
    if r == 0 {
        assert(k == q);
        assert(k * cs == cs * q) by (nonlinear_arith)
            requires
                k == q,
        ;
        if k >= 1 {
            assert((k - 1) * cs == cs * q - cs) by (nonlinear_arith)
                requires
                    k == q,
            ;
        }
        if n >= 1 {
            assert(q >= 1) by {
                if q == 0 {
                    assert(n == cs * 0 + 0);
                }
            }
            assert(q <= n) by {
                vstd::arithmetic::div_mod::lemma_div_nonincreasing(n, cs);
            }
        }
    } else {
        assert(k == q + 1);
        assert(k * cs == cs * q + cs) by (nonlinear_arith)
            requires
                k == q + 1,
        ;
        assert((k - 1) * cs == cs * q) by (nonlinear_arith)
            requires
                k == q + 1,
        ;
        assert(n >= 1);
        assert(q <= n - 1) by {
            vstd::arithmetic::div_mod::lemma_div_nonincreasing(n, cs);
            if q == n {
                assert(n == cs * n + r);
                assert(cs * n >= n) by (nonlinear_arith)
                    requires
                        cs >= 1,
                        n >= 0,
                ;
            }
        }
    }
}

pub proof fn lemma_table_len(cc: Seq<Seq<u8>>, upto: int)
    requires
        upto >= 0,
    ensures
        table_bytes(cc, upto).len() == 16 * upto,
    decreases upto,
{
    if upto > 0 {
        lemma_table_len(cc, upto - 1);
        lemma_le_bytes_len(sum_lens(cc, upto - 1) % 0x1_0000_0000_0000_0000, 8);
        lemma_le_bytes_len(cc[upto - 1].len() as int % 0x1_0000_0000_0000_0000, 8);
    }
}

pub proof fn lemma_payload_len(cc: Seq<Seq<u8>>, upto: int)
    requires
        upto >= 0,
    ensures
        payload(cc, upto).len() == sum_lens(cc, upto),
    decreases upto,
{
    if upto > 0 {
        lemma_payload_len(cc, upto - 1);
    }
}

pub proof fn lemma_sum_lens_monotone(cc: Seq<Seq<u8>>, i: int, j: int)
    requires
        0 <= i <= j,
    ensures
        sum_lens(cc, i) <= sum_lens(cc, j),
    decreases j - i,
{
    if i < j {
        lemma_sum_lens_monotone(cc, i, j - 1);
    }
}

/// The table entry for chunk `i` holds its running offset and its length.
pub proof fn lemma_table_slice(cc: Seq<Seq<u8>>, i: int, k: int)
    requires
        0 <= i < k,
    ensures
        table_bytes(cc, k).subrange(16 * i, 16 * i + 8) == le_bytes(
            sum_lens(cc, i) % 0x1_0000_0000_0000_0000,
            8,
        ),
        table_bytes(cc, k).subrange(16 * i + 8, 16 * i + 16) == le_bytes(
            cc[i].len() as int % 0x1_0000_0000_0000_0000,
            8,
        ),
    decreases k,
{
    lemma_table_len(cc, k - 1);
    lemma_le_bytes_len(sum_lens(cc, k - 1) % 0x1_0000_0000_0000_0000, 8);
    lemma_le_bytes_len(cc[k - 1].len() as int % 0x1_0000_0000_0000_0000, 8);
    if i == k - 1 {
        assert(table_bytes(cc, k).subrange(16 * i, 16 * i + 8) =~= le_bytes(
            sum_lens(cc, i) % 0x1_0000_0000_0000_0000,
            8,
        ));
        assert(table_bytes(cc, k).subrange(16 * i + 8, 16 * i + 16) =~= le_bytes(
            cc[i].len() as int % 0x1_0000_0000_0000_0000,
            8,
        ));
    } else {
        lemma_table_slice(cc, i, k - 1);
        lemma_table_len(cc, k);
        assert(table_bytes(cc, k).subrange(16 * i, 16 * i + 8) =~= table_bytes(
            cc,
            k - 1,
        ).subrange(16 * i, 16 * i + 8));
        assert(table_bytes(cc, k).subrange(16 * i + 8, 16 * i + 16) =~= table_bytes(
            cc,
            k - 1,
        ).subrange(16 * i + 8, 16 * i + 16));
    }
}

/// The payload holds chunk `i`'s bytes between its offset and its end.
pub proof fn lemma_payload_slice(cc: Seq<Seq<u8>>, i: int, k: int)
    requires
        0 <= i < k,
    ensures
        payload(cc, k).subrange(sum_lens(cc, i), sum_lens(cc, i + 1)) == cc[i],
    decreases k,
{
    lemma_payload_len(cc, k - 1);
    lemma_payload_len(cc, k);
    if i == k - 1 {
        assert(payload(cc, k).subrange(sum_lens(cc, i), sum_lens(cc, i + 1)) =~= cc[i]);
    } else {
        lemma_payload_slice(cc, i, k - 1);
        lemma_sum_lens_monotone(cc, i + 1, k - 1);
        lemma_sum_lens_nonneg(cc, i);
        lemma_sum_lens_monotone(cc, i, i + 1);
        assert(payload(cc, k).subrange(sum_lens(cc, i), sum_lens(cc, i + 1)) =~= payload(
            cc,
            k - 1,
        ).subrange(sum_lens(cc, i), sum_lens(cc, i + 1)));
    }
}

// ---------------------------------------------------------------------------
// Trusted parallel plumbing
// ---------------------------------------------------------------------------

/// Relies on rayon's `current_num_threads`: the number of worker threads in
/// the current pool (or the global pool), which is never zero, since a pool
/// configured with zero threads falls back to the default thread count.
#[verifier::external_body]
fn worker_count() -> (n: usize)
    ensures
        n >= 1,
{
    rayon::current_num_threads()
}

/// Relies on rayon's `par_iter().map(..).collect()`: the collected vector has
/// one result per input chunk, in the input's order. Each closure call runs
/// the verified `Compressor::compress` on one chunk, so each result is that
/// chunk's compressed form.
#[verifier::external_body]
fn par_compress_chunks<C: Compressor + Sync>(inner: &C, chunks: &Vec<Vec<u8>>) -> (outs: Vec<
    Vec<u8>,
>)
    requires
        inner.valid(),
        forall|i: int|
            0 <= i < chunks@.len() ==> (#[trigger] chunks@[i])@.len() as int
                % inner.spec_elem_size() == 0,
    ensures
        outs@.len() == chunks@.len(),
        forall|i: int|
            0 <= i < outs@.len() ==> (#[trigger] outs@[i])@ == inner.spec_compress(chunks@[i]@),
{
    chunks
        .par_iter()
        .map(|chunk| {
            let mut local = Vec::new();
            inner.compress(chunk, &mut local);
            local
        })
        .collect()
}

/// Relies on rayon's `par_iter().map(..).collect()`: the collected vector has
/// one result per input chunk, in the input's order. Each closure call runs
/// the verified `Compressor::decompress` on one chunk, so each entry is that
/// chunk's decoded elements or its decoding error.
#[verifier::external_body]
fn par_decompress_chunks<C: Compressor + Sync>(inner: &C, chunks: &Vec<Vec<u8>>) -> (outs: Vec<
    Result<Vec<u8>, CompressError>,
>)
    requires
        inner.valid(),
    ensures
        outs@.len() == chunks@.len(),
        forall|i: int|
            0 <= i < outs@.len() ==> match #[trigger] outs@[i] {
                Ok(one) => inner.spec_decompress(chunks@[i]@) == Ok::<Seq<u8>, CompressError>(
                    one@,
                ),
                Err(e) => inner.spec_decompress(chunks@[i]@) == Err::<Seq<u8>, CompressError>(e),
            },
{
    chunks
        .par_iter()
        .map(|chunk| {
            let mut local = Vec::new();
            match inner.decompress(chunk, &mut local) {
                Ok(()) => Ok(local),
                Err(e) => Err(e),
            }
        })
        .collect()
}

// ---------------------------------------------------------------------------
// The decorator
// ---------------------------------------------------------------------------

/// Wraps an inner codec and compresses consecutive chunks of the input
/// independently and in parallel. `chunk_size` is a fixed chunk length in
/// elements; without one, the chunk length is derived from the worker count
/// so that the chunk count roughly tracks half the available workers.
pub struct ParChunked<C: Compressor + Sync> {
    pub compressor: C,
    pub chunk_size: Option<usize>,
    pub parallelism: usize,
}

impl<C: Compressor + Sync> ParChunked<C> {
    /// Wraps `compressor`, with a fixed chunk length in elements or the
    /// worker-derived default.
    pub fn new_with(compressor: C, chunk_size: Option<usize>) -> (r: Self)
        requires
            compressor.valid(),
            chunk_size matches Some(cs) ==> cs >= 1,
        ensures
            r.valid(),
            r.compressor == compressor,
            r.chunk_size == chunk_size,
            r.spec_elem_size() == compressor.spec_elem_size(),
    {
        let workers = worker_count();
        let half = workers / 2;
        let parallelism = if half < 1 {
            1
        } else {
            half
        };
        ParChunked { compressor, chunk_size, parallelism }
    }

    /// Chunk length in elements for an input of `n_elems` elements.
    pub open spec fn spec_chunk_elems(&self, n_elems: int) -> int {
        match self.chunk_size {
            Some(cs) => cs as int,
            None => {
                let p = self.parallelism as int;
                let per = n_elems / p + if n_elems % p == 0 {
                    0int
                } else {
                    1int
                };
                if per < 1 {
                    1
                } else {
                    per
                }
            },
        }
    }

    fn chunk_elems(&self, n_elems: usize) -> (r: usize)
        requires
            self.valid(),
        ensures
            r as int == self.spec_chunk_elems(n_elems as int),
            r >= 1,
    {
        match self.chunk_size {
            Some(cs) => cs,
            None => {
                let p = self.parallelism;
                let per = if n_elems % p == 0 {
                    n_elems / p
                } else {
                    proof {
                        vstd::arithmetic::div_mod::lemma_mod_multiples_basic(n_elems as int, 1);
                        assert(n_elems as int * 1 == n_elems as int) by (nonlinear_arith);
                        assert(p >= 2);
                        vstd::arithmetic::div_mod::lemma_small_mod(0, p as nat);
                        assert(n_elems >= 1);
                        vstd::arithmetic::div_mod::lemma_div_decreases(n_elems as int, p as int);
                    }
                    n_elems / p + 1
                };
                if per < 1 {
                    1
                } else {
                    per
                }
            },
        }
    }
}

impl<C: Compressor + Sync> Compressor for ParChunked<C> {
    open spec fn spec_elem_size(&self) -> int {
        self.compressor.spec_elem_size()
    }

    open spec fn valid(&self) -> bool {
        &&& self.compressor.valid()
        &&& (self.chunk_size matches Some(cs) ==> cs >= 1)
        &&& self.parallelism >= 1
    }

    open spec fn spec_compress(&self, data: Seq<u8>) -> Seq<u8> {
        let w = self.compressor.spec_elem_size();
        let cs = self.spec_chunk_elems(data.len() as int / w);
        let chunks = spec_chunks(w, cs, data);
        let cc = comp_seq(&self.compressor, chunks);
        let k = chunks.len() as int;
        le_bytes(k % 0x1_0000_0000_0000_0000, 8) + table_bytes(cc, k) + payload(cc, k)
    }

    open spec fn spec_decompress(&self, compressed: Seq<u8>) -> Result<Seq<u8>, CompressError> {
        if compressed.len() < 8 {
            Err(CompressError::MalformedInput)
        } else {
            let k = le_value(compressed.subrange(0, 8));
            if k > (compressed.len() - 8) / 16 {
                Err(CompressError::MalformedInput)
            } else {
                let entries = compressed.subrange(8, 8 + 16 * k);
                let data = compressed.skip(8 + 16 * k);
                match parse_chunks(entries, data, 0, k, 0) {
                    None => Err(CompressError::MalformedInput),
                    Some(slices) => decode_chunk_list(&self.compressor, slices, 0),
                }
            }
        }
    }

    open spec fn spec_fits(&self, data: Seq<u8>) -> bool {
        let w = self.compressor.spec_elem_size();
        let cs = self.spec_chunk_elems(data.len() as int / w);
        let chunks = spec_chunks(w, cs, data);
        let cc = comp_seq(&self.compressor, chunks);
        &&& data.len() < 0x1_0000_0000_0000_0000
        &&& sum_lens(cc, chunks.len() as int) < 0x1_0000_0000_0000_0000
        &&& forall|i: int| 0 <= i < chunks.len() ==> self.compressor.spec_fits(#[trigger] chunks[i])
    }

    proof fn lemma_valid_elem_size(&self) {
        self.compressor.lemma_valid_elem_size();
    }

    fn elem_size(&self) -> (width: usize) {
        self.compressor.elem_size()
    }

    fn compress(&self, uncompressed: &[u8], compressed: &mut Vec<u8>) {
        let w = self.compressor.elem_size();
        let total = uncompressed.len();
        let n = total / w;
        let cs = self.chunk_elems(n);
        let k = chunk_count_exec(n, cs);
        let ghost chunks_spec = spec_chunks(w as int, cs as int, uncompressed@);
        let ghost cc = comp_seq(&self.compressor, chunks_spec);
        let ghost orig = compressed@;
        proof {
            lemma_chunk_count_bounds(n as int, cs as int);
            vstd::arithmetic::div_mod::lemma_fundamental_div_mod(total as int, w as int);
            assert(total as int == n * (w as int)) by (nonlinear_arith)
                requires
                    total as int == (w as int) * (n as int) + total as int % (w as int),
                    total as int % (w as int) == 0,
            ;
        }

        // Cut the input into chunks of `cs` elements.
        let mut chunks: Vec<Vec<u8>> = Vec::new();
        let mut j: usize = 0;
        while j < k
            invariant
                self.valid(),
                w == self.compressor.spec_elem_size(),
                w >= 1,
                cs >= 1,
                total == uncompressed@.len(),
                total as int == n * (w as int),
                n == total as int / w as int,
                k as int == chunk_count(n as int, cs as int),
                k <= n,
                chunks_spec == spec_chunks(w as int, cs as int, uncompressed@),
                chunks_spec.len() == k,
                chunks@.len() == j,
                j <= k,
                forall|t: int| 0 <= t < j ==> (#[trigger] chunks@[t])@ == chunks_spec[t],
            decreases k - j,
        {
            proof {
                lemma_chunk_count_bounds(n as int, cs as int);
                assert(j as int * cs < n) by (nonlinear_arith)
                    requires
                        j < k,
                        k as int * (cs as int) >= 0,
                        (k as int - 1) * (cs as int) < n as int,
                        cs >= 1,
                        j >= 0,
                        n >= 0,
                ;
            }
            let start = j * cs;
            let end = if n - start < cs {
                n
            } else {
                start + cs
            };
            proof {
                assert(start * w <= end * w && end * w <= n * (w as int)) by (nonlinear_arith)
                    requires
                        start <= end,
                        end <= n,
                        w >= 1,
                ;
            }
            let sb = start * w;
            let eb = end * w;
            let mut chunk: Vec<u8> = Vec::new();
            push_range(&mut chunk, uncompressed, sb, eb);
            proof {
                let jj = j as int;
                assert(jj * cs * w == sb as int) by (nonlinear_arith)
                    requires
                        sb as int == (jj * cs) * (w as int),
                ;
                if n - start < cs {
                    assert((jj + 1) * (cs as int) >= n as int) by (nonlinear_arith)
                        requires
                            jj * (cs as int) == start as int,
                            n as int - start < cs,
                    ;
                    assert((jj + 1) * cs * w >= n * (w as int)) by (nonlinear_arith)
                        requires
                            (jj + 1) * (cs as int) >= n as int,
                            w >= 1,
                    ;
                    assert(min((jj + 1) * cs * w, total as int) == eb as int);
                } else {
                    assert((jj + 1) * cs * w == eb as int) by (nonlinear_arith)
                        requires
                            eb as int == (start + cs) * (w as int),
                            start == jj * cs,
                    ;
                    assert((jj + 1) * cs * w <= total as int);
                    assert(min((jj + 1) * cs * w, total as int) == eb as int);
                }
                assert(chunk@ == chunks_spec[j as int]);
            }
            chunks.push(chunk);
            j = j + 1;
        }
        proof {
            assert forall|t: int| 0 <= t < k implies (#[trigger] chunks@[t])@.len() as int
                % self.compressor.spec_elem_size() == 0 by {
                assert(chunks@[t]@ == chunks_spec[t]);
                lemma_chunk_multiple(w as int, cs as int, uncompressed@, t);
            }
        }

        // Compress every chunk on the worker pool.
        let outs = par_compress_chunks(&self.compressor, &chunks);
        proof {
            assert forall|t: int| 0 <= t < k implies (#[trigger] outs@[t])@ == cc[t] by {
                assert(outs@[t]@ == self.compressor.spec_compress(chunks@[t]@));
            }
        }

        // Chunk count, chunk table, then the concatenated chunk bytes.
        push_le(compressed, k as u64, 8);
        let ghost header = le_bytes(k as int % 0x1_0000_0000_0000_0000, 8);
        proof {
            assert(k as int % 0x1_0000_0000_0000_0000 == k as int);
            assert(compressed@ == orig + header);
        }
        let mut offset: u64 = 0;
        let mut j: usize = 0;
        while j < k
            invariant
                outs@.len() == k,
                forall|t: int| 0 <= t < k ==> (#[trigger] outs@[t])@ == cc[t],
                j <= k,
                offset as int == sum_lens(cc, j as int) % 0x1_0000_0000_0000_0000,
                compressed@ == orig + header + table_bytes(cc, j as int),
            decreases k - j,
        {
            let ghost before = compressed@;
            push_le(compressed, offset, 8);
            let li = outs[j].len();
            push_le(compressed, li as u64, 8);
            proof {
                assert(li as int % 0x1_0000_0000_0000_0000 == li as int);
                assert(before + le_bytes(offset as int, 8) + le_bytes(li as int, 8) =~= orig
                    + header + (table_bytes(cc, j as int) + le_bytes(
                    sum_lens(cc, j as int) % 0x1_0000_0000_0000_0000,
                    8,
                ) + le_bytes(cc[j as int].len() as int % 0x1_0000_0000_0000_0000, 8)));
                vstd::arithmetic::div_mod::lemma_add_mod_noop(
                    sum_lens(cc, j as int),
                    li as int,
                    0x1_0000_0000_0000_0000,
                );
                vstd::arithmetic::div_mod::lemma_mod_bound(li as int, 0x1_0000_0000_0000_0000);
                vstd::arithmetic::div_mod::lemma_small_mod(
                    li as nat,
                    0x1_0000_0000_0000_0000 as nat,
                );
            }
            offset = offset.wrapping_add(li as u64);
            proof {
                assert(offset as int == sum_lens(cc, j + 1) % 0x1_0000_0000_0000_0000) by {
                    vstd::arithmetic::div_mod::lemma_add_mod_noop(
                        sum_lens(cc, j as int),
                        li as int,
                        0x1_0000_0000_0000_0000,
                    );
                    vstd::arithmetic::div_mod::lemma_mod_bound(
                        sum_lens(cc, j as int),
                        0x1_0000_0000_0000_0000,
                    );
                    vstd::arithmetic::div_mod::lemma_small_mod(
                        li as nat,
                        0x1_0000_0000_0000_0000 as nat,
                    );
                    vstd::arithmetic::div_mod::lemma_mod_bound(
                        sum_lens(cc, j as int) % 0x1_0000_0000_0000_0000 + li as int,
                        0x1_0000_0000_0000_0000,
                    );
                }
            }
            j = j + 1;
        }
        let mut j: usize = 0;
        while j < k
            invariant
                outs@.len() == k,
                forall|t: int| 0 <= t < k ==> (#[trigger] outs@[t])@ == cc[t],
                j <= k,
                compressed@ == orig + header + table_bytes(cc, k as int) + payload(cc, j as int),
            decreases k - j,
        {
            let ghost before = compressed@;
            let li = outs[j].len();
            push_range(compressed, outs[j].as_slice(), 0, li);
            proof {
                assert(outs@[j as int]@.subrange(0, li as int) =~= cc[j as int]);
                assert(before + cc[j as int] =~= orig + header + table_bytes(cc, k as int)
                    + payload(cc, j + 1));
            }
            j = j + 1;
        }
        proof {
            assert(orig + header + table_bytes(cc, k as int) + payload(cc, k as int) =~= orig + (
            header + table_bytes(cc, k as int) + payload(cc, k as int)));
        }
    }

    fn decompress(&self, compressed: &[u8], uncompressed: &mut Vec<u8>) -> (r: Result<
        (),
        CompressError,
    >) {
        let total = compressed.len();
        if total < 8 {
            return Err(CompressError::MalformedInput);
        }
        let k64 = read_le(compressed, 0, 8);
        proof {
            assert(compressed@.subrange(0, 8) =~= compressed@.subrange(0int, 0int + 8));
        }
        let avail = (total - 8) / 16;
        if k64 > avail as u64 {
            return Err(CompressError::MalformedInput);
        }
        let k = k64 as usize;
        proof {
            vstd::arithmetic::div_mod::lemma_fundamental_div_mod(total as int - 8, 16);
            vstd::arithmetic::div_mod::lemma_remainder_lower(total as int - 8, 16);
            assert(16 * (k as int) <= 16 * (avail as int)) by (nonlinear_arith)
                requires
                    k as int <= avail as int,
            ;
        }
        let data_start = 8 + 16 * k;
        let data_len = total - data_start;
        let ghost entries = compressed@.subrange(8, 8 + 16 * k as int);
        let ghost data = compressed@.skip(8 + 16 * k as int);

        // Walk the table, validating each entry and slicing its chunk out.
        let mut chunks: Vec<Vec<u8>> = Vec::new();
        let mut pos: usize = 0;
        let mut i: usize = 0;
        while i < k
            invariant
                total == compressed@.len(),
                8 + 16 * k <= total,
                le_value(compressed@.subrange(0, 8)) == k as int,
                k as int <= (total as int - 8) / 16,
                data_start == 8 + 16 * k,
                data_len == total - data_start,
                entries == compressed@.subrange(8, 8 + 16 * k as int),
                data == compressed@.skip(8 + 16 * k as int),
                data.len() == data_len,
                i <= k,
                pos <= data_len,
                chunks@.len() == i,
                forall|t: int| 0 <= t < i ==> (#[trigger] chunks@[t])@.len() <= data_len,
                parse_chunks(entries, data, 0, k as int, 0) == match parse_chunks(
                    entries,
                    data,
                    i as int,
                    k as int,
                    pos as int,
                ) {
                    Some(rest) => Some(chunk_views(chunks@) + rest),
                    None => None::<Seq<Seq<u8>>>,
                },
            decreases k - i,
        {
            let e_off = 8 + 16 * i;
            let off = read_le(compressed, e_off, 8);
            let cnt = read_le(compressed, e_off + 8, 8);
            proof {
                assert(entries.subrange(16 * i as int, 16 * i as int + 8) =~= compressed@.subrange(
                    e_off as int,
                    e_off + 8,
                ));
                assert(entries.subrange(16 * i as int + 8, 16 * i as int + 16)
                    =~= compressed@.subrange(e_off + 8, e_off + 16));
                lemma_le_value_bound(entries.subrange(16 * i as int, 16 * i as int + 8));
                lemma_le_value_bound(entries.subrange(16 * i as int + 8, 16 * i as int + 16));
            }
            if off != pos as u64 {
                return Err(CompressError::MalformedInput);
            }
            if cnt > (data_len - pos) as u64 {
                return Err(CompressError::MalformedInput);
            }
            let cnt_us = cnt as usize;
            let mut chunk: Vec<u8> = Vec::new();
            push_range(&mut chunk, compressed, data_start + pos, data_start + pos + cnt_us);
            proof {
                assert(chunk@ =~= data.subrange(pos as int, pos + cnt_us));
                let rest0 = parse_chunks(entries, data, i as int, k as int, pos as int);
                let rest1 = parse_chunks(entries, data, i + 1, k as int, pos + cnt_us);
                match rest1 {
                    Some(r1) => {
                        assert(rest0 == Some(seq![chunk@] + r1));
                        assert(chunk_views(chunks@.push(chunk)) =~~= chunk_views(chunks@)
                            + seq![chunk@]);
                        assert(chunk_views(chunks@) + (seq![chunk@] + r1) =~~= (chunk_views(
                            chunks@,
                        ) + seq![chunk@]) + r1);
                    },
                    None => {
                        assert(rest0 is None);
                    },
                }
            }
            chunks.push(chunk);
            pos = pos + cnt_us;
            i = i + 1;
        }
        if pos != data_len {
            proof {
                assert(parse_chunks(entries, data, k as int, k as int, pos as int) is None);
            }
            return Err(CompressError::MalformedInput);
        }
        proof {
            assert(parse_chunks(entries, data, k as int, k as int, pos as int) == Some(
                Seq::<Seq<u8>>::empty(),
            ));
            assert(chunk_views(chunks@) + Seq::<Seq<u8>>::empty() =~~= chunk_views(chunks@));
        }
        let ghost slices = chunk_views(chunks@);

        // Decode every chunk on the worker pool, then stitch the results
        // together in table order.
        let outs = par_decompress_chunks(&self.compressor, &chunks);
        let mut out: Vec<u8> = Vec::new();
        let mut i: usize = 0;
        while i < k
            invariant
                self.valid(),
                total == compressed@.len(),
                8 + 16 * k <= total,
                le_value(compressed@.subrange(0, 8)) == k as int,
                k as int <= (total as int - 8) / 16,
                entries == compressed@.subrange(8, 8 + 16 * k as int),
                data == compressed@.skip(8 + 16 * k as int),
                parse_chunks(entries, data, 0, k as int, 0) == Some(slices),
                outs@.len() == k,
                chunks@.len() == k,
                slices == chunk_views(chunks@),
                slices.len() == k,
                forall|t: int|
                    0 <= t < k ==> match #[trigger] outs@[t] {
                        Ok(one) => self.compressor.spec_decompress(chunks@[t]@) == Ok::<
                            Seq<u8>,
                            CompressError,
                        >(one@),
                        Err(e) => self.compressor.spec_decompress(chunks@[t]@) == Err::<
                            Seq<u8>,
                            CompressError,
                        >(e),
                    },
                i <= k,
                decode_chunk_list(&self.compressor, slices, 0) == match decode_chunk_list(
                    &self.compressor,
                    slices,
                    i as int,
                ) {
                    Ok(rest) => Ok::<Seq<u8>, CompressError>(out@ + rest),
                    Err(e) => Err::<Seq<u8>, CompressError>(e),
                },
            decreases k - i,
        {
            proof {
                assert(slices[i as int] == chunks@[i as int]@);
            }
            match &outs[i] {
                Ok(one) => {
                    let ghost before = out@;
                    push_range(&mut out, one.as_slice(), 0, one.len());
                    proof {
                        assert(one@.subrange(0, one@.len() as int) =~= one@);
                        match decode_chunk_list(&self.compressor, slices, i + 1) {
                            Ok(rest) => {
                                assert(before + one@ + rest =~= before + (one@ + rest));
                            },
                            Err(_) => {},
                        }
                    }
                },
                Err(e) => {
                    return Err(*e);
                },
            }
            i = i + 1;
        }
        proof {
            assert(decode_chunk_list(&self.compressor, slices, k as int) == Ok::<
                Seq<u8>,
                CompressError,
            >(Seq::empty()));
            assert(out@ + Seq::<u8>::empty() =~= out@);
        }
        uncompressed.append(&mut out);
        Ok(())
    }

    proof fn lemma_round_trip(&self, data: Seq<u8>) {
        let w = self.compressor.spec_elem_size();
        self.compressor.lemma_valid_elem_size();
        let n = data.len() as int / w;
        let cs = self.spec_chunk_elems(n);
        let chunks = spec_chunks(w, cs, data);
        let cc = comp_seq(&self.compressor, chunks);
        let k = chunks.len() as int;
        let m = 0x1_0000_0000_0000_0000;
        lemma_chunk_count_bounds(n, cs);
        vstd::arithmetic::div_mod::lemma_div_pos_is_pos(data.len() as int, w);
        vstd::arithmetic::div_mod::lemma_div_nonincreasing(data.len() as int, w);
        assert(0 <= k < m);
        let b = self.spec_compress(data);
        let header = le_bytes(k % m, 8);
        lemma_le_bytes_len(k % m, 8);
        lemma_table_len(cc, k);
        lemma_payload_len(cc, k);
        vstd::arithmetic::div_mod::lemma_small_mod(k as nat, m as nat);
        assert(b.len() == 8 + 16 * k + sum_lens(cc, k));
        assert(b.subrange(0, 8) =~= header);
        assert(pow256(8) == m) by {
            reveal_with_fuel(pow256, 9);
        }
        lemma_le_bytes_value(k, 8);
        assert(le_value(b.subrange(0, 8)) == k);
        lemma_sum_lens_nonneg(cc, k);
        assert(k <= (b.len() - 8) / 16) by {
            vstd::arithmetic::div_mod::lemma_div_is_ordered(
                16 * k,
                b.len() as int - 8,
                16,
            );
            assert(16 * k / 16 == k) by {
                vstd::arithmetic::div_mod::lemma_div_multiples_vanish(k, 16);
            }
        }
        let entries = b.subrange(8, 8 + 16 * k);
        let dreg = b.skip(8 + 16 * k);
        assert(entries =~= table_bytes(cc, k));
        assert(dreg =~= payload(cc, k));
        lemma_parse_encoded_chunks(cc, k, 0);
        assert(parse_chunks(table_bytes(cc, k), payload(cc, k), 0, k, 0) == Some(
            cc.skip(0),
        ));
        assert(cc.skip(0) =~= cc);
        lemma_decode_encoded_chunks(self, data, 0);
        assert(chunks.skip(0) =~= chunks);
        lemma_chunks_flatten(w, cs, data, 0);
        assert(data.skip(0) =~= data);
    }
}

/// Chunk-table consistency: the compressed buffer consists of exactly the
/// eight-byte chunk count, sixteen table bytes per chunk, and the compressed
/// chunks themselves, and each table entry's count field reads back as its
/// chunk's compressed byte length whenever that length fits its slot.
pub proof fn lemma_chunk_table_consistency<C: Compressor + Sync>(pc: &ParChunked<C>, data: Seq<u8>)
    requires
        pc.valid(),
        data.len() as int % pc.compressor.spec_elem_size() == 0,
    ensures
        ({
            let w = pc.compressor.spec_elem_size();
            let cs = pc.spec_chunk_elems(data.len() as int / w);
            let chunks = spec_chunks(w, cs, data);
            let cc = comp_seq(&pc.compressor, chunks);
            let k = chunks.len() as int;
            &&& pc.spec_compress(data).len() == 8 + 16 * k + sum_lens(cc, k)
            &&& forall|i: int|
                0 <= i < k && (#[trigger] cc[i]).len() < 0x1_0000_0000_0000_0000 ==> le_value(
                    pc.spec_compress(data).subrange(8 + 16 * i + 8, 8 + 16 * i + 16),
                ) == cc[i].len()
        }),
{
    let w = pc.compressor.spec_elem_size();
    let cs = pc.spec_chunk_elems(data.len() as int / w);
    let chunks = spec_chunks(w, cs, data);
    let cc = comp_seq(&pc.compressor, chunks);
    let k = chunks.len() as int;
    let m = 0x1_0000_0000_0000_0000;
    let b = pc.spec_compress(data);
    lemma_le_bytes_len(k % m, 8);
    lemma_table_len(cc, k);
    lemma_payload_len(cc, k);
    assert forall|i: int|
        0 <= i < k && (#[trigger] cc[i]).len() < 0x1_0000_0000_0000_0000 implies le_value(
        b.subrange(8 + 16 * i + 8, 8 + 16 * i + 16),
    ) == cc[i].len() by {
        lemma_table_slice(cc, i, k);
        assert(b.subrange(8 + 16 * i + 8, 8 + 16 * i + 16) =~= table_bytes(cc, k).subrange(
            16 * i + 8,
            16 * i + 16,
        ));
        vstd::arithmetic::div_mod::lemma_small_mod(cc[i].len(), m as nat);
        assert(pow256(8) == m) by {
            reveal_with_fuel(pow256, 9);
        }
        lemma_le_bytes_value(cc[i].len() as int, 8);
    }
}


/// The compressed chunks of a run-length inner codec never outgrow nine times
/// the input bytes they cover.
proof fn lemma_par_rle_sum_bound(pc: &ParChunked<RLE>, data: Seq<u8>, j: int)
    requires
        pc.valid(),
        data.len() as int % pc.compressor.spec_elem_size() == 0,
        0 <= j <= spec_chunks(
            pc.compressor.spec_elem_size(),
            pc.spec_chunk_elems(data.len() as int / pc.compressor.spec_elem_size()),
            data,
        ).len(),
    ensures
        ({
            let w = pc.compressor.spec_elem_size();
            let cs = pc.spec_chunk_elems(data.len() as int / w);
            let cc = comp_seq(&pc.compressor, spec_chunks(w, cs, data));
            sum_lens(cc, j) <= 9 * min(j * cs * w, data.len() as int)
        }),
    decreases j,
{
    let w = pc.compressor.spec_elem_size();
    pc.compressor.lemma_valid_elem_size();
    let cs = pc.spec_chunk_elems(data.len() as int / w);
    let chunks = spec_chunks(w, cs, data);
    let cc = comp_seq(&pc.compressor, chunks);
    if j == 0 {
        assert(0 * cs * w == 0) by (nonlinear_arith);
    } else {
        lemma_par_rle_sum_bound(pc, data, j - 1);
        lemma_chunk_multiple(w, cs, data, j - 1);
        lemma_rle_compress_len_bound(pc.compressor, chunks[j - 1]);
        let lo = (j - 1) * cs * w;
        let hi = min(j * cs * w, data.len() as int);
        assert((j - 1) * cs * w + cs * w == j * cs * w) by (nonlinear_arith);
        assert(lo < data.len() || data.len() == 0);
        assert(min((j - 1) * cs * w, data.len() as int) == lo);
        assert(chunks[j - 1].len() == hi - lo);
        assert(cc[j - 1] == pc.compressor.spec_compress(chunks[j - 1]));
        assert(sum_lens(cc, j) <= 9 * lo + 9 * (hi - lo));
    }
}

/// With the fixed-count run-length codec inside, every input of up to 2^60
/// bytes keeps all 64-bit fields of the chunked format within range, so the
/// chunked round trip holds for any input a machine can hold.
pub proof fn lemma_par_rle_fits(pc: &ParChunked<RLE>, data: Seq<u8>)
    requires
        pc.valid(),
        data.len() as int % pc.compressor.spec_elem_size() == 0,
        data.len() <= 0x1000_0000_0000_0000,
    ensures
        pc.spec_fits(data),
{
    let w = pc.compressor.spec_elem_size();
    pc.compressor.lemma_valid_elem_size();
    let cs = pc.spec_chunk_elems(data.len() as int / w);
    let chunks = spec_chunks(w, cs, data);
    let k = chunks.len() as int;
    assert forall|i: int| 0 <= i < k implies pc.compressor.spec_fits(#[trigger] chunks[i]) by {
        lemma_chunk_multiple(w, cs, data, i);
    }
    lemma_par_rle_sum_bound(pc, data, k);
}

/// The views of a vector of chunk buffers.
pub open spec fn chunk_views(v: Seq<Vec<u8>>) -> Seq<Seq<u8>> {
    Seq::new(v.len(), |i: int| v[i]@)
}

/// Executable chunk count: how many chunks cover `n` elements.
pub(crate) fn chunk_count_exec(n: usize, cs: usize) -> (k: usize)
    requires
        cs >= 1,
    ensures
        k as int == chunk_count(n as int, cs as int),
{
    if n % cs == 0 {
        n / cs
    } else {
        proof {
            vstd::arithmetic::div_mod::lemma_mod_multiples_basic(n as int, 1);
            assert(n as int * 1 == n as int) by (nonlinear_arith);
            assert(cs >= 2);
            vstd::arithmetic::div_mod::lemma_small_mod(0, cs as nat);
            assert(n >= 1);
            vstd::arithmetic::div_mod::lemma_div_decreases(n as int, cs as int);
        }
        n / cs + 1
    }
}

pub proof fn lemma_sum_lens_nonneg(cc: Seq<Seq<u8>>, upto: int)
    ensures
        sum_lens(cc, upto) >= 0,
    decreases
            if upto >= 0 {
                upto
            } else {
                0
            },
{
    if upto > 0 {
        lemma_sum_lens_nonneg(cc, upto - 1);
    }
}

/// Every chunk of a whole-element buffer is itself a whole number of
/// elements.
pub proof fn lemma_chunk_multiple(w: int, cs: int, data: Seq<u8>, i: int)
    requires
        w >= 1,
        cs >= 1,
        data.len() as int % w == 0,
        0 <= i < spec_chunks(w, cs, data).len(),
    ensures
        spec_chunks(w, cs, data)[i].len() as int % w == 0,
        spec_chunks(w, cs, data)[i] == data.subrange(
            i * cs * w,
            min((i + 1) * cs * w, data.len() as int),
        ),
        0 <= i * cs * w,
        i * cs * w < data.len() || data.len() == 0,
        i * cs * w <= min((i + 1) * cs * w, data.len() as int) <= data.len(),
{
    let n = data.len() as int / w;
    let k = chunk_count(n, cs);
    lemma_chunk_count_bounds(n, cs);
    vstd::arithmetic::div_mod::lemma_fundamental_div_mod(data.len() as int, w);
    assert(data.len() as int == n * w) by (nonlinear_arith)
        requires
            data.len() as int == w * n + data.len() as int % w,
            data.len() as int % w == 0,
    ;
    assert(i * cs < n) by (nonlinear_arith)
        requires
            i < k,
            (k - 1) * cs < n,
            cs >= 1,
            i >= 0,
            k >= 1,
    ;
    assert(0 <= i * cs * w && i * cs * w < n * w) by (nonlinear_arith)
        requires
            0 <= i * cs < n,
            w >= 1,
    ;
    let lo = i * cs * w;
    let hi = min((i + 1) * cs * w, data.len() as int);
    assert(i * cs * w <= (i + 1) * cs * w) by (nonlinear_arith)
        requires
            w >= 1,
            cs >= 1,
            i >= 0,
    ;
    assert(hi - lo >= 0);
    if (i + 1) * cs * w <= data.len() {
        assert(hi - lo == cs * w) by (nonlinear_arith)
            requires
                hi == (i + 1) * cs * w,
                lo == i * cs * w,
        ;
        vstd::arithmetic::div_mod::lemma_mod_multiples_basic(cs, w);
        assert((hi - lo) % w == 0);
    } else {
        assert(hi - lo == (n - i * cs) * w) by (nonlinear_arith)
            requires
                hi == n * w,
                lo == i * cs * w,
        ;
        vstd::arithmetic::div_mod::lemma_mod_multiples_basic(n - i * cs, w);
        assert((hi - lo) % w == 0);
    }
}

/// Parsing the table and payload written by the encoder recovers exactly the
/// compressed chunks, in order.
pub proof fn lemma_parse_encoded_chunks(cc: Seq<Seq<u8>>, k: int, i: int)
    requires
        0 <= i <= k,
        k == cc.len(),
        sum_lens(cc, k) < 0x1_0000_0000_0000_0000,
    ensures
        parse_chunks(table_bytes(cc, k), payload(cc, k), i, k, sum_lens(cc, i)) == Some(
            cc.skip(i),
        ),
    decreases k - i,
{
    let m = 0x1_0000_0000_0000_0000;
    let entries = table_bytes(cc, k);
    let dreg = payload(cc, k);
    lemma_payload_len(cc, k);
    lemma_sum_lens_nonneg(cc, i);
    if i == k {
        assert(cc.skip(k) =~= Seq::<Seq<u8>>::empty());
    } else {
        lemma_table_slice(cc, i, k);
        lemma_sum_lens_monotone(cc, 0, i);
        lemma_sum_lens_monotone(cc, i + 1, k);
        lemma_sum_lens_nonneg(cc, i + 1);
        let pos = sum_lens(cc, i);
        assert(pos <= sum_lens(cc, k));
        assert(pos % m == pos) by {
            vstd::arithmetic::div_mod::lemma_small_mod(pos as nat, m as nat);
        }
        assert(cc[i].len() as int % m == cc[i].len() as int) by {
            vstd::arithmetic::div_mod::lemma_small_mod(cc[i].len(), m as nat);
        }
        assert(pow256(8) == m) by {
            reveal_with_fuel(pow256, 9);
        }
        lemma_le_bytes_value(pos, 8);
        lemma_le_bytes_value(cc[i].len() as int, 8);
        assert(le_value(entries.subrange(i * 16, i * 16 + 8)) == pos) by {
            assert(entries.subrange(i * 16, i * 16 + 8) =~= entries.subrange(
                16 * i,
                16 * i + 8,
            ));
        }
        assert(le_value(entries.subrange(i * 16 + 8, i * 16 + 16)) == cc[i].len()) by {
            assert(entries.subrange(i * 16 + 8, i * 16 + 16) =~= entries.subrange(
                16 * i + 8,
                16 * i + 16,
            ));
        }
        assert(cc[i].len() <= dreg.len() - pos);
        lemma_payload_slice(cc, i, k);
        assert(dreg.subrange(pos, pos + cc[i].len()) == cc[i]);
        lemma_parse_encoded_chunks(cc, k, i + 1);
        assert(seq![cc[i]] + cc.skip(i + 1) =~= cc.skip(i));
    }
}

/// Decoding the compressed chunks in order recovers the tail of the input
/// from the chunk boundary on.
pub proof fn lemma_decode_encoded_chunks<C: Compressor + Sync>(
    pc: &ParChunked<C>,
    data: Seq<u8>,
    i: int,
)
    requires
        pc.valid(),
        data.len() as int % pc.compressor.spec_elem_size() == 0,
        pc.spec_fits(data),
        0 <= i <= spec_chunks(
            pc.compressor.spec_elem_size(),
            pc.spec_chunk_elems(data.len() as int / pc.compressor.spec_elem_size()),
            data,
        ).len(),
    ensures
        ({
            let w = pc.compressor.spec_elem_size();
            let cs = pc.spec_chunk_elems(data.len() as int / w);
            let chunks = spec_chunks(w, cs, data);
            let cc = comp_seq(&pc.compressor, chunks);
            decode_chunk_list(&pc.compressor, cc.skip(i), 0) == Ok::<Seq<u8>, CompressError>(
                chunks.skip(i).flatten(),
            )
        }),
    decreases ({
        let w = pc.compressor.spec_elem_size();
        spec_chunks(w, pc.spec_chunk_elems(data.len() as int / w), data).len() - i
    }),
{
    let w = pc.compressor.spec_elem_size();
    pc.compressor.lemma_valid_elem_size();
    let cs = pc.spec_chunk_elems(data.len() as int / w);
    let chunks = spec_chunks(w, cs, data);
    let cc = comp_seq(&pc.compressor, chunks);
    let k = chunks.len() as int;
    if i == k {
        assert(cc.skip(k).len() == 0);
        assert(chunks.skip(k) =~= Seq::<Seq<u8>>::empty());
        assert(chunks.skip(k).flatten() =~= Seq::<u8>::empty());
    } else {
        lemma_chunk_multiple(w, cs, data, i);
        pc.compressor.lemma_round_trip(chunks[i]);
        lemma_decode_encoded_chunks(pc, data, i + 1);
        assert(cc.skip(i)[0] == cc[i]);
        assert(cc.skip(i).skip(1) =~= cc.skip(i + 1));
        assert(chunks.skip(i)[0] == chunks[i]);
        assert(chunks.skip(i).drop_first() =~= chunks.skip(i + 1));
        assert(chunks.skip(i).flatten() == chunks[i] + chunks.skip(i + 1).flatten());
        assert(decode_chunk_list(&pc.compressor, cc.skip(i), 0) == Ok::<Seq<u8>, CompressError>(
            chunks[i] + chunks.skip(i + 1).flatten(),
        )) by {
            lemma_decode_list_shift(&pc.compressor, cc.skip(i), 1);
        }
    }
}

/// Decoding a suffix of the chunk list is the same whether the list is
/// skipped first or indexed from the suffix start.
pub proof fn lemma_decode_list_shift<C: Compressor>(inner: &C, cc: Seq<Seq<u8>>, i: int)
    requires
        0 <= i <= cc.len(),
    ensures
        decode_chunk_list(inner, cc.skip(i), 0) == decode_chunk_list(inner, cc, i),
    decreases cc.len() - i,
{
    if i < cc.len() {
        lemma_decode_list_shift(inner, cc, i + 1);
        lemma_decode_list_shift(inner, cc.skip(i), 1);
        assert(cc.skip(i)[0] == cc[i]);
        assert(cc.skip(i).skip(1) =~= cc.skip(i + 1));
    } else {
        assert(cc.skip(i).len() == 0);
    }
}

/// The chunks from index `i` on flatten to the input's bytes from that chunk
/// boundary on.
pub proof fn lemma_chunks_flatten(w: int, cs: int, data: Seq<u8>, i: int)
    requires
        w >= 1,
        cs >= 1,
        data.len() as int % w == 0,
        0 <= i <= spec_chunks(w, cs, data).len(),
    ensures
        spec_chunks(w, cs, data).skip(i).flatten() == data.skip(
            min(i * cs * w, data.len() as int),
        ),
    decreases spec_chunks(w, cs, data).len() - i,
{
    let chunks = spec_chunks(w, cs, data);
    let k = chunks.len() as int;
    let n = data.len() as int / w;
    lemma_chunk_count_bounds(n, cs);
    vstd::arithmetic::div_mod::lemma_fundamental_div_mod(data.len() as int, w);
    vstd::arithmetic::div_mod::lemma_div_pos_is_pos(data.len() as int, w);
    assert(data.len() as int == n * w) by (nonlinear_arith)
        requires
            data.len() as int == w * n + data.len() as int % w,
            data.len() as int % w == 0,
    ;
    if i == k {
        assert(chunks.skip(k) =~= Seq::<Seq<u8>>::empty());
        assert(chunks.skip(k).flatten() =~= Seq::<u8>::empty());
        assert(k * cs * w >= n * w) by (nonlinear_arith)
            requires
                k * cs >= n,
                w >= 1,
        ;
        assert(data.skip(data.len() as int) =~= Seq::<u8>::empty());
    } else {
        lemma_chunk_multiple(w, cs, data, i);
        lemma_chunks_flatten(w, cs, data, i + 1);
        let lo = i * cs * w;
        let hi = min((i + 1) * cs * w, data.len() as int);
        assert(chunks.skip(i)[0] == chunks[i]);
        assert(chunks.skip(i).drop_first() =~= chunks.skip(i + 1));
        assert(chunks.skip(i).flatten() == chunks[i] + chunks.skip(i + 1).flatten());
        assert(min((i + 1) * cs * w, data.len() as int) == hi);
        assert(data.subrange(lo, hi) + data.skip(hi) =~= data.skip(lo));
        assert(min(i * cs * w, data.len() as int) == lo);
    }
}

} // verus!
