//! Hybrid selector: holds an ordered list of candidate codecs, compresses the
//! input with every one of them, and keeps the smallest output, tagged with
//! one leading byte naming the winning candidate. Ties go to the earliest
//! candidate, so the choice is deterministic. The same ordered candidate list
//! must be used to decompress, or the tags will name the wrong codec.

use vstd::prelude::*;

verus! {

use crate::compressor::{CompressError, Compressor};
use crate::algorithms::run_length_encoding::RLE;
use crate::algorithms::variable_run_length_encoding::VRLE;
use crate::algorithms::parallel_chunked::ParChunked;
use crate::algorithms::lookup::Lookup;

/// One candidate codec a hybrid can hold.
pub enum Algorithm {
    Rle(RLE),
    Vrle(VRLE),
    Lookup(Lookup),
    ChunkedRle(ParChunked<RLE>),
    ChunkedVrle(ParChunked<VRLE>),
}

impl Compressor for Algorithm {
    open spec fn spec_elem_size(&self) -> int {
        match self {
            Algorithm::Rle(c) => c.spec_elem_size(),
            Algorithm::Vrle(c) => c.spec_elem_size(),
            Algorithm::Lookup(c) => c.spec_elem_size(),
            Algorithm::ChunkedRle(c) => c.spec_elem_size(),
            Algorithm::ChunkedVrle(c) => c.spec_elem_size(),
        }
    }

    open spec fn valid(&self) -> bool {
        match self {
            Algorithm::Rle(c) => c.valid(),
            Algorithm::Vrle(c) => c.valid(),
            Algorithm::Lookup(c) => c.valid(),
            Algorithm::ChunkedRle(c) => c.valid(),
            Algorithm::ChunkedVrle(c) => c.valid(),
        }
    }

    open spec fn spec_compress(&self, data: Seq<u8>) -> Seq<u8> {
        match self {
            Algorithm::Rle(c) => c.spec_compress(data),
            Algorithm::Vrle(c) => c.spec_compress(data),
            Algorithm::Lookup(c) => c.spec_compress(data),
            Algorithm::ChunkedRle(c) => c.spec_compress(data),
            Algorithm::ChunkedVrle(c) => c.spec_compress(data),
        }
    }

    open spec fn spec_decompress(&self, compressed: Seq<u8>) -> Result<Seq<u8>, CompressError> {
        match self {
            Algorithm::Rle(c) => c.spec_decompress(compressed),
            Algorithm::Vrle(c) => c.spec_decompress(compressed),
            Algorithm::Lookup(c) => c.spec_decompress(compressed),
            Algorithm::ChunkedRle(c) => c.spec_decompress(compressed),
            Algorithm::ChunkedVrle(c) => c.spec_decompress(compressed),
        }
    }

    open spec fn spec_fits(&self, data: Seq<u8>) -> bool {
        match self {
            Algorithm::Rle(c) => c.spec_fits(data),
            Algorithm::Vrle(c) => c.spec_fits(data),
            Algorithm::Lookup(c) => c.spec_fits(data),
            Algorithm::ChunkedRle(c) => c.spec_fits(data),
            Algorithm::ChunkedVrle(c) => c.spec_fits(data),
        }
    }

    proof fn lemma_valid_elem_size(&self) {
        match self {
            Algorithm::Rle(c) => c.lemma_valid_elem_size(),
            Algorithm::Vrle(c) => c.lemma_valid_elem_size(),
            Algorithm::Lookup(c) => c.lemma_valid_elem_size(),
            Algorithm::ChunkedRle(c) => c.lemma_valid_elem_size(),
            Algorithm::ChunkedVrle(c) => c.lemma_valid_elem_size(),
        }
    }

    fn elem_size(&self) -> (width: usize) {
        match self {
            Algorithm::Rle(c) => c.elem_size(),
            Algorithm::Vrle(c) => c.elem_size(),
            Algorithm::Lookup(c) => c.elem_size(),
            Algorithm::ChunkedRle(c) => c.elem_size(),
            Algorithm::ChunkedVrle(c) => c.elem_size(),
        }
    }

    fn compress(&self, uncompressed: &[u8], compressed: &mut Vec<u8>) {
        match self {
            Algorithm::Rle(c) => c.compress(uncompressed, compressed),
            Algorithm::Vrle(c) => c.compress(uncompressed, compressed),
            Algorithm::Lookup(c) => c.compress(uncompressed, compressed),
            Algorithm::ChunkedRle(c) => c.compress(uncompressed, compressed),
            Algorithm::ChunkedVrle(c) => c.compress(uncompressed, compressed),
        }
    }

    fn decompress(&self, compressed: &[u8], uncompressed: &mut Vec<u8>) -> (r: Result<
        (),
        CompressError,
    >) {
        match self {
            Algorithm::Rle(c) => c.decompress(compressed, uncompressed),
            Algorithm::Vrle(c) => c.decompress(compressed, uncompressed),
            Algorithm::Lookup(c) => c.decompress(compressed, uncompressed),
            Algorithm::ChunkedRle(c) => c.decompress(compressed, uncompressed),
            Algorithm::ChunkedVrle(c) => c.decompress(compressed, uncompressed),
        }
    }

    proof fn lemma_round_trip(&self, data: Seq<u8>) {
        match self {
            Algorithm::Rle(c) => c.lemma_round_trip(data),
            Algorithm::Vrle(c) => c.lemma_round_trip(data),
            Algorithm::Lookup(c) => c.lemma_round_trip(data),
            Algorithm::ChunkedRle(c) => c.lemma_round_trip(data),
            Algorithm::ChunkedVrle(c) => c.lemma_round_trip(data),
        }
    }
}

/// Index of the first candidate among the first `upto` whose compressed
/// output is smallest; ties keep the earlier candidate.
pub open spec fn best_index_upto(cands: Seq<Algorithm>, data: Seq<u8>, upto: int) -> int
    decreases upto,
{
    if upto <= 1 {
        0
    } else {
        let b = best_index_upto(cands, data, upto - 1);
        if cands[upto - 1].spec_compress(data).len() < cands[b].spec_compress(data).len() {
            upto - 1
        } else {
            b
        }
    }
}

/// The winner is in range, achieves the minimum output length, and is the
/// first candidate to achieve it.
pub proof fn lemma_best_index_props(cands: Seq<Algorithm>, data: Seq<u8>, upto: int)
    requires
        1 <= upto <= cands.len(),
    ensures
        0 <= best_index_upto(cands, data, upto) < upto,
        forall|j: int|
            0 <= j < upto ==> cands[best_index_upto(cands, data, upto)].spec_compress(data).len()
                <= (#[trigger] cands[j].spec_compress(data)).len(),
        forall|j: int|
            0 <= j < best_index_upto(cands, data, upto) ==> (#[trigger] cands[j].spec_compress(
                data,
            )).len() > cands[best_index_upto(cands, data, upto)].spec_compress(data).len(),
    decreases upto,
{
    if upto > 1 {
        lemma_best_index_props(cands, data, upto - 1);
    }
}

/// Hybrid selector over an ordered list of up to 254 candidate codecs that
/// all agree on the element width.
pub struct Hybrid {
    pub elem_size: usize,
    pub algorithms: Vec<Algorithm>,
}

impl Hybrid {
    /// An empty hybrid for elements of `elem_size` bytes; candidates are
    /// added one by one.
    pub fn new(elem_size: usize) -> (r: Self)
        requires
            elem_size >= 1,
        ensures
            r.spec_elem_size() == elem_size,
            r.algorithms@.len() == 0,
            r.elem_size == elem_size,
    {
        Hybrid { elem_size, algorithms: Vec::new() }
    }

    /// Appends one candidate codec, builder style. The candidate must work on
    /// the hybrid's element width, and the list stays under 255 entries.
    pub fn add(self, algorithm: Algorithm) -> (r: Self)
        requires
            algorithm.valid(),
            algorithm.spec_elem_size() == self.spec_elem_size(),
            self.algorithms@.len() < 254,
        ensures
            r.elem_size == self.elem_size,
            r.algorithms@ == self.algorithms@.push(algorithm),
    {
        let mut next = self;
        next.algorithms.push(algorithm);
        next
    }
}

impl Compressor for Hybrid {
    open spec fn spec_elem_size(&self) -> int {
        self.elem_size as int
    }

    open spec fn valid(&self) -> bool {
        &&& self.elem_size >= 1
        &&& 1 <= self.algorithms@.len() < 255
        &&& forall|i: int|
            0 <= i < self.algorithms@.len() ==> (#[trigger] self.algorithms@[i]).valid()
                && self.algorithms@[i].spec_elem_size() == self.elem_size as int
    }

    open spec fn spec_compress(&self, data: Seq<u8>) -> Seq<u8> {
        let b = best_index_upto(self.algorithms@, data, self.algorithms@.len() as int);
        seq![b as u8] + self.algorithms@[b].spec_compress(data)
    }

    open spec fn spec_decompress(&self, compressed: Seq<u8>) -> Result<Seq<u8>, CompressError> {
        if compressed.len() < 1 {
            Err(CompressError::MalformedInput)
        } else if compressed[0] as int >= self.algorithms@.len() {
            Err(CompressError::InvalidCodecIndex)
        } else {
            self.algorithms@[compressed[0] as int].spec_decompress(compressed.skip(1))
        }
    }

    open spec fn spec_fits(&self, data: Seq<u8>) -> bool {
        self.algorithms@[best_index_upto(
            self.algorithms@,
            data,
            self.algorithms@.len() as int,
        )].spec_fits(data)
    }

    proof fn lemma_valid_elem_size(&self) {
    }

    fn elem_size(&self) -> (width: usize) {
        self.elem_size
    }

    fn compress(&self, uncompressed: &[u8], compressed: &mut Vec<u8>) {
        let ghost data = uncompressed@;
        let ghost cands = self.algorithms@;
        let count = self.algorithms.len();
        let mut best: Vec<u8> = Vec::new();
        self.algorithms[0].compress(uncompressed, &mut best);
        let mut best_idx: usize = 0;
        let mut i: usize = 1;
        while i < count
            invariant
                self.valid(),
                cands == self.algorithms@,
                count == cands.len(),
                data == uncompressed@,
                data.len() as int % self.spec_elem_size() == 0,
                1 <= i <= count,
                best_idx as int == best_index_upto(cands, data, i as int),
                best_idx < i,
                best@ == cands[best_idx as int].spec_compress(data),
            decreases count - i,
        {
            let mut attempt: Vec<u8> = Vec::new();
            self.algorithms[i].compress(uncompressed, &mut attempt);
            if attempt.len() < best.len() {
                best = attempt;
                best_idx = i;
            }
            i = i + 1;
        }
        compressed.push(best_idx as u8);
        let blen = best.len();
        crate::algorithms::common::push_range(compressed, best.as_slice(), 0, blen);
        proof {
            assert(best@.subrange(0, blen as int) =~= best@);
            assert(old(compressed)@.push(best_idx as u8) =~= old(compressed)@ + seq![
                best_idx as u8,
            ]);
            assert(old(compressed)@ + seq![best_idx as u8] + best@ =~= old(compressed)@ + (seq![
                best_idx as u8,
            ] + best@));
        }
    }

    fn decompress(&self, compressed: &[u8], uncompressed: &mut Vec<u8>) -> (r: Result<
        (),
        CompressError,
    >) {
        if compressed.len() < 1 {
            return Err(CompressError::MalformedInput);
        }
        let tag = compressed[0] as usize;
        if tag >= self.algorithms.len() {
            return Err(CompressError::InvalidCodecIndex);
        }
        let rest = &compressed[1..compressed.len()];
        proof {
            assert(rest@ =~= compressed@.skip(1));
        }
        self.algorithms[tag].decompress(rest, uncompressed)
    }

    proof fn lemma_round_trip(&self, data: Seq<u8>) {
        let cands = self.algorithms@;
        let b = best_index_upto(cands, data, cands.len() as int);
        lemma_best_index_props(cands, data, cands.len() as int);
        let inner = cands[b].spec_compress(data);
        let whole = seq![b as u8] + inner;
        assert(whole[0] == b as u8);
        assert(whole.skip(1) =~= inner);
        cands[b].lemma_round_trip(data);
    }
}

/// Hybrid determinism: the compressed output is a function of the candidate
/// list and the input alone, so any two buffers that satisfy `compress`'s
/// contract for the same hybrid and input are byte-identical.
pub proof fn lemma_hybrid_deterministic(h: &Hybrid, data: Seq<u8>, r1: Seq<u8>, r2: Seq<u8>)
    requires
        r1 == h.spec_compress(data),
        r2 == h.spec_compress(data),
    ensures
        r1 == r2,
{
}

} // verus!
