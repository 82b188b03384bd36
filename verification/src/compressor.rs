//! The common codec interface: every codec compresses a flat buffer of
//! fixed-width elements into bytes and decompresses those bytes back, and
//! carries the specification of both directions plus the round-trip theorem.

use vstd::prelude::*;

verus! {

/// Why a buffer could not be decompressed.
#[derive(Clone, Copy, Debug, PartialEq, Eq, Structural)]
pub enum CompressError {
    /// The buffer is shorter than its headers declare, or a header field is
    /// inconsistent with the rest of the buffer.
    MalformedInput,
    /// A hybrid stream's leading tag names a candidate codec that does not
    /// exist in the configured candidate list.
    InvalidCodecIndex,
}

/// A codec over arrays of fixed-width elements.
///
/// An element is an opaque byte pattern of `spec_elem_size()` bytes; the
/// uncompressed form of a value is a flat byte buffer whose length is a
/// multiple of that width. `spec_compress` and `spec_decompress` pin down
/// both directions exactly, so two runs of the same configured codec on the
/// same input always produce identical bytes.
pub trait Compressor: Sized {
    /// The element width in bytes.
    spec fn spec_elem_size(&self) -> int;

    /// The configuration is usable: widths are positive, inner codecs agree
    /// on the element width, candidate lists are within range.
    spec fn valid(&self) -> bool;

    /// The exact bytes `compress` appends for the given input.
    spec fn spec_compress(&self, data: Seq<u8>) -> Seq<u8>;

    /// The exact elements `decompress` appends for the given buffer, or the
    /// error it reports.
    spec fn spec_decompress(&self, compressed: Seq<u8>) -> Result<Seq<u8>, CompressError>;

    /// No count, length or offset field in the compressed form of `data`
    /// exceeds its 64-bit slot. Every buffer that fits in memory satisfies
    /// this; it only excludes mathematical inputs too large to encode.
    spec fn spec_fits(&self, data: Seq<u8>) -> bool;

    /// A valid codec has a positive element width.
    proof fn lemma_valid_elem_size(&self)
        requires
            self.valid(),
        ensures
            self.spec_elem_size() >= 1,
    ;

    /// The element width in bytes.
    fn elem_size(&self) -> (width: usize)
        requires
            self.valid(),
        ensures
            width as int == self.spec_elem_size(),
            width >= 1,
    ;

    /// Appends the compressed form of `uncompressed` to `compressed`.
    fn compress(&self, uncompressed: &[u8], compressed: &mut Vec<u8>)
        requires
            self.valid(),
            uncompressed@.len() as int % self.spec_elem_size() == 0,
        ensures
            final(compressed)@ == old(compressed)@ + self.spec_compress(uncompressed@),
    ;

    /// Decodes `compressed` and appends the recovered elements to
    /// `uncompressed`; on a malformed buffer it reports the error and leaves
    /// the output untouched.
    fn decompress(&self, compressed: &[u8], uncompressed: &mut Vec<u8>) -> (r: Result<
        (),
        CompressError,
    >)
        requires
            self.valid(),
        ensures
            match r {
                Ok(()) => self.spec_decompress(compressed@) is Ok && final(uncompressed)@ == old(
                    uncompressed,
                )@ + self.spec_decompress(compressed@)->Ok_0,
                Err(e) => self.spec_decompress(compressed@) == Err::<Seq<u8>, CompressError>(e)
                    && final(uncompressed)@ == old(uncompressed)@,
            },
    ;

    /// Round trip: decompressing a compressed buffer recovers the original
    /// elements exactly, whenever every 64-bit field of the encoding can
    /// hold its value.
    proof fn lemma_round_trip(&self, data: Seq<u8>)
        requires
            self.valid(),
            data.len() as int % self.spec_elem_size() == 0,
            self.spec_fits(data),
        ensures
            self.spec_decompress(self.spec_compress(data)) == Ok::<Seq<u8>, CompressError>(data),
    ;
}

/// The identity codec: stores the element bytes verbatim. Useful as a
/// baseline and as the simplest instance of the interface.
pub struct NaiveCompressor {
    pub elem_size: usize,
}

impl NaiveCompressor {
    /// A verbatim codec for elements of `elem_size` bytes.
    pub fn new(elem_size: usize) -> (r: Self)
        requires
            elem_size >= 1,
        ensures
            r.valid(),
            r.spec_elem_size() == elem_size,
    {
        NaiveCompressor { elem_size }
    }
}

impl Compressor for NaiveCompressor {
    open spec fn spec_elem_size(&self) -> int {
        self.elem_size as int
    }

    open spec fn valid(&self) -> bool {
        self.elem_size >= 1
    }

    open spec fn spec_compress(&self, data: Seq<u8>) -> Seq<u8> {
        data
    }

    open spec fn spec_decompress(&self, compressed: Seq<u8>) -> Result<Seq<u8>, CompressError> {
        if compressed.len() as int % self.spec_elem_size() == 0 {
            Ok(compressed)
        } else {
            Err(CompressError::MalformedInput)
        }
    }

    open spec fn spec_fits(&self, data: Seq<u8>) -> bool {
        true
    }

    proof fn lemma_valid_elem_size(&self) {
    }

    fn elem_size(&self) -> (width: usize) {
        self.elem_size
    }

    fn compress(&self, uncompressed: &[u8], compressed: &mut Vec<u8>) {
        let ghost orig = compressed@;
        let mut i: usize = 0;
        while i < uncompressed.len()
            invariant
                i <= uncompressed@.len(),
                compressed@ == orig + uncompressed@.take(i as int),
            decreases uncompressed@.len() - i,
        {
            compressed.push(uncompressed[i]);
            proof {
                assert(uncompressed@.take(i + 1) =~= uncompressed@.take(i as int).push(
                    uncompressed@[i as int],
                ));
            }
            i = i + 1;
        }
        proof {
            assert(uncompressed@.take(uncompressed@.len() as int) =~= uncompressed@);
        }
    }

    fn decompress(&self, compressed: &[u8], uncompressed: &mut Vec<u8>) -> (r: Result<
        (),
        CompressError,
    >) {
        if compressed.len() % self.elem_size != 0 {
            return Err(CompressError::MalformedInput);
        }
        let ghost orig = uncompressed@;
        let mut i: usize = 0;
        while i < compressed.len()
            invariant
                i <= compressed@.len(),
                uncompressed@ == orig + compressed@.take(i as int),
            decreases compressed@.len() - i,
        {
            uncompressed.push(compressed[i]);
            proof {
                assert(compressed@.take(i + 1) =~= compressed@.take(i as int).push(
                    compressed@[i as int],
                ));
            }
            i = i + 1;
        }
        proof {
            assert(compressed@.take(compressed@.len() as int) =~= compressed@);
        }
        Ok(())
    }

    proof fn lemma_round_trip(&self, data: Seq<u8>) {
    }
}

} // verus!
