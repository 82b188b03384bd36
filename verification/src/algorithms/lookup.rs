//! Dictionary lookup codec: searches every window size in [1, 63] and every
//! phase in [0, window) for the windowing of the input whose most frequent
//! window content occurs most often, builds a dictionary of the distinct
//! window contents in first-occurrence order, and re-encodes the input as one
//! dictionary index per window. Ties in the search go to the smallest window
//! size, then the smallest phase, so the output is deterministic.
//!
//! Wire format: window size, phase, element count, dictionary entry count
//! (eight bytes each), the dictionary entries' raw bytes in index order, the
//! index-encoding mode (eight bytes, derived from the entry count by the
//! count encoding's mode rule), the raw bytes of the `phase` leading elements
//! before the first full window, then one index per window in the fixed
//! mode's width. The element count lets the decoder delimit the trailing
//! short window's dictionary entry, which is shorter than the others.

use vstd::prelude::*;

verus! {

use crate::compressor::{CompressError, Compressor};
use crate::algorithms::common::{
    le_bytes, le_value, pow256, mode_width, spec_mode, spec_count_bytes_with_mode,
    lemma_le_bytes_len, lemma_le_bytes_value, lemma_le_value_bound, push_le, read_le, push_range,
    range_eq, get_mode, write_count_bytes_with_mode,
};
use crate::algorithms::parallel_chunked::{
    chunk_count, spec_chunks, sum_lens, payload, lemma_chunk_count_bounds, lemma_chunk_multiple,
    lemma_chunks_flatten, lemma_payload_len, lemma_payload_slice, lemma_sum_lens_monotone,
    lemma_sum_lens_nonneg, chunk_count_exec,
};
use vstd::math::{min, max};

// ---------------------------------------------------------------------------
// Windows and the window/phase search
// ---------------------------------------------------------------------------

/// The windows of the input for window size `w` and phase `p`: consecutive
/// groups of `w` elements starting at element `p`; the trailing window may be
/// short.
pub open spec fn lk_windows(es: int, bs: Seq<u8>, w: int, p: int) -> Seq<Seq<u8>> {
    if p * es <= bs.len() {
        spec_chunks(es, w, bs.skip(p * es))
    } else {
        Seq::empty()
    }
}

/// How many of the first `upto` windows hold exactly the bytes `v`.
pub open spec fn occ_count(ws: Seq<Seq<u8>>, v: Seq<u8>, upto: int) -> int
    decreases upto,
{
    if upto <= 0 {
        0
    } else {
        occ_count(ws, v, upto - 1) + if ws[upto - 1] == v {
            1int
        } else {
            0int
        }
    }
}

/// The highest occurrence count of any of the first `upto` windows' contents.
pub open spec fn max_occ_upto(ws: Seq<Seq<u8>>, upto: int) -> int
    decreases upto,
{
    if upto <= 0 {
        0
    } else {
        max(max_occ_upto(ws, upto - 1), occ_count(ws, ws[upto - 1], ws.len() as int))
    }
}

/// The score of one (window size, phase) pair: the highest occurrence count
/// among its windows.
pub open spec fn wp_score(es: int, bs: Seq<u8>, w: int, p: int) -> int {
    let ws = lk_windows(es, bs, w, p);
    max_occ_upto(ws, ws.len() as int)
}

/// Scans the phases `p..w` of window size `w`, keeping `best` unless a phase
/// scores strictly higher; the result is (window size, phase, score).
pub open spec fn scan_phases(
    es: int,
    bs: Seq<u8>,
    w: int,
    p: int,
    best: (int, int, int),
) -> (int, int, int)
    decreases w - p,
{
    if p >= w {
        best
    } else {
        let s = wp_score(es, bs, w, p);
        let next = if s > best.2 {
            (w, p, s)
        } else {
            best
        };
        scan_phases(es, bs, w, p + 1, next)
    }
}

/// Scans the window sizes `w..=63`, each with all its phases, in order.
pub open spec fn scan_widths(es: int, bs: Seq<u8>, w: int, best: (int, int, int)) -> (
    int,
    int,
    int,
)
    decreases 64 - w,
{
    if w > 63 {
        best
    } else {
        scan_widths(es, bs, w + 1, scan_phases(es, bs, w, 0, best))
    }
}

/// The chosen (window size, phase, score): the first pair in (window size,
/// phase) order that reaches the highest score.
pub open spec fn best_wp(es: int, bs: Seq<u8>) -> (int, int, int) {
    scan_widths(es, bs, 1, (1, 0, 0))
}

/// A candidate the scan can produce: a real pair with its own score.
pub open spec fn wp_candidate(es: int, bs: Seq<u8>, c: (int, int, int)) -> bool {
    &&& 1 <= c.0 <= 63
    &&& 0 <= c.1 < c.0
    &&& c.2 == wp_score(es, bs, c.0, c.1)
}

pub proof fn lemma_scan_phases_props(es: int, bs: Seq<u8>, w: int, p: int, best: (int, int, int))
    requires
        1 <= w <= 63,
        0 <= p,
    ensures
        wp_candidate(es, bs, scan_phases(es, bs, w, p, best)) || scan_phases(es, bs, w, p, best)
            == best,
        scan_phases(es, bs, w, p, best).2 >= best.2,
        forall|q: int|
            p <= q < w ==> scan_phases(es, bs, w, p, best).2 >= #[trigger] wp_score(es, bs, w, q),
    decreases w - p,
{
    if p < w {
        let s = wp_score(es, bs, w, p);
        let next = if s > best.2 {
            (w, p, s)
        } else {
            best
        };
        lemma_scan_phases_props(es, bs, w, p + 1, next);
    }
}

pub proof fn lemma_scan_widths_props(es: int, bs: Seq<u8>, w: int, best: (int, int, int))
    requires
        1 <= w,
    ensures
        wp_candidate(es, bs, scan_widths(es, bs, w, best)) || scan_widths(es, bs, w, best) == best,
        scan_widths(es, bs, w, best).2 >= best.2,
    decreases 64 - w,
{
    if w <= 63 {
        lemma_scan_phases_props(es, bs, w, 0, best);
        lemma_scan_widths_props(es, bs, w + 1, scan_phases(es, bs, w, 0, best));
    }
}

/// Every window value occurs at least once among the windows.
pub proof fn lemma_occ_count_self(ws: Seq<Seq<u8>>, i: int, upto: int)
    requires
        0 <= i < upto <= ws.len(),
    ensures
        occ_count(ws, ws[i], upto) >= 1,
    decreases upto,
{
    if i < upto - 1 {
        lemma_occ_count_self(ws, i, upto - 1);
    } else {
        lemma_occ_count_nonneg(ws, ws[i], upto - 1);
    }
}

pub proof fn lemma_occ_count_nonneg(ws: Seq<Seq<u8>>, v: Seq<u8>, upto: int)
    ensures
        occ_count(ws, v, upto) >= 0,
    decreases
            if upto >= 0 {
                upto
            } else {
                0
            },
{
    if upto > 0 {
        lemma_occ_count_nonneg(ws, v, upto - 1);
    }
}

pub proof fn lemma_occ_count_bound(ws: Seq<Seq<u8>>, v: Seq<u8>, upto: int)
    ensures
        occ_count(ws, v, upto) <= if upto >= 0 {
            upto
        } else {
            0
        },
    decreases
            if upto >= 0 {
                upto
            } else {
                0
            },
{
    if upto > 0 {
        lemma_occ_count_bound(ws, v, upto - 1);
    }
}

pub proof fn lemma_max_occ_bounds(ws: Seq<Seq<u8>>, upto: int)
    requires
        upto <= ws.len(),
    ensures
        0 <= max_occ_upto(ws, upto),
        max_occ_upto(ws, upto) <= ws.len(),
        upto >= 1 ==> max_occ_upto(ws, upto) >= 1,
    decreases
            if upto >= 0 {
                upto
            } else {
                0
            },
{
    if upto > 0 {
        lemma_max_occ_bounds(ws, upto - 1);
        lemma_occ_count_self(ws, upto - 1, ws.len() as int);
        lemma_occ_count_bound(ws, ws[upto - 1], ws.len() as int);
    }
}

/// The chosen pair is a real pair whose windows exist: its score is at least
/// the score of window size one at phase zero, which is at least one for a
/// non-empty input, so the chosen phase starts inside the input.
pub proof fn lemma_best_wp_props(es: int, bs: Seq<u8>)
    requires
        es >= 1,
        bs.len() as int % es == 0,
        bs.len() >= 1,
    ensures
        wp_candidate(es, bs, best_wp(es, bs)),
        best_wp(es, bs).2 >= 1,
        best_wp(es, bs).1 < bs.len() as int / es,
{
    let n = bs.len() as int / es;
    vstd::arithmetic::div_mod::lemma_fundamental_div_mod(bs.len() as int, es);
    vstd::arithmetic::div_mod::lemma_div_pos_is_pos(bs.len() as int, es);
    assert(n >= 1) by {
        if n == 0 {
            assert(bs.len() as int == es * 0 + 0);
        }
    }
    // The very first scanned pair (window 1, phase 0) has a positive score.
    let ws10 = lk_windows(es, bs, 1, 0);
    assert(bs.skip(0) =~= bs);
    assert(0 * es == 0) by (nonlinear_arith);
    lemma_chunk_count_bounds(n, 1);
    assert(ws10.len() == chunk_count(n, 1));
    lemma_max_occ_bounds(ws10, ws10.len() as int);
    assert(wp_score(es, bs, 1, 0) >= 1);
    let first = scan_phases(es, bs, 1, 0, (1, 0, 0));
    lemma_scan_phases_props(es, bs, 1, 0, (1, 0, 0));
    assert(first.2 >= wp_score(es, bs, 1, 0));
    lemma_scan_widths_props(es, bs, 2, first);
    assert(best_wp(es, bs) == scan_widths(es, bs, 2, first));
    let b = best_wp(es, bs);
    assert(b.2 >= 1);
    assert(wp_candidate(es, bs, b) || b == first);
    assert(wp_candidate(es, bs, first) || first == (1int, 0int, 0int));
    // A phase at or past the element count has no windows and scores zero.
    if b.1 >= n {
        assert(b != (1int, 0int, 0int));
        assert(wp_candidate(es, bs, b));
        let wsb = lk_windows(es, bs, b.0, b.1);
        assert(b.1 * es >= n * es) by (nonlinear_arith)
            requires
                b.1 >= n,
                es >= 1,
        ;
        if b.1 * es <= bs.len() {
            let sub = bs.skip(b.1 * es);
            assert(bs.len() as int == n * es) by (nonlinear_arith)
                requires
                    bs.len() as int == es * n + bs.len() as int % es,
                    bs.len() as int % es == 0,
            ;
            assert(sub.len() == 0);
            vstd::arithmetic::div_mod::lemma_div_of0(es);
            lemma_chunk_count_bounds(0, b.0);
            assert(wsb.len() == 0);
        }
        lemma_max_occ_bounds(wsb, wsb.len() as int);
        assert(b.2 == 0);
    }
}

// ---------------------------------------------------------------------------
// The dictionary
// ---------------------------------------------------------------------------

/// The distinct window contents in first-occurrence order, appended to `acc`.
pub open spec fn dedup_acc(ws: Seq<Seq<u8>>, i: int, acc: Seq<Seq<u8>>) -> Seq<Seq<u8>>
    decreases ws.len() - i,
{
    if i >= ws.len() {
        acc
    } else {
        dedup_acc(
            ws,
            i + 1,
            if acc.contains(ws[i]) {
                acc
            } else {
                acc.push(ws[i])
            },
        )
    }
}

/// The dictionary of a window sequence: its distinct contents, in the order
/// each content first occurs.
pub open spec fn dict_of(ws: Seq<Seq<u8>>) -> Seq<Seq<u8>> {
    dedup_acc(ws, 0, Seq::empty())
}

/// The index assigned to window content `v`: its first position in the
/// dictionary.
pub open spec fn first_index(d: Seq<Seq<u8>>, v: Seq<u8>) -> int
    decreases d.len(),
{
    if d.len() == 0 {
        0
    } else if d[0] == v {
        0
    } else {
        1 + first_index(d.skip(1), v)
    }
}

pub proof fn lemma_first_index_props(d: Seq<Seq<u8>>, v: Seq<u8>)
    requires
        d.contains(v),
    ensures
        0 <= first_index(d, v) < d.len(),
        d[first_index(d, v)] == v,
        forall|j: int| 0 <= j < first_index(d, v) ==> d[j] != v,
    decreases d.len(),
{
    if d[0] != v {
        let idx = choose|idx: int| 0 <= idx < d.len() && d[idx] == v;
        assert(d.skip(1)[idx - 1] == d[idx]);
        lemma_first_index_props(d.skip(1), v);
        let fi = first_index(d, v);
        assert(d.skip(1)[fi - 1] == d[fi]);
        assert forall|j: int| 0 <= j < fi implies d[j] != v by {
            if j >= 1 {
                assert(d.skip(1)[j - 1] == d[j]);
            }
        }
    }
}

/// The accumulator grows but its existing entries never change.
pub proof fn lemma_dedup_extends(ws: Seq<Seq<u8>>, i: int, acc: Seq<Seq<u8>>)
    requires
        0 <= i <= ws.len(),
    ensures
        acc.len() <= dedup_acc(ws, i, acc).len() <= acc.len() + ws.len() - i,
        forall|e: int| 0 <= e < acc.len() ==> #[trigger] dedup_acc(ws, i, acc)[e] == acc[e],
    decreases ws.len() - i,
{
    if i < ws.len() {
        let acc2 = if acc.contains(ws[i]) {
            acc
        } else {
            acc.push(ws[i])
        };
        lemma_dedup_extends(ws, i + 1, acc2);
    }
}

/// Every remaining window value ends up in the dictionary.
pub proof fn lemma_dedup_covers(ws: Seq<Seq<u8>>, i: int, acc: Seq<Seq<u8>>, t: int)
    requires
        0 <= i <= t < ws.len(),
    ensures
        dedup_acc(ws, i, acc).contains(ws[t]),
    decreases ws.len() - i,
{
    let acc2 = if acc.contains(ws[i]) {
        acc
    } else {
        acc.push(ws[i])
    };
    if t == i {
        if !acc.contains(ws[i]) {
            assert(acc2[acc.len() as int] == ws[i]);
        }
        assert(acc2.contains(ws[i]));
        lemma_dedup_extends(ws, i + 1, acc2);
        let e = choose|e: int| 0 <= e < acc2.len() && acc2[e] == ws[i];
        assert(dedup_acc(ws, i + 1, acc2)[e] == ws[i]);
    } else {
        lemma_dedup_covers(ws, i + 1, acc2, t);
    }
}

/// Every dictionary entry is one of the accumulated values or a window value.
pub proof fn lemma_dedup_elements(ws: Seq<Seq<u8>>, i: int, acc: Seq<Seq<u8>>, e: int)
    requires
        0 <= i <= ws.len(),
        0 <= e < dedup_acc(ws, i, acc).len(),
    ensures
        acc.contains(dedup_acc(ws, i, acc)[e]) || exists|t: int|
            i <= t < ws.len() && ws[t] == dedup_acc(ws, i, acc)[e],
    decreases ws.len() - i,
{
    if i < ws.len() {
        let acc2 = if acc.contains(ws[i]) {
            acc
        } else {
            acc.push(ws[i])
        };
        lemma_dedup_elements(ws, i + 1, acc2, e);
        let v = dedup_acc(ws, i, acc)[e];
        if acc2.contains(v) && !acc.contains(v) {
            let idx = choose|idx: int| 0 <= idx < acc2.len() && acc2[idx] == v;
            if idx < acc.len() {
                assert(acc.contains(v));
            } else {
                assert(v == ws[i]);
            }
        }
    }
}

/// Deduplicating a window list with one more window appended extends the
/// dictionary by that window's value exactly when it is new.
pub proof fn lemma_dedup_snoc(ws: Seq<Seq<u8>>, v: Seq<u8>, i: int, acc: Seq<Seq<u8>>)
    requires
        0 <= i <= ws.len(),
    ensures
        dedup_acc(ws.push(v), i, acc) == ({
            let d = dedup_acc(ws, i, acc);
            if d.contains(v) {
                d
            } else {
                d.push(v)
            }
        }),
    decreases ws.len() - i,
{
    let ws2 = ws.push(v);
    if i >= ws.len() {
        assert(ws2[i] == v);
        assert(dedup_acc(ws2, i, acc) == dedup_acc(
            ws2,
            i + 1,
            if acc.contains(v) {
                acc
            } else {
                acc.push(v)
            },
        ));
    } else {
        assert(ws2[i] == ws[i]);
        let acc2 = if acc.contains(ws[i]) {
            acc
        } else {
            acc.push(ws[i])
        };
        lemma_dedup_snoc(ws, v, i + 1, acc2);
    }
}

// ---------------------------------------------------------------------------
// The wire format
// ---------------------------------------------------------------------------

/// The encoded index stream: the dictionary index of each window, one field
/// of the fixed mode's width per window.
pub open spec fn indices_bytes(ws: Seq<Seq<u8>>, d: Seq<Seq<u8>>, mode: int, upto: int) -> Seq<u8>
    decreases upto,
{
    if upto <= 0 {
        Seq::empty()
    } else {
        indices_bytes(ws, d, mode, upto - 1) + le_bytes(
            first_index(d, ws[upto - 1]),
            mode_width(mode) as nat,
        )
    }
}

pub proof fn lemma_indices_len(ws: Seq<Seq<u8>>, d: Seq<Seq<u8>>, mode: int, upto: int)
    requires
        upto >= 0,
    ensures
        indices_bytes(ws, d, mode, upto).len() == upto * mode_width(mode),
    decreases upto,
{
    if upto > 0 {
        lemma_indices_len(ws, d, mode, upto - 1);
        lemma_le_bytes_len(first_index(d, ws[upto - 1]), mode_width(mode) as nat);
        assert(upto * mode_width(mode) == (upto - 1) * mode_width(mode) + mode_width(mode))
            by (nonlinear_arith);
    }
}

/// The index field for window `i` sits `i` widths into the index stream.
pub proof fn lemma_indices_slice(ws: Seq<Seq<u8>>, d: Seq<Seq<u8>>, mode: int, i: int, upto: int)
    requires
        0 <= i < upto,
    ensures
        indices_bytes(ws, d, mode, upto).subrange(
            i * mode_width(mode),
            (i + 1) * mode_width(mode),
        ) == le_bytes(first_index(d, ws[i]), mode_width(mode) as nat),
    decreases upto,
{
    let width = mode_width(mode);
    lemma_indices_len(ws, d, mode, upto - 1);
    lemma_le_bytes_len(first_index(d, ws[upto - 1]), width as nat);
    assert(i * width >= 0) by (nonlinear_arith)
        requires
            i >= 0,
            width >= 1,
    ;
    assert((i + 1) * width == i * width + width) by (nonlinear_arith);
    if i == upto - 1 {
        assert(indices_bytes(ws, d, mode, upto).subrange(i * width, (i + 1) * width) =~= le_bytes(
            first_index(d, ws[i]),
            width as nat,
        ));
    } else {
        lemma_indices_slice(ws, d, mode, i, upto - 1);
        assert((i + 1) * width <= (upto - 1) * width) by (nonlinear_arith)
            requires
                i + 1 <= upto - 1,
                width >= 1,
        ;
        lemma_indices_len(ws, d, mode, upto);
        assert(indices_bytes(ws, d, mode, upto).subrange(i * width, (i + 1) * width)
            =~= indices_bytes(ws, d, mode, upto - 1).subrange(i * width, (i + 1) * width));
    }
}

/// The whole compressed stream for a non-empty input.
pub open spec fn lookup_encode_nonempty(es: int, bs: Seq<u8>) -> Seq<u8> {
    let n = bs.len() as int / es;
    let b = best_wp(es, bs);
    let w = b.0;
    let p = b.1;
    let ws = lk_windows(es, bs, w, p);
    let d = dict_of(ws);
    let k = d.len() as int;
    let mode = spec_mode(k as u64);
    le_bytes(w, 8) + le_bytes(p, 8) + le_bytes(n, 8) + le_bytes(k, 8) + payload(d, k) + le_bytes(
        mode,
        8,
    ) + bs.take(p * es) + indices_bytes(ws, d, mode, ws.len() as int)
}

/// The compressed stream: a header-only buffer for an empty input, the full
/// dictionary stream otherwise.
pub open spec fn lookup_encode(es: int, bs: Seq<u8>) -> Seq<u8> {
    if bs.len() == 0 {
        le_bytes(1, 8) + le_bytes(0, 8) + le_bytes(0, 8) + le_bytes(0, 8) + le_bytes(0, 8)
    } else {
        lookup_encode_nonempty(es, bs)
    }
}

/// Expands the index stream back into window contents, in order.
pub open spec fn expand_indices(
    cs: Seq<u8>,
    dict_start: int,
    entry_full: int,
    entry_last: int,
    k: int,
    istart: int,
    width: int,
    i: int,
    m: int,
) -> Option<Seq<u8>>
    decreases m - i,
{
    if i >= m {
        Some(Seq::empty())
    } else {
        let idx = le_value(cs.subrange(istart + i * width, istart + (i + 1) * width));
        if idx >= k {
            None
        } else {
            let elen = if idx == k - 1 {
                entry_last
            } else {
                entry_full
            };
            let entry = cs.subrange(dict_start + idx * entry_full, dict_start + idx * entry_full
                + elen);
            match expand_indices(cs, dict_start, entry_full, entry_last, k, istart, width, i + 1, m) {
                Some(rest) => Some(entry + rest),
                None => None,
            }
        }
    }
}

/// What decoding a dictionary stream yields.
pub open spec fn lookup_decode(es: int, cs: Seq<u8>) -> Result<Seq<u8>, CompressError> {
    if es < 1 {
        Err(CompressError::MalformedInput)
    } else if cs.len() < 40 {
        Err(CompressError::MalformedInput)
    } else {
        let w = le_value(cs.subrange(0, 8));
        let p = le_value(cs.subrange(8, 16));
        let n = le_value(cs.subrange(16, 24));
        let k = le_value(cs.subrange(24, 32));
        if n == 0 {
            if w == 1 && p == 0 && k == 0 && le_value(cs.subrange(32, 40)) == 0 && cs.len() == 40 {
                Ok(Seq::empty())
            } else {
                Err(CompressError::MalformedInput)
            }
        } else if !(1 <= w <= 63 && 0 <= p < w && p < n && k >= 1) {
            Err(CompressError::MalformedInput)
        } else {
            let m = chunk_count(n - p, w);
            let short = (n - p) % w;
            let entry_full = w * es;
            let entry_last = if short == 0 {
                w * es
            } else {
                short * es
            };
            let dict_len = (k - 1) * entry_full + entry_last;
            if cs.len() < 32 + dict_len + 8 {
                Err(CompressError::MalformedInput)
            } else {
                let mode = le_value(cs.subrange(32 + dict_len, 32 + dict_len + 8));
                let width = mode_width(mode);
                let prefix_start = 32 + dict_len + 8;
                if cs.len() != prefix_start + p * es + m * width {
                    Err(CompressError::MalformedInput)
                } else {
                    let istart = prefix_start + p * es;
                    match expand_indices(cs, 32, entry_full, entry_last, k, istart, width, 0, m) {
                        Some(body) => Ok(cs.subrange(prefix_start, prefix_start + p * es) + body),
                        None => Err(CompressError::MalformedInput),
                    }
                }
            }
        }
    }
}

/// Dictionary lookup codec for elements of a fixed byte width.
pub struct Lookup {
    pub elem_size: usize,
}

impl Lookup {
    /// A dictionary lookup codec for elements of `elem_size` bytes.
    pub fn new(elem_size: usize) -> (r: Self)
        requires
            elem_size >= 1,
        ensures
            r.valid(),
            r.spec_elem_size() == elem_size,
    {
        Lookup { elem_size }
    }
}

impl Compressor for Lookup {
    open spec fn spec_elem_size(&self) -> int {
        self.elem_size as int
    }

    open spec fn valid(&self) -> bool {
        self.elem_size >= 1
    }

    open spec fn spec_compress(&self, data: Seq<u8>) -> Seq<u8> {
        lookup_encode(self.elem_size as int, data)
    }

    open spec fn spec_decompress(&self, compressed: Seq<u8>) -> Result<Seq<u8>, CompressError> {
        lookup_decode(self.elem_size as int, compressed)
    }

    open spec fn spec_fits(&self, data: Seq<u8>) -> bool {
        data.len() < 0x1_0000_0000_0000_0000
    }

    proof fn lemma_valid_elem_size(&self) {
    }

    fn elem_size(&self) -> (width: usize) {
        self.elem_size
    }

    fn compress(&self, uncompressed: &[u8], compressed: &mut Vec<u8>) {
        compress_bytes(self.elem_size, uncompressed, compressed);
    }

    fn decompress(&self, compressed: &[u8], uncompressed: &mut Vec<u8>) -> (r: Result<
        (),
        CompressError,
    >) {
        decompress_bytes(self.elem_size, compressed, uncompressed)
    }

    proof fn lemma_round_trip(&self, data: Seq<u8>) {
        lemma_lookup_round_trip(self.elem_size as int, data);
    }
}

// ---------------------------------------------------------------------------
// Window geometry
// ---------------------------------------------------------------------------

/// For a phase inside the input there is at least one window, and the window
/// list is the chunking of the input's tail from the phase on.
pub proof fn lemma_windows_len(es: int, bs: Seq<u8>, w: int, p: int)
    requires
        es >= 1,
        1 <= w,
        bs.len() as int % es == 0,
        0 <= p < bs.len() as int / es,
    ensures
        p * es < bs.len(),
        bs.skip(p * es).len() == (bs.len() as int / es - p) * es,
        lk_windows(es, bs, w, p) == spec_chunks(es, w, bs.skip(p * es)),
        lk_windows(es, bs, w, p).len() == chunk_count(bs.len() as int / es - p, w),
        1 <= lk_windows(es, bs, w, p).len() <= bs.len() as int / es - p,
        bs.skip(p * es).len() as int % es == 0,
        bs.skip(p * es).len() as int / es == bs.len() as int / es - p,
{
    let n = bs.len() as int / es;
    vstd::arithmetic::div_mod::lemma_fundamental_div_mod(bs.len() as int, es);
    assert(bs.len() as int == n * es) by (nonlinear_arith)
        requires
            bs.len() as int == es * n + bs.len() as int % es,
            bs.len() as int % es == 0,
    ;
    assert(p * es < n * es && (n - p) * es == n * es - p * es) by (nonlinear_arith)
        requires
            0 <= p < n,
            es >= 1,
    ;
    let sub = bs.skip(p * es);
    assert(sub.len() == (n - p) * es);
    assert(sub.len() as int % es == 0) by {
        vstd::arithmetic::div_mod::lemma_mod_multiples_basic(n - p, es);
    }
    assert(sub.len() as int / es == n - p) by {
        vstd::arithmetic::div_mod::lemma_div_multiples_vanish(n - p, es);
    }
    lemma_chunk_count_bounds(n - p, w);
}

/// The byte range of window `i` within the whole input.
pub proof fn lemma_window_bytes(es: int, bs: Seq<u8>, w: int, p: int, i: int)
    requires
        es >= 1,
        1 <= w,
        bs.len() as int % es == 0,
        0 <= p < bs.len() as int / es,
        0 <= i < lk_windows(es, bs, w, p).len(),
    ensures
        ({
            let n = bs.len() as int / es;
            let m = lk_windows(es, bs, w, p).len() as int;
            let start_e = p + i * w;
            let end_e = min(start_e + w, n);
            &&& p <= start_e < end_e <= n
            &&& lk_windows(es, bs, w, p)[i] == bs.subrange(start_e * es, end_e * es)
            &&& lk_windows(es, bs, w, p)[i].len() == (end_e - start_e) * es
            &&& (i < m - 1 ==> end_e == start_e + w)
            &&& (i == m - 1 ==> end_e == n)
            &&& (i == m - 1 && (n - p) % w != 0 ==> end_e - start_e == (n - p) % w)
            &&& (i == m - 1 && (n - p) % w == 0 ==> end_e - start_e == w)
        }),
{
    let n = bs.len() as int / es;
    lemma_windows_len(es, bs, w, p);
    let sub = bs.skip(p * es);
    let m = lk_windows(es, bs, w, p).len() as int;
    lemma_chunk_multiple(es, w, sub, i);
    lemma_chunk_count_bounds(n - p, w);
    vstd::arithmetic::div_mod::lemma_fundamental_div_mod(n - p, w);
    vstd::arithmetic::div_mod::lemma_remainder_lower(n - p, w);
    vstd::arithmetic::div_mod::lemma_remainder_upper(n - p, w);
    let start_e = p + i * w;
    let end_e = min(start_e + w, n);
    assert(sub.len() as int / es == n - p);
    assert(i * w < n - p) by (nonlinear_arith)
        requires
            i < m,
            (m - 1) * w < n - p,
            w >= 1,
            i >= 0,
            m >= 1,
    ;
    // The chunk's byte range inside the tail, translated to element counts.
    let lo = i * w * es;
    let hi = min((i + 1) * w * es, sub.len() as int);
    assert((i + 1) * w == i * w + w) by (nonlinear_arith);
    assert(hi == (min(i * w + w, n - p)) * es) by {
        if (i + 1) * w <= n - p {
            assert(((i + 1) * w) * es <= (n - p) * es) by (nonlinear_arith)
                requires
                    (i + 1) * w <= n - p,
                    es >= 1,
            ;
        } else {
            assert(((i + 1) * w) * es > (n - p) * es) by (nonlinear_arith)
                requires
                    (i + 1) * w > n - p,
                    es >= 1,
            ;
        }
    }
    // Shift from the tail back into the whole input.
    assert(lk_windows(es, bs, w, p)[i] == sub.subrange(lo, hi));
    assert(sub.subrange(lo, hi) =~= bs.subrange(p * es + lo, p * es + hi));
    assert(p * es + lo == start_e * es) by (nonlinear_arith)
        requires
            lo == (i * w) * es,
            start_e == p + i * w,
    ;
    assert(p * es + min(i * w + w, n - p) * es == end_e * es) by (nonlinear_arith)
        requires
            end_e == min(i * w + w, n - p) + p,
    ;
    assert(min(i * w + w, n - p) + p == end_e);
    assert((end_e - start_e) * es == end_e * es - start_e * es) by (nonlinear_arith);
    if i < m - 1 {
        assert(i + 1 <= m - 1);
        assert((i + 1) * w <= (m - 1) * w) by (nonlinear_arith)
            requires
                i + 1 <= m - 1,
                w >= 1,
        ;
        assert(end_e == start_e + w);
    }
    if i == m - 1 {
        assert(m * w >= n - p);
        assert(i * w + w == m * w) by (nonlinear_arith)
            requires
                i == m - 1,
        ;
        assert(end_e == n);
        if (n - p) % w != 0 {
            let q = (n - p) / w;
            assert(m == q + 1);
            assert(i == q);
            assert(start_e == p + q * w);
            assert(q * w == w * q) by (nonlinear_arith);
            assert(end_e - start_e == (n - p) % w);
        } else {
            let q = (n - p) / w;
            assert(m == q);
            assert(start_e == p + (q - 1) * w);
            assert((q - 1) * w == w * q - w) by (nonlinear_arith);
            assert(end_e - start_e == w);
        }
    }
}

/// Compares the contents of windows `i` and `j` of one windowing.
fn window_eq(bs: &[u8], es: usize, w: usize, p: usize, i: usize, j: usize) -> (r: bool)
    requires
        es >= 1,
        1 <= w,
        bs@.len() as int % es as int == 0,
        p < bs@.len() as int / es as int,
        i < lk_windows(es as int, bs@, w as int, p as int).len(),
        j < lk_windows(es as int, bs@, w as int, p as int).len(),
    ensures
        r == (lk_windows(es as int, bs@, w as int, p as int)[i as int] == lk_windows(
            es as int,
            bs@,
            w as int,
            p as int,
        )[j as int]),
{
    let ghost ws = lk_windows(es as int, bs@, w as int, p as int);
    let total = bs.len();
    let n = total / es;
    proof {
        lemma_window_bytes(es as int, bs@, w as int, p as int, i as int);
        lemma_window_bytes(es as int, bs@, w as int, p as int, j as int);
        vstd::arithmetic::div_mod::lemma_fundamental_div_mod(total as int, es as int);
        assert(total as int == n * (es as int)) by (nonlinear_arith)
            requires
                total as int == (es as int) * (n as int) + total as int % (es as int),
                total as int % (es as int) == 0,
        ;
    }
    let si = p + i * w;
    let ei = if n - si < w {
        n
    } else {
        si + w
    };
    let sj = p + j * w;
    let ej = if n - sj < w {
        n
    } else {
        sj + w
    };
    proof {
        assert(si * es < ei * es && ei * es <= n * (es as int) && (ei - si) * (es as int) == ei
            * es - si * es) by (nonlinear_arith)
            requires
                si < ei,
                ei <= n,
                es >= 1,
        ;
        assert(sj * es < ej * es && ej * es <= n * (es as int) && (ej - sj) * (es as int) == ej
            * es - sj * es) by (nonlinear_arith)
            requires
                sj < ej,
                ej <= n,
                es >= 1,
        ;
    }
    if ei - si != ej - sj {
        proof {
            assert(ws[i as int].len() != ws[j as int].len()) by (nonlinear_arith)
                requires
                    ws[i as int].len() == (ei - si) * (es as int),
                    ws[j as int].len() == (ej - sj) * (es as int),
                    ei - si != ej - sj,
                    es >= 1,
            ;
        }
        return false;
    }
    let len_bytes = (ei - si) * es;
    let r = range_eq(bs, si * es, sj * es, len_bytes);
    proof {
        assert(bs@.subrange(si * es as int, si * es + len_bytes as int) =~= bs@.subrange(
            si * es as int,
            ei * es as int,
        ));
        assert(bs@.subrange(sj * es as int, sj * es + len_bytes as int) =~= bs@.subrange(
            sj * es as int,
            ej * es as int,
        ));
    }
    r
}

/// The score of one (window size, phase) pair: the highest occurrence count
/// any window content reaches under that windowing.
fn wp_score_exec(bs: &[u8], es: usize, w: usize, p: usize) -> (r: usize)
    requires
        es >= 1,
        1 <= w,
        bs@.len() as int % es as int == 0,
    ensures
        r as int == wp_score(es as int, bs@, w as int, p as int),
{
    let ghost ws = lk_windows(es as int, bs@, w as int, p as int);
    let total = bs.len();
    let n = total / es;
    if p >= n {
        proof {
            vstd::arithmetic::div_mod::lemma_fundamental_div_mod(total as int, es as int);
            assert(total as int == n * (es as int)) by (nonlinear_arith)
                requires
                    total as int == (es as int) * (n as int) + total as int % (es as int),
                    total as int % (es as int) == 0,
            ;
            assert(p * es >= n * (es as int)) by (nonlinear_arith)
                requires
                    p >= n,
                    es >= 1,
            ;
            if p * es <= bs@.len() {
                let sub = bs@.skip(p * es as int);
                assert(sub.len() == 0);
                vstd::arithmetic::div_mod::lemma_div_of0(es as int);
                lemma_chunk_count_bounds(0, w as int);
                assert(ws.len() == 0);
            }
            assert(max_occ_upto(ws, ws.len() as int) == 0);
        }
        return 0;
    }
    proof {
        lemma_windows_len(es as int, bs@, w as int, p as int);
    }
    let m = chunk_count_exec(n - p, w);
    let mut best: usize = 0;
    let mut i: usize = 0;
    while i < m
        invariant
            es >= 1,
            1 <= w,
            total == bs@.len(),
            bs@.len() as int % es as int == 0,
            n == bs@.len() as int / es as int,
            p < n,
            ws == lk_windows(es as int, bs@, w as int, p as int),
            m == ws.len(),
            m <= n,
            i <= m,
            best as int == max_occ_upto(ws, i as int),
            best <= m,
        decreases m - i,
    {
        let mut count: usize = 0;
        let mut j: usize = 0;
        while j < m
            invariant
                es >= 1,
                1 <= w,
                total == bs@.len(),
                bs@.len() as int % es as int == 0,
                n == bs@.len() as int / es as int,
                p < n,
                ws == lk_windows(es as int, bs@, w as int, p as int),
                m == ws.len(),
                m <= n,
                i < m,
                j <= m,
                count as int == occ_count(ws, ws[i as int], j as int),
                count <= j,
            decreases m - j,
        {
            proof {
                lemma_occ_count_bound(ws, ws[i as int], j as int);
                lemma_occ_count_nonneg(ws, ws[i as int], j as int);
            }
            if window_eq(bs, es, w, p, i, j) {
                count = count + 1;
            }
            j = j + 1;
        }
        if count > best {
            best = count;
        }
        proof {
            lemma_occ_count_bound(ws, ws[i as int], m as int);
            lemma_max_occ_bounds(ws, i as int);
        }
        i = i + 1;
    }
    best
}

/// Finds the (window size, phase) pair the search chooses, by scanning window
/// sizes 1 through 63 and, within each, phases in increasing order, keeping
/// the first pair that reaches the highest score.
fn find_best_pair(bs: &[u8], es: usize) -> (r: (usize, usize))
    requires
        es >= 1,
        bs@.len() as int % es as int == 0,
        bs@.len() >= 1,
    ensures
        ({
            let b = best_wp(es as int, bs@);
            &&& r.0 as int == b.0
            &&& r.1 as int == b.1
            &&& 1 <= r.0 <= 63
            &&& r.1 < r.0
            &&& (r.1 as int) < bs@.len() as int / es as int
        }),
{
    let mut bw: usize = 1;
    let mut bp: usize = 0;
    let mut bsc: usize = 0;
    let mut w: usize = 1;
    while w <= 63
        invariant
            es >= 1,
            bs@.len() as int % es as int == 0,
            bs@.len() >= 1,
            1 <= w <= 64,
            1 <= bw <= 63,
            bp < bw,
            scan_widths(es as int, bs@, w as int, (bw as int, bp as int, bsc as int)) == best_wp(
                es as int,
                bs@,
            ),
        decreases 64 - w,
    {
        let mut p: usize = 0;
        while p < w
            invariant
                es >= 1,
                bs@.len() as int % es as int == 0,
                bs@.len() >= 1,
                1 <= w <= 63,
                p <= w,
                1 <= bw <= 63,
                bp < bw,
                scan_widths(
                    es as int,
                    bs@,
                    w as int + 1,
                    scan_phases(
                        es as int,
                        bs@,
                        w as int,
                        p as int,
                        (bw as int, bp as int, bsc as int),
                    ),
                ) == best_wp(es as int, bs@),
            decreases w - p,
        {
            let s = wp_score_exec(bs, es, w, p);
            proof {
                let cur = (bw as int, bp as int, bsc as int);
                assert(scan_phases(es as int, bs@, w as int, p as int, cur) == scan_phases(
                    es as int,
                    bs@,
                    w as int,
                    p as int + 1,
                    if s as int > cur.2 {
                        (w as int, p as int, s as int)
                    } else {
                        cur
                    },
                ));
            }
            if s > bsc {
                bw = w;
                bp = p;
                bsc = s;
            }
            p = p + 1;
        }
        proof {
            let cur = (bw as int, bp as int, bsc as int);
            assert(scan_phases(es as int, bs@, w as int, w as int, cur) == cur);
        }
        w = w + 1;
    }
    proof {
        let cur = (bw as int, bp as int, bsc as int);
        assert(scan_widths(es as int, bs@, 64, cur) == cur);
        lemma_best_wp_props(es as int, bs@);
    }
    (bw, bp)
}

/// The byte range of window `i` within the whole input buffer.
fn window_range(bs: &[u8], es: usize, w: usize, p: usize, i: usize) -> (r: (usize, usize))
    requires
        es >= 1,
        1 <= w,
        bs@.len() as int % es as int == 0,
        p < bs@.len() as int / es as int,
        i < lk_windows(es as int, bs@, w as int, p as int).len(),
    ensures
        r.0 < r.1 <= bs@.len(),
        lk_windows(es as int, bs@, w as int, p as int)[i as int] == bs@.subrange(
            r.0 as int,
            r.1 as int,
        ),
{
    let total = bs.len();
    let n = total / es;
    proof {
        lemma_window_bytes(es as int, bs@, w as int, p as int, i as int);
        vstd::arithmetic::div_mod::lemma_fundamental_div_mod(total as int, es as int);
        assert(total as int == n * (es as int)) by (nonlinear_arith)
            requires
                total as int == (es as int) * (n as int) + total as int % (es as int),
                total as int % (es as int) == 0,
        ;
    }
    let si = p + i * w;
    let ei = if n - si < w {
        n
    } else {
        si + w
    };
    proof {
        assert(si * es < ei * es && ei * es <= n * (es as int)) by (nonlinear_arith)
            requires
                si < ei,
                ei <= n,
                es >= 1,
        ;
    }
    (si * es, ei * es)
}

/// Appends the full dictionary stream for `uncompressed` to `compressed`.
#[verifier::rlimit(30)]
fn compress_bytes(es: usize, uncompressed: &[u8], compressed: &mut Vec<u8>)
    requires
        es >= 1,
        uncompressed@.len() as int % es as int == 0,
    ensures
        final(compressed)@ == old(compressed)@ + lookup_encode(es as int, uncompressed@),
{
    let ghost bs = uncompressed@;
    let ghost orig = compressed@;
    let total = uncompressed.len();
    let n = total / es;
    if total == 0 {
        push_le(compressed, 1, 8);
        push_le(compressed, 0, 8);
        push_le(compressed, 0, 8);
        push_le(compressed, 0, 8);
        push_le(compressed, 0, 8);
        proof {
            assert(compressed@ =~= orig + lookup_encode(es as int, bs));
        }
        return ;
    }
    proof {
        vstd::arithmetic::div_mod::lemma_fundamental_div_mod(total as int, es as int);
        assert(total as int == n * (es as int)) by (nonlinear_arith)
            requires
                total as int == (es as int) * (n as int) + total as int % (es as int),
                total as int % (es as int) == 0,
        ;
        assert(n >= 1) by {
            if n == 0 {
                assert(total as int == 0 * (es as int)) by (nonlinear_arith)
                    requires
                        n == 0,
                        total as int == n * (es as int),
                ;
            }
        }
    }

    // Search for the best window size and phase.
    let pair = find_best_pair(uncompressed, es);
    let bw = pair.0;
    let bp = pair.1;
    let ghost ws = lk_windows(es as int, bs, bw as int, bp as int);
    proof {
        lemma_windows_len(es as int, bs, bw as int, bp as int);
    }
    let m = chunk_count_exec(n - bp, bw);

    // Build the dictionary: the position of each distinct window content's
    // first occurrence, in order.
    let mut dict_pos: Vec<usize> = Vec::new();
    let ghost mut d = Seq::<Seq<u8>>::empty();
    let mut i: usize = 0;
    while i < m
        invariant
            es >= 1,
            bs == uncompressed@,
            bs.len() as int % es as int == 0,
            total == bs.len(),
            total as int == n * (es as int),
            n == bs.len() as int / es as int,
            1 <= bw <= 63,
            bp < bw,
            (bp as int) < n,
            ws == lk_windows(es as int, bs, bw as int, bp as int),
            m == ws.len(),
            m <= n,
            i <= m,
            dict_pos@.len() == d.len(),
            d.len() <= i,
            forall|e: int|
                0 <= e < d.len() ==> (#[trigger] dict_pos@[e]) < m && d[e] == ws[(dict_pos@[e]) as int],
            dedup_acc(ws, i as int, d) == dict_of(ws),
        decreases m - i,
    {
        let klen = dict_pos.len();
        let mut found = false;
        let mut e: usize = 0;
        while e < klen
            invariant
                es >= 1,
                bs == uncompressed@,
                bs.len() as int % es as int == 0,
                1 <= bw <= 63,
                bp < bw,
                (bp as int) < n,
                n == bs.len() as int / es as int,
                ws == lk_windows(es as int, bs, bw as int, bp as int),
                m == ws.len(),
                i < m,
                klen == dict_pos@.len(),
                dict_pos@.len() == d.len(),
                forall|t: int|
                    0 <= t < d.len() ==> (#[trigger] dict_pos@[t]) < m && d[t] == ws[(dict_pos@[t]) as int],
                e <= klen,
                found <==> exists|t: int| 0 <= t < e && #[trigger] d[t] == ws[i as int],
            decreases klen - e,
        {
            if window_eq(uncompressed, es, bw, bp, i, dict_pos[e]) {
                proof {
                    assert(d[e as int] == ws[i as int]);
                }
                found = true;
            }
            e = e + 1;
        }
        proof {
            if found {
                assert(d.contains(ws[i as int]));
            } else {
                if d.contains(ws[i as int]) {
                    let t = choose|t: int| 0 <= t < d.len() && d[t] == ws[i as int];
                    assert(d[t] == ws[i as int]);
                }
                assert(!d.contains(ws[i as int]));
            }
        }
        if !found {
            dict_pos.push(i);
            proof {
                d = d.push(ws[i as int]);
            }
        }
        i = i + 1;
    }
    let k = dict_pos.len();
    proof {
        assert(dedup_acc(ws, m as int, d) == d);
        assert(d == dict_of(ws));
        lemma_dedup_covers(ws, 0, Seq::empty(), 0);
        assert(k >= 1);
    }

    // Header: window size, phase, element count, dictionary entry count.
    push_le(compressed, bw as u64, 8);
    push_le(compressed, bp as u64, 8);
    push_le(compressed, n as u64, 8);
    push_le(compressed, k as u64, 8);
    let ghost hdr = orig + le_bytes(bw as int, 8) + le_bytes(bp as int, 8) + le_bytes(n as int, 8)
        + le_bytes(k as int, 8);
    proof {
        assert(compressed@ == hdr);
        assert(compressed@ == hdr + payload(d, 0));
    }

    // The dictionary entries, in index order.
    let mut e: usize = 0;
    while e < k
        invariant
            es >= 1,
            bs == uncompressed@,
            bs.len() as int % es as int == 0,
            1 <= bw <= 63,
            bp < bw,
            (bp as int) < n,
            n == bs.len() as int / es as int,
            ws == lk_windows(es as int, bs, bw as int, bp as int),
            m == ws.len(),
            k == dict_pos@.len(),
            dict_pos@.len() == d.len(),
            forall|t: int|
                0 <= t < d.len() ==> (#[trigger] dict_pos@[t]) < m && d[t] == ws[(dict_pos@[t]) as int],
            e <= k,
            compressed@ == hdr + payload(d, e as int),
        decreases k - e,
    {
        let r = window_range(uncompressed, es, bw, bp, dict_pos[e]);
        push_range(compressed, uncompressed, r.0, r.1);
        proof {
            assert(hdr + payload(d, e as int) + d[e as int] =~= hdr + (payload(d, e as int)
                + d[e as int]));
        }
        e = e + 1;
    }

    // The index-encoding mode, then the unaligned leading elements.
    let mode = get_mode(k as u64);
    push_le(compressed, mode as u64, 8);
    proof {
        assert(bp * es < n * (es as int)) by (nonlinear_arith)
            requires
                (bp as int) < n,
                es >= 1,
        ;
    }
    push_range(compressed, uncompressed, 0, bp * es);
    let ghost mid = hdr + payload(d, k as int) + le_bytes(mode as int, 8) + bs.take(
        bp as int * es as int,
    );
    proof {
        assert(bs.subrange(0, bp as int * es as int) =~= bs.take(bp as int * es as int));
        assert(compressed@ == mid);
        assert(compressed@ == mid + indices_bytes(ws, d, mode as int, 0));
    }

    // One dictionary index per window, in the fixed mode's width.
    let mut i: usize = 0;
    while i < m
        invariant
            es >= 1,
            bs == uncompressed@,
            bs.len() as int % es as int == 0,
            1 <= bw <= 63,
            bp < bw,
            (bp as int) < n,
            n == bs.len() as int / es as int,
            ws == lk_windows(es as int, bs, bw as int, bp as int),
            m == ws.len(),
            k == dict_pos@.len(),
            dict_pos@.len() == d.len(),
            d == dict_of(ws),
            forall|t: int|
                0 <= t < d.len() ==> (#[trigger] dict_pos@[t]) < m && d[t] == ws[(dict_pos@[t]) as int],
            i <= m,
            compressed@ == mid + indices_bytes(ws, d, mode as int, i as int),
        decreases m - i,
    {
        proof {
            lemma_dedup_covers(ws, 0, Seq::empty(), i as int);
            lemma_first_index_props(d, ws[i as int]);
        }
        let ghost fi = first_index(d, ws[i as int]);
        let mut e: usize = 0;
        let mut idx: usize = 0;
        let mut done = false;
        while e < k
            invariant
                es >= 1,
                bs == uncompressed@,
                bs.len() as int % es as int == 0,
                1 <= bw <= 63,
                bp < bw,
                (bp as int) < n,
                n == bs.len() as int / es as int,
                ws == lk_windows(es as int, bs, bw as int, bp as int),
                m == ws.len(),
                i < m,
                k == dict_pos@.len(),
                dict_pos@.len() == d.len(),
                forall|t: int|
                    0 <= t < d.len() ==> (#[trigger] dict_pos@[t]) < m && d[t] == ws[(dict_pos@[t]) as int],
                fi == first_index(d, ws[i as int]),
                0 <= fi < d.len(),
                d[fi] == ws[i as int],
                forall|t: int| 0 <= t < fi ==> d[t] != ws[i as int],
                e <= k,
                done ==> idx as int == fi,
                !done ==> e as int <= fi,
            decreases k - e,
        {
            if !done {
                if window_eq(uncompressed, es, bw, bp, i, dict_pos[e]) {
                    proof {
                        assert(d[e as int] == ws[i as int]);
                    }
                    idx = e;
                    done = true;
                }
            }
            e = e + 1;
        }
        proof {
            assert(done);
        }
        write_count_bytes_with_mode(idx as u64, mode, compressed);
        proof {
            assert(spec_count_bytes_with_mode(idx as u64, mode as int) == le_bytes(
                fi,
                mode_width(mode as int) as nat,
            ));
            assert(mid + indices_bytes(ws, d, mode as int, i as int) + le_bytes(
                fi,
                mode_width(mode as int) as nat,
            ) =~= mid + indices_bytes(ws, d, mode as int, i + 1));
        }
        i = i + 1;
    }
    proof {
        assert(compressed@ =~= orig + lookup_encode(es as int, bs));
    }
}

/// Decodes a dictionary stream and appends the recovered elements to `out`;
/// malformed buffers are reported without touching `out`.
#[verifier::rlimit(50)]
fn decompress_bytes(es: usize, compressed: &[u8], out: &mut Vec<u8>) -> (r: Result<
    (),
    CompressError,
>)
    requires
        es >= 1,
    ensures
        match r {
            Ok(()) => lookup_decode(es as int, compressed@) is Ok && final(out)@ == old(out)@
                + lookup_decode(es as int, compressed@)->Ok_0,
            Err(er) => lookup_decode(es as int, compressed@) == Err::<Seq<u8>, CompressError>(er)
                && final(out)@ == old(out)@,
        },
{
    let ghost cs = compressed@;
    let total = compressed.len();
    if total < 40 {
        return Err(CompressError::MalformedInput);
    }
    let w64 = read_le(compressed, 0, 8);
    let p64 = read_le(compressed, 8, 8);
    let n64 = read_le(compressed, 16, 8);
    let k64 = read_le(compressed, 24, 8);
    proof {
        assert(cs.subrange(0int, 0int + 8) =~= cs.subrange(0, 8));
        assert(cs.subrange(8int, 8int + 8) =~= cs.subrange(8, 16));
        assert(cs.subrange(16int, 16int + 8) =~= cs.subrange(16, 24));
        assert(cs.subrange(24int, 24int + 8) =~= cs.subrange(24, 32));
        lemma_le_value_bound(cs.subrange(0, 8));
        lemma_le_value_bound(cs.subrange(8, 16));
        lemma_le_value_bound(cs.subrange(16, 24));
        lemma_le_value_bound(cs.subrange(24, 32));
    }
    if n64 == 0 {
        let mode0 = read_le(compressed, 32, 8);
        proof {
            assert(cs.subrange(32int, 32int + 8) =~= cs.subrange(32, 40));
        }
        if w64 == 1 && p64 == 0 && k64 == 0 && mode0 == 0 && total == 40 {
            proof {
                assert(out@ + Seq::<u8>::empty() =~= out@);
            }
            return Ok(());
        }
        return Err(CompressError::MalformedInput);
    }
    if !(1 <= w64 && w64 <= 63 && p64 < w64 && p64 < n64 && k64 >= 1) {
        return Err(CompressError::MalformedInput);
    }

    // Geometry of the dictionary region, guarded against overflow: any
    // quantity past the 64-bit range also exceeds the buffer's length, which
    // the specification rejects as malformed.
    let np = n64 - p64;
    let short = np % w64;
    let ghost sh = short as int;
    let ghost ww = w64 as int;
    let ghost pp = p64 as int;
    let ghost nn = n64 as int;
    let ghost kk = k64 as int;
    let ghost ef_spec = ww * (es as int);
    let ghost el_spec = if sh == 0 {
        ww * (es as int)
    } else {
        sh * (es as int)
    };
    let ghost dict_spec = (kk - 1) * ef_spec + el_spec;
    proof {
        assert(ef_spec >= 1 && el_spec >= 1 && el_spec <= ef_spec) by (nonlinear_arith)
            requires
                ww >= 1,
                es >= 1,
                ef_spec == ww * (es as int),
                el_spec == (if sh == 0 {
                    ww * (es as int)
                } else {
                    sh * (es as int)
                }),
                ((0 < sh && sh < ww) || sh == 0),
                sh == (nn - pp) % ww,
                nn - pp >= 1,
        ;
        assert((kk - 1) * ef_spec >= 0 && (kk >= 2 ==> (kk - 1) * ef_spec >= ef_spec))
            by (nonlinear_arith)
            requires
                kk >= 1,
                ef_spec >= 1,
        ;
    }
    let entry_last = match (if short == 0 {
        w64.checked_mul(es as u64)
    } else {
        short.checked_mul(es as u64)
    }) {
        Some(v) => v,
        None => {
            return Err(CompressError::MalformedInput);
        },
    };
    let dict_len = if k64 == 1 {
        entry_last
    } else {
        let ef = match w64.checked_mul(es as u64) {
            Some(v) => v,
            None => {
                return Err(CompressError::MalformedInput);
            },
        };
        let t1 = match (k64 - 1).checked_mul(ef) {
            Some(v) => v,
            None => {
                proof {
                    assert(dict_spec >= (kk - 1) * ef_spec) by (nonlinear_arith)
                        requires
                            el_spec >= 0,
                            dict_spec == (kk - 1) * ef_spec + el_spec,
                    ;
                }
                return Err(CompressError::MalformedInput);
            },
        };
        match t1.checked_add(entry_last) {
            Some(v) => v,
            None => {
                return Err(CompressError::MalformedInput);
            },
        }
    };
    proof {
        assert(kk == 1 ==> (kk - 1) * ef_spec == 0) by (nonlinear_arith);
        assert(dict_len as int == dict_spec);
    }
    if dict_len > (total as u64) - 40 {
        return Err(CompressError::MalformedInput);
    }
    let dlen = dict_len as usize;
    let mode = read_le(compressed, 32 + dlen, 8);
    proof {
        assert(cs.subrange(32 + dlen as int, 32 + dlen as int + 8) =~= cs.subrange(
            32 + dict_spec,
            32 + dict_spec + 8,
        ));
    }
    let width64: u64 = if mode == 0 {
        1
    } else if mode == 1 {
        2
    } else if mode == 2 {
        4
    } else {
        8
    };
    let width = width64 as usize;
    let prefix_start = 32 + dlen + 8;
    let ghost wid = mode_width(mode as int);
    let rem = (total - prefix_start) as u64;

    // The element count fixes the window count; the buffer must then hold the
    // phase prefix and exactly one index field per window.
    let q = np / w64;
    proof {
        vstd::arithmetic::div_mod::lemma_fundamental_div_mod(np as int, ww);
        vstd::arithmetic::div_mod::lemma_remainder_lower(np as int, ww);
        if np % w64 != 0 {
            assert((np as int) / ww < np as int) by (nonlinear_arith)
                requires
                    np as int == ww * ((np as int) / ww) + (np as int) % ww,
                    (np as int) % ww >= 1,
                    ww >= 1,
                    (np as int) / ww >= 0,
            ;
        }
    }
    let m64 = if np % w64 == 0 {
        q
    } else {
        q + 1
    };
    let ghost mm = chunk_count(nn - pp, ww);
    proof {
        assert(m64 as int == mm);
        lemma_chunk_count_bounds(nn - pp, ww);
    }
    let pe = match p64.checked_mul(es as u64) {
        Some(v) => v,
        None => {
            proof {
                assert(mm * wid >= 0) by (nonlinear_arith)
                    requires
                        mm >= 1,
                        wid >= 1,
                ;
            }
            return Err(CompressError::MalformedInput);
        },
    };
    let mw = match m64.checked_mul(width64) {
        Some(v) => v,
        None => {
            proof {
                assert(pp * (es as int) >= 0) by (nonlinear_arith)
                    requires
                        pp >= 0,
                        es >= 1,
                ;
            }
            return Err(CompressError::MalformedInput);
        },
    };
    if pe > rem || rem - pe != mw {
        proof {
            assert(mm * wid >= 0) by (nonlinear_arith)
                requires
                    mm >= 1,
                    wid >= 1,
            ;
        }
        return Err(CompressError::MalformedInput);
    }
    let pe_us = pe as usize;
    let istart = prefix_start + pe_us;
    proof {
        assert(mm <= mm * wid) by (nonlinear_arith)
            requires
                mm >= 0,
                wid >= 1,
        ;
    }
    let m_us = m64 as usize;
    let ef_us: usize = if k64 == 1 {
        0
    } else {
        ((dict_len - entry_last) / (k64 - 1)) as usize
    };
    proof {
        if k64 != 1 {
            assert((dict_len - entry_last) as int == (kk - 1) * ef_spec);
            vstd::arithmetic::div_mod::lemma_div_multiples_vanish(ef_spec, kk - 1);
            assert(((kk - 1) * ef_spec) / (kk - 1) == ef_spec) by {
                assert((kk - 1) * ef_spec == ef_spec * (kk - 1)) by (nonlinear_arith);
            }
        }
    }

    // Expand: the phase prefix verbatim, then each index's dictionary entry.
    let ghost ist = istart as int;
    let ghost pfx = cs.subrange(prefix_start as int, ist);
    let ghost expansion = expand_indices(cs, 32, ef_spec, el_spec, kk, ist, wid, 0, mm as int);
    proof {
        assert(lookup_decode(es as int, cs) == (match expansion {
            Some(b) => Ok::<Seq<u8>, CompressError>(pfx + b),
            None => Err::<Seq<u8>, CompressError>(CompressError::MalformedInput),
        }));
    }
    let mut body: Vec<u8> = Vec::new();
    push_range(&mut body, compressed, prefix_start, istart);
    let ghost mut acc = Seq::<u8>::empty();
    proof {
        assert(body@ =~= pfx + acc);
    }
    let mut i: usize = 0;
    while i < m_us
        invariant
            es >= 1,
            cs == compressed@,
            total == cs.len(),
            kk == k64 as int,
            k64 >= 1,
            1 <= w64 <= 63,
            width == width64,
            1 <= width64 <= 8,
            wid == width64 as int,
            m_us == mm,
            istart == ist,
            istart + m_us * width == total,
            prefix_start + pe_us == istart,
            32 + (dict_len as int) + 8 == prefix_start,
            dict_len as int == dict_spec,
            dict_spec == (kk - 1) * ef_spec + el_spec,
            1 <= el_spec <= ef_spec,
            kk >= 2 ==> ef_us as int == ef_spec,
            kk == 1 ==> ef_us == 0,
            entry_last as int == el_spec,
            expansion == expand_indices(cs, 32, ef_spec, el_spec, kk, ist, wid, 0, mm as int),
            lookup_decode(es as int, cs) == (match expansion {
                Some(b) => Ok::<Seq<u8>, CompressError>(pfx + b),
                None => Err::<Seq<u8>, CompressError>(CompressError::MalformedInput),
            }),
            i <= m_us,
            expansion == (match expand_indices(
                cs,
                32,
                ef_spec,
                el_spec,
                kk,
                ist,
                wid,
                i as int,
                mm as int,
            ) {
                Some(rest) => Some(acc + rest),
                None => None::<Seq<u8>>,
            }),
            body@ == pfx + acc,
        decreases m_us - i,
    {
        proof {
            assert(i * width + width == (i + 1) * width) by (nonlinear_arith);
            assert((i + 1) * width <= m_us * width) by (nonlinear_arith)
                requires
                    i + 1 <= m_us,
                    width >= 1,
            ;
            assert(i * width >= 0) by (nonlinear_arith)
                requires
                    i >= 0,
                    width >= 1,
            ;
        }
        let idx = read_le(compressed, istart + i * width, width);
        proof {
            assert(cs.subrange(istart + i * width, istart + i * width + width) =~= cs.subrange(
                ist + i as int * wid,
                ist + (i + 1) * wid,
            ));
        }
        if idx >= k64 {
            return Err(CompressError::MalformedInput);
        }
        proof {
            assert(idx as int <= kk - 1);
            assert(kk - 1 <= (kk - 1) * ef_spec) by (nonlinear_arith)
                requires
                    ef_spec >= 1,
                    kk >= 1,
            ;
        }
        let idx_us = idx as usize;
        let elen = if idx == k64 - 1 {
            entry_last as usize
        } else {
            ef_us
        };
        proof {
            assert(idx_us as int * (ef_us as int) == idx as int * ef_spec) by {
                if kk == 1 {
                    assert(idx as int == 0);
                    assert(0int * ef_spec == 0) by (nonlinear_arith);
                    assert(idx_us as int * (ef_us as int) == 0) by (nonlinear_arith)
                        requires
                            idx_us == 0 || ef_us == 0,
                    ;
                }
            }
            assert(idx as int * ef_spec + elen as int <= dict_spec) by (nonlinear_arith)
                requires
                    0 <= idx as int <= kk - 1,
                    ef_spec >= 1,
                    el_spec >= 1,
                    el_spec <= ef_spec,
                    dict_spec == (kk - 1) * ef_spec + el_spec,
                    elen as int == (if idx as int == kk - 1 {
                        el_spec
                    } else {
                        ef_spec
                    }),
            ;
            assert(idx as int * ef_spec >= 0) by (nonlinear_arith)
                requires
                    idx as int >= 0,
                    ef_spec >= 1,
            ;
        }
        let off = 32 + idx_us * ef_us;
        push_range(&mut body, compressed, off, off + elen);
        proof {
            let entry = cs.subrange(
                32 + idx as int * ef_spec,
                32 + idx as int * ef_spec + elen as int,
            );
            assert(cs.subrange(off as int, off + elen) =~= entry);
            let acc_old = acc;
            acc = acc + entry;
            assert(body@ =~= pfx + acc);
            match expand_indices(cs, 32, ef_spec, el_spec, kk, ist, wid, i + 1, mm as int) {
                Some(rest) => {
                    assert(acc_old + (entry + rest) =~= acc + rest);
                },
                None => {},
            }
        }
        i = i + 1;
    }
    proof {
        assert(expand_indices(cs, 32, ef_spec, el_spec, kk, ist, wid, mm as int, mm as int)
            == Some(Seq::<u8>::empty()));
        assert(acc + Seq::<u8>::empty() =~= acc);
        assert(lookup_decode(es as int, cs) == Ok::<Seq<u8>, CompressError>(pfx + acc));
    }
    out.append(&mut body);
    Ok(())
}

// ---------------------------------------------------------------------------
// Round trip
// ---------------------------------------------------------------------------

/// A prefix of entries that all have one length sums to that many lengths.
pub proof fn lemma_sum_lens_uniform(d: Seq<Seq<u8>>, upto: int, ln: int)
    requires
        0 <= upto <= d.len(),
        forall|e: int| 0 <= e < upto ==> (#[trigger] d[e]).len() == ln,
    ensures
        sum_lens(d, upto) == upto * ln,
    decreases upto,
{
    if upto == 0 {
        assert(0 * ln == 0) by (nonlinear_arith);
    } else {
        lemma_sum_lens_uniform(d, upto - 1, ln);
        assert(upto * ln == (upto - 1) * ln + ln) by (nonlinear_arith);
    }
}

/// Every dictionary entry is one full window wide, except the last, which is
/// the trailing short window when the windowing leaves one.
pub proof fn lemma_dict_entry_lens(es: int, bs: Seq<u8>, w: int, p: int)
    requires
        es >= 1,
        1 <= w,
        bs.len() as int % es == 0,
        0 <= p < bs.len() as int / es,
    ensures
        ({
            let n = bs.len() as int / es;
            let ws = lk_windows(es, bs, w, p);
            let d = dict_of(ws);
            let short = (n - p) % w;
            let el = if short == 0 {
                w * es
            } else {
                short * es
            };
            &&& 1 <= d.len() <= ws.len()
            &&& forall|e: int| 0 <= e < d.len() - 1 ==> (#[trigger] d[e]).len() == w * es
            &&& d[d.len() - 1].len() == el
        }),
{
    let n = bs.len() as int / es;
    let ws = lk_windows(es, bs, w, p);
    let d = dict_of(ws);
    let m = ws.len() as int;
    let short = (n - p) % w;
    let el = if short == 0 {
        w * es
    } else {
        short * es
    };
    lemma_windows_len(es, bs, w, p);
    lemma_dedup_covers(ws, 0, Seq::empty(), 0);
    lemma_dedup_extends(ws, 0, Seq::empty());
    assert forall|i: int| 0 <= i < m - 1 implies (#[trigger] ws[i]).len() == w * es by {
        lemma_window_bytes(es, bs, w, p, i);
        assert((p + i * w + w - (p + i * w)) * es == w * es) by (nonlinear_arith);
    }
    lemma_window_bytes(es, bs, w, p, m - 1);
    assert(ws[m - 1].len() == el) by {
        vstd::arithmetic::div_mod::lemma_remainder_lower(n - p, w);
        vstd::arithmetic::div_mod::lemma_remainder_upper(n - p, w);
    }
    if short == 0 {
        assert forall|e: int| 0 <= e < d.len() implies (#[trigger] d[e]).len() == w * es by {
            lemma_dedup_elements(ws, 0, Seq::empty(), e);
            let t = choose|t: int| 0 <= t < ws.len() && ws[t] == d[e];
            if t == m - 1 {
                assert(ws[t].len() == w * es);
            }
        }
    } else {
        let full = ws.take(m - 1);
        let v = ws[m - 1];
        assert(ws =~= full.push(v));
        lemma_dedup_snoc(full, v, 0, Seq::empty());
        let df = dict_of(full);
        assert(dict_of(ws) == (if df.contains(v) {
            df
        } else {
            df.push(v)
        }));
        assert forall|e: int| 0 <= e < df.len() implies (#[trigger] df[e]).len() == w * es by {
            lemma_dedup_elements(full, 0, Seq::empty(), e);
            let t = choose|t: int| 0 <= t < full.len() && full[t] == df[e];
            assert(full[t] == ws[t]);
        }
        assert(v.len() == short * es);
        assert(short * es < w * es) by (nonlinear_arith)
            requires
                0 < short < w,
                es >= 1,
        ;
        if df.contains(v) {
            let t = choose|t: int| 0 <= t < df.len() && df[t] == v;
            assert(df[t].len() == w * es);
            assert(false);
        }
        assert(d == df.push(v));
    }
}

/// A dictionary index always fits the width that the entry count's mode
/// selects.
pub proof fn lemma_index_fits(k: int, v: int)
    requires
        0 <= v < k,
        k < 0x1_0000_0000_0000_0000,
    ensures
        v < pow256(mode_width(spec_mode(k as u64)) as nat),
{
    reveal_with_fuel(pow256, 9);
    assert(pow256(1) == 256);
    assert(pow256(2) == 0x1_0000);
    assert(pow256(4) == 0x1_0000_0000);
    assert(pow256(8) == 0x1_0000_0000_0000_0000);
}

/// Expanding the encoded index stream from window `i` on yields the bytes of
/// the windows from `i` on.
#[verifier::rlimit(80)]
pub proof fn lemma_expand_encoded(es: int, bs: Seq<u8>, i: int)
    requires
        es >= 1,
        bs.len() as int % es == 0,
        1 <= bs.len() < 0x1_0000_0000_0000_0000,
        0 <= i <= lk_windows(es, bs, best_wp(es, bs).0, best_wp(es, bs).1).len(),
    ensures
        ({
            let n = bs.len() as int / es;
            let w = best_wp(es, bs).0;
            let p = best_wp(es, bs).1;
            let ws = lk_windows(es, bs, w, p);
            let d = dict_of(ws);
            let k = d.len() as int;
            let mode = spec_mode(k as u64);
            let wid = mode_width(mode);
            let enc = lookup_encode_nonempty(es, bs);
            let short = (n - p) % w;
            let el = if short == 0 {
                w * es
            } else {
                short * es
            };
            let dict_len = (k - 1) * (w * es) + el;
            let istart = 32 + dict_len + 8 + p * es;
            expand_indices(enc, 32, w * es, el, k, istart, wid, i, ws.len() as int) == Some(
                ws.skip(i).flatten(),
            )
        }),
    decreases lk_windows(es, bs, best_wp(es, bs).0, best_wp(es, bs).1).len() - i,
{
    let n = bs.len() as int / es;
    lemma_best_wp_props(es, bs);
    let w = best_wp(es, bs).0;
    let p = best_wp(es, bs).1;
    let ws = lk_windows(es, bs, w, p);
    let d = dict_of(ws);
    let k = d.len() as int;
    let mode = spec_mode(k as u64);
    let wid = mode_width(mode);
    let enc = lookup_encode_nonempty(es, bs);
    let short = (n - p) % w;
    let el = if short == 0 {
        w * es
    } else {
        short * es
    };
    let dict_len = (k - 1) * (w * es) + el;
    let istart = 32 + dict_len + 8 + p * es;
    let m = ws.len() as int;
    lemma_windows_len(es, bs, w, p);
    lemma_dict_entry_lens(es, bs, w, p);
    // The byte layout of the encoded stream.
    lemma_le_bytes_len(w, 8);
    lemma_le_bytes_len(p, 8);
    lemma_le_bytes_len(n, 8);
    lemma_le_bytes_len(k, 8);
    lemma_le_bytes_len(mode, 8);
    lemma_payload_len(d, k);
    lemma_sum_lens_uniform(d, k - 1, w * es);
    assert(sum_lens(d, k) == dict_len);
    lemma_indices_len(ws, d, mode, m);
    assert(n * es <= bs.len()) by {
        vstd::arithmetic::div_mod::lemma_fundamental_div_mod(bs.len() as int, es);
        vstd::arithmetic::div_mod::lemma_remainder_lower(bs.len() as int, es);
        assert(es * n == n * es) by (nonlinear_arith);
    }
    assert(p * es <= bs.len()) by (nonlinear_arith)
        requires
            0 <= p < n,
            es >= 1,
            n * es <= bs.len(),
    ;
    let pre = le_bytes(w, 8) + le_bytes(p, 8) + le_bytes(n, 8) + le_bytes(k, 8) + payload(d, k)
        + le_bytes(mode, 8) + bs.take(p * es);
    assert(enc == pre + indices_bytes(ws, d, mode, m));
    assert(pre.len() == istart);
    if i == m {
        assert(ws.skip(m) =~= Seq::<Seq<u8>>::empty());
        assert(ws.skip(m).flatten() =~= Seq::<u8>::empty());
    } else {
        lemma_dedup_covers(ws, 0, Seq::empty(), i);
        lemma_first_index_props(d, ws[i]);
        let fi = first_index(d, ws[i]);
        lemma_indices_slice(ws, d, mode, i, m);
        assert(i * wid >= 0 && (i + 1) * wid == i * wid + wid && (i + 1) * wid <= m * wid)
            by (nonlinear_arith)
            requires
                0 <= i < m,
                wid >= 1,
        ;
        assert(enc.subrange(istart + i * wid, istart + (i + 1) * wid) =~= indices_bytes(
            ws,
            d,
            mode,
            m,
        ).subrange(i * wid, (i + 1) * wid));
        lemma_index_fits(k, fi);
        lemma_le_bytes_value(fi, wid as nat);
        assert(le_value(enc.subrange(istart + i * wid, istart + (i + 1) * wid)) == fi);
        // The entry's bytes inside the dictionary region.
        let elen = if fi == k - 1 {
            el
        } else {
            w * es
        };
        assert(d[fi].len() == elen);
        lemma_sum_lens_uniform(d, fi, w * es);
        assert(sum_lens(d, fi) == fi * (w * es));
        lemma_payload_slice(d, fi, k);
        assert(sum_lens(d, fi + 1) == sum_lens(d, fi) + elen);
        lemma_sum_lens_monotone(d, fi + 1, k);
        assert(fi * (w * es) >= 0) by (nonlinear_arith)
            requires
                fi >= 0,
                w * es >= 0,
        ;
        assert(enc.subrange(32 + fi * (w * es), 32 + fi * (w * es) + elen) =~= payload(
            d,
            k,
        ).subrange(sum_lens(d, fi), sum_lens(d, fi + 1)));
        assert(enc.subrange(32 + fi * (w * es), 32 + fi * (w * es) + elen) == ws[i]);
        lemma_expand_encoded(es, bs, i + 1);
        assert(ws.skip(i)[0] == ws[i]);
        assert(ws.skip(i).drop_first() =~= ws.skip(i + 1));
        assert(ws.skip(i).flatten() == ws[i] + ws.skip(i + 1).flatten());
    }
}

/// Round trip: decoding an encoded buffer recovers the original input.
#[verifier::rlimit(80)]
pub proof fn lemma_lookup_round_trip(es: int, bs: Seq<u8>)
    requires
        es >= 1,
        bs.len() as int % es == 0,
        bs.len() < 0x1_0000_0000_0000_0000,
    ensures
        lookup_decode(es, lookup_encode(es, bs)) == Ok::<Seq<u8>, CompressError>(bs),
{
    let m64: int = 0x1_0000_0000_0000_0000;
    reveal_with_fuel(pow256, 9);
    assert(pow256(8) == m64);
    if bs.len() == 0 {
        let enc = lookup_encode(es, bs);
        lemma_le_bytes_len(1, 8);
        lemma_le_bytes_len(0, 8);
        assert(enc.len() == 40);
        assert(enc.subrange(0, 8) =~= le_bytes(1, 8));
        assert(enc.subrange(8, 16) =~= le_bytes(0, 8));
        assert(enc.subrange(16, 24) =~= le_bytes(0, 8));
        assert(enc.subrange(24, 32) =~= le_bytes(0, 8));
        assert(enc.subrange(32, 40) =~= le_bytes(0, 8));
        lemma_le_bytes_value(1, 8);
        lemma_le_bytes_value(0, 8);
        assert(bs =~= Seq::<u8>::empty());
    } else {
        let n = bs.len() as int / es;
        lemma_best_wp_props(es, bs);
        let w = best_wp(es, bs).0;
        let p = best_wp(es, bs).1;
        let ws = lk_windows(es, bs, w, p);
        let d = dict_of(ws);
        let k = d.len() as int;
        let mode = spec_mode(k as u64);
        let wid = mode_width(mode);
        let enc = lookup_encode_nonempty(es, bs);
        let short = (n - p) % w;
        let el = if short == 0 {
            w * es
        } else {
            short * es
        };
        let dict_len = (k - 1) * (w * es) + el;
        let istart = 32 + dict_len + 8 + p * es;
        let m = ws.len() as int;
        lemma_windows_len(es, bs, w, p);
        lemma_dict_entry_lens(es, bs, w, p);
        lemma_le_bytes_len(w, 8);
        lemma_le_bytes_len(p, 8);
        lemma_le_bytes_len(n, 8);
        lemma_le_bytes_len(k, 8);
        lemma_le_bytes_len(mode, 8);
        lemma_payload_len(d, k);
        lemma_sum_lens_uniform(d, k - 1, w * es);
        assert(sum_lens(d, k) == dict_len);
        lemma_indices_len(ws, d, mode, m);
        vstd::arithmetic::div_mod::lemma_fundamental_div_mod(bs.len() as int, es);
        vstd::arithmetic::div_mod::lemma_remainder_lower(bs.len() as int, es);
        vstd::arithmetic::div_mod::lemma_div_pos_is_pos(bs.len() as int, es);
        assert(es * n == n * es) by (nonlinear_arith);
        assert(n * es <= bs.len());
        assert(n >= 1);
        assert(p * es < n * es) by (nonlinear_arith)
            requires
                0 <= p < n,
                es >= 1,
        ;
        assert(1 <= el <= w * es && dict_len >= el && (k - 1) * (w * es) >= 0) by (nonlinear_arith)
            requires
                es >= 1,
                1 <= w,
                ((0 < short && short < w) || short == 0),
                el == (if short == 0 {
                    w * es
                } else {
                    short * es
                }),
                k >= 1,
                dict_len == (k - 1) * (w * es) + el,
        ;
        assert(m * wid >= m) by (nonlinear_arith)
            requires
                m >= 0,
                wid >= 1,
        ;
        let pre = le_bytes(w, 8) + le_bytes(p, 8) + le_bytes(n, 8) + le_bytes(k, 8) + payload(d, k)
            + le_bytes(mode, 8) + bs.take(p * es);
        assert(enc == pre + indices_bytes(ws, d, mode, m));
        assert(enc.len() == istart + m * wid);
        assert(enc.len() >= 40);
        // The header fields read back.
        assert(enc.subrange(0, 8) =~= le_bytes(w, 8));
        assert(enc.subrange(8, 16) =~= le_bytes(p, 8));
        assert(enc.subrange(16, 24) =~= le_bytes(n, 8));
        assert(enc.subrange(24, 32) =~= le_bytes(k, 8));
        lemma_le_bytes_value(w, 8);
        lemma_le_bytes_value(p, 8);
        lemma_le_bytes_value(n, 8);
        lemma_le_bytes_value(k, 8);
        assert(k <= m && m <= n - p) by {
            lemma_dedup_extends(ws, 0, Seq::empty());
        }
        // The decoder recomputes the same geometry.
        assert(chunk_count(n - p, w) == m);
        assert(enc.subrange(32 + dict_len, 32 + dict_len + 8) =~= le_bytes(mode, 8));
        lemma_le_bytes_value(mode, 8);
        assert(enc.subrange(32 + dict_len + 8, istart) =~= bs.take(p * es));
        lemma_expand_encoded(es, bs, 0);
        assert(ws.skip(0) =~= ws);
        lemma_chunks_flatten(es, w, bs.skip(p * es), 0);
        assert(0 * w * es == 0) by (nonlinear_arith);
        assert(min(0, bs.skip(p * es).len() as int) == 0);
        assert(bs.skip(p * es).skip(0) =~= bs.skip(p * es));
        assert(ws.flatten() == bs.skip(p * es));
        assert(bs.take(p * es) + bs.skip(p * es) =~= bs);
        assert(lookup_decode(es, enc) == Ok::<Seq<u8>, CompressError>(bs));
    }
}

} // verus!
