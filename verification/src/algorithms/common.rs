//! The shared variable-width count encoding, and the little-endian byte
//! helpers that every codec's wire format is built from.
//!
//! A count field is a one-byte mode selector (0 = one byte, 1 = two bytes,
//! 2 = four bytes, anything else = eight bytes) followed by that many bytes
//! holding the value, least significant byte first. The mode is the smallest
//! one whose width can represent the value, except that a value equal to the
//! width's maximum already selects the next mode up.

use vstd::prelude::*;

verus! {

use vstd::arithmetic::div_mod::{
    lemma_fundamental_div_mod,
    lemma_div_denominator,
    lemma_multiply_divide_lt,
};

// ---------------------------------------------------------------------------
// Little-endian byte strings
// ---------------------------------------------------------------------------

/// 256 to the power `n`: the number of values `n` bytes can hold.
pub open spec fn pow256(n: nat) -> int
    decreases n,
{
    if n == 0 {
        1
    } else {
        256 * pow256((n - 1) as nat)
    }
}

/// The `n` low-order bytes of `v`, least significant first.
pub open spec fn le_bytes(v: int, n: nat) -> Seq<u8>
    decreases n,
{
    if n == 0 {
        Seq::empty()
    } else {
        seq![(v % 256) as u8] + le_bytes(v / 256, (n - 1) as nat)
    }
}

/// The unsigned integer stored in `s`, least significant byte first.
pub open spec fn le_value(s: Seq<u8>) -> int
    decreases s.len(),
{
    if s.len() == 0 {
        0
    } else {
        s[0] + 256 * le_value(s.skip(1))
    }
}

pub proof fn lemma_pow256_pos(n: nat)
    ensures
        pow256(n) >= 1,
    decreases n,
{
    if n > 0 {
        lemma_pow256_pos((n - 1) as nat);
    }
}

pub proof fn lemma_pow256_increases(m: nat, n: nat)
    requires
        m <= n,
    ensures
        pow256(m) <= pow256(n),
    decreases n,
{
    if m < n {
        lemma_pow256_increases(m, (n - 1) as nat);
        lemma_pow256_pos((n - 1) as nat);
    }
}

pub proof fn lemma_le_bytes_len(v: int, n: nat)
    ensures
        le_bytes(v, n).len() == n,
    decreases n,
{
    if n > 0 {
        lemma_le_bytes_len(v / 256, (n - 1) as nat);
    }
}

pub proof fn lemma_le_value_bound(s: Seq<u8>)
    ensures
        0 <= le_value(s) < pow256(s.len()),
    decreases s.len(),
{
    if s.len() > 0 {
        lemma_le_value_bound(s.skip(1));
    }
}

/// Reading back the bytes of a value recovers the value, as long as it fits.
pub proof fn lemma_le_bytes_value(v: int, n: nat)
    requires
        0 <= v < pow256(n),
    ensures
        le_value(le_bytes(v, n)) == v,
    decreases n,
{
    if n > 0 {
        assert(v < 256 * pow256((n - 1) as nat));
        lemma_pow256_pos((n - 1) as nat);
        lemma_multiply_divide_lt(v, 256, pow256((n - 1) as nat));
        lemma_le_bytes_value(v / 256, (n - 1) as nat);
        let s = le_bytes(v, n);
        assert(s.skip(1) =~= le_bytes(v / 256, (n - 1) as nat));
        lemma_fundamental_div_mod(v, 256);
    }
}

/// Extending a little-endian byte string by one byte appends the next
/// higher-order byte of the value.
pub proof fn lemma_le_bytes_snoc(v: int, n: nat)
    requires
        v >= 0,
    ensures
        le_bytes(v, n + 1) == le_bytes(v, n).push(((v / pow256(n)) % 256) as u8),
    decreases n,
{
    lemma_le_bytes_len(v, n);
    lemma_le_bytes_len(v, n + 1);
    if n == 0 {
        assert(le_bytes(v, 1) =~= le_bytes(v, 0).push((v % 256) as u8));
    } else {
        lemma_pow256_pos((n - 1) as nat);
        lemma_le_bytes_snoc(v / 256, (n - 1) as nat);
        lemma_div_denominator(v, 256, pow256((n - 1) as nat));
        assert(v / 256 / pow256((n - 1) as nat) == v / pow256(n));
        assert(le_bytes(v, n + 1) =~= le_bytes(v, n).push(((v / pow256(n)) % 256) as u8));
    }
}

// ---------------------------------------------------------------------------
// Elements: fixed-width chunks of a flat buffer
// ---------------------------------------------------------------------------

/// The elements of a flat buffer: consecutive chunks of `w` bytes each.
pub open spec fn to_elems(w: int, bs: Seq<u8>) -> Seq<Seq<u8>>
    recommends
        w >= 1,
{
    Seq::new((bs.len() as int / w) as nat, |i: int| bs.subrange(i * w, (i + 1) * w))
}

/// Every entry of `xs` is exactly `w` bytes wide.
pub open spec fn elems_wf(w: int, xs: Seq<Seq<u8>>) -> bool {
    forall|i: int| 0 <= i < xs.len() ==> (#[trigger] xs[i]).len() == w
}

/// `count` copies of `elem`, concatenated.
pub open spec fn repeat_elem(elem: Seq<u8>, count: nat) -> Seq<u8>
    decreases count,
{
    if count == 0 {
        Seq::empty()
    } else {
        elem + repeat_elem(elem, (count - 1) as nat)
    }
}

pub proof fn lemma_repeat_elem_len(elem: Seq<u8>, count: nat)
    ensures
        repeat_elem(elem, count).len() == count * elem.len(),
    decreases count,
{
    if count == 0 {
        assert(count * elem.len() == 0) by (nonlinear_arith)
            requires
                count == 0,
        ;
    } else {
        lemma_repeat_elem_len(elem, (count - 1) as nat);
        assert(repeat_elem(elem, count) == elem + repeat_elem(elem, (count - 1) as nat));
        assert(elem.len() + ((count - 1) as nat) * elem.len() == count * elem.len())
            by (nonlinear_arith)
            requires
                count >= 1,
        ;
    }
}

/// Adding one more copy appends it at the end as well as at the front.
pub proof fn lemma_repeat_elem_snoc(elem: Seq<u8>, count: nat)
    ensures
        repeat_elem(elem, count + 1) == repeat_elem(elem, count) + elem,
    decreases count,
{
    if count == 0 {
        assert(repeat_elem(elem, 1) =~= repeat_elem(elem, 0) + elem);
    } else {
        lemma_repeat_elem_snoc(elem, (count - 1) as nat);
        assert(repeat_elem(elem, count + 1) =~= repeat_elem(elem, count) + elem);
    }
}

pub proof fn lemma_to_elems_wf(w: int, bs: Seq<u8>)
    requires
        w >= 1,
    ensures
        elems_wf(w, to_elems(w, bs)),
        to_elems(w, bs).len() == bs.len() as int / w,
{
    let n = bs.len() as int / w;
    vstd::arithmetic::div_mod::lemma_div_pos_is_pos(bs.len() as int, w);
    assert forall|i: int| 0 <= i < n implies (#[trigger] to_elems(w, bs)[i]).len() == w by {
        vstd::arithmetic::div_mod::lemma_fundamental_div_mod(bs.len() as int, w);
        vstd::arithmetic::div_mod::lemma_remainder_lower(bs.len() as int, w);
        assert((i + 1) * w <= n * w) by (nonlinear_arith)
            requires
                i + 1 <= n,
                w >= 1,
        ;
        assert(n * w <= bs.len());
        assert(i * w >= 0) by (nonlinear_arith)
            requires
                i >= 0,
                w >= 1,
        ;
        assert((i + 1) * w == i * w + w) by (nonlinear_arith);
        assert(to_elems(w, bs)[i] == bs.subrange(i * w, (i + 1) * w));
    }
}

/// Splitting off the first element of a buffer of at least one element.
pub proof fn lemma_to_elems_step(w: int, bs: Seq<u8>)
    requires
        w >= 1,
        bs.len() >= w,
    ensures
        to_elems(w, bs) == seq![bs.subrange(0, w)] + to_elems(w, bs.skip(w)),
{
    let rest = bs.skip(w);
    vstd::arithmetic::div_mod::lemma_div_plus_one(rest.len() as int, w);
    assert(bs.len() as int / w == rest.len() as int / w + 1);
    vstd::arithmetic::div_mod::lemma_div_pos_is_pos(rest.len() as int, w);
    vstd::arithmetic::div_mod::lemma_div_pos_is_pos(bs.len() as int, w);
    let lhs = to_elems(w, bs);
    let rhs = seq![bs.subrange(0, w)] + to_elems(w, rest);
    let n = bs.len() as int / w;
    assert(lhs.len() == n);
    assert(rhs.len() == n);
    assert forall|i: int| 0 <= i < n implies lhs[i] == rhs[i] by {
        assert(0 * w == 0) by (nonlinear_arith);
        assert(1 * w == w) by (nonlinear_arith);
        assert(lhs[i] == bs.subrange(i * w, (i + 1) * w));
        if i == 0 {
            assert(rhs[0] == bs.subrange(0, w));
        }
        if i >= 1 {
            assert((i - 1) * w + w == i * w) by (nonlinear_arith);
            assert(i * w + w == (i + 1) * w) by (nonlinear_arith);
            assert((i - 1) * w >= 0) by (nonlinear_arith)
                requires
                    i >= 1,
                    w >= 1,
            ;
            vstd::arithmetic::div_mod::lemma_fundamental_div_mod(bs.len() as int, w);
            vstd::arithmetic::div_mod::lemma_remainder_lower(bs.len() as int, w);
            assert((i + 1) * w <= n * w) by (nonlinear_arith)
                requires
                    i + 1 <= n,
                    w >= 1,
            ;
            assert(n * w <= bs.len());
            assert(i * w <= rest.len());
            assert(rhs[i] == to_elems(w, rest)[i - 1]);
            assert(to_elems(w, rest)[i - 1] == rest.subrange((i - 1) * w, i * w));
            assert(rest.subrange((i - 1) * w, i * w) =~= bs.subrange(i * w, (i + 1) * w));
        }
    }
    assert(lhs =~~= rhs);
}

/// Flattening the elements of a whole buffer gives back the buffer.
pub proof fn lemma_to_elems_flatten(w: int, bs: Seq<u8>)
    requires
        w >= 1,
        bs.len() as int % w == 0,
    ensures
        to_elems(w, bs).flatten() == bs,
    decreases bs.len(),
{
    vstd::arithmetic::div_mod::lemma_fundamental_div_mod(bs.len() as int, w);
    if bs.len() == 0 {
        assert(to_elems(w, bs).len() == 0);
        assert(to_elems(w, bs).flatten() =~= bs);
    } else {
        assert(bs.len() as int / w >= 1) by {
            vstd::arithmetic::div_mod::lemma_div_pos_is_pos(bs.len() as int, w);
            if bs.len() as int / w == 0 {
                assert(bs.len() as int == w * 0);
            }
        }
        assert(bs.len() >= w) by {
            assert(w * (bs.len() as int / w) >= w * 1) by (nonlinear_arith)
                requires
                    w >= 1,
                    bs.len() as int / w >= 1,
            ;
        }
        lemma_to_elems_step(w, bs);
        let rest = bs.skip(w);
        vstd::arithmetic::div_mod::lemma_mod_sub_multiples_vanish(bs.len() as int, w);
        assert(rest.len() as int % w == 0);
        lemma_to_elems_flatten(w, rest);
        let xs = to_elems(w, bs);
        assert(xs.first() == bs.subrange(0, w));
        assert(xs.drop_first() =~~= to_elems(w, rest));
        assert(xs.flatten() == bs.subrange(0, w) + rest);
        assert(bs.subrange(0, w) + rest =~= bs);
    }
}

/// The flattened prefix of an all-equal run of elements is that element
/// repeated.
pub proof fn lemma_flatten_all_equal(xs: Seq<Seq<u8>>, l: int)
    requires
        0 <= l <= xs.len(),
        forall|j: int| 0 <= j < l ==> #[trigger] xs[j] == xs[0],
    ensures
        xs.take(l).flatten() == repeat_elem(xs[0], l as nat),
    decreases l,
{
    if l == 0 {
        assert(xs.take(0).flatten() =~= repeat_elem(xs[0], 0));
    } else {
        lemma_flatten_all_equal(xs, l - 1);
        assert(xs.take(l) =~= xs.take(l - 1).push(xs[l - 1]));
        xs.take(l - 1).lemma_flatten_push(xs[l - 1]);
        lemma_repeat_elem_snoc(xs[0], (l - 1) as nat);
    }
}

// ---------------------------------------------------------------------------
// Count fields
// ---------------------------------------------------------------------------

/// Width in bytes of the value field selected by a mode byte.
pub open spec fn mode_width(mode: int) -> int {
    if mode == 0 {
        1
    } else if mode == 1 {
        2
    } else if mode == 2 {
        4
    } else {
        8
    }
}

/// The mode chosen for a count: the smallest width that can represent it,
/// where a count at the width's maximum already takes the next mode up.
pub open spec fn spec_mode(count: u64) -> int {
    if count < 0xff {
        0
    } else if count < 0xffff {
        1
    } else if count < 0xffff_ffff {
        2
    } else {
        3
    }
}

/// The bytes of a count written with an explicit mode: the value field alone.
pub open spec fn spec_count_bytes_with_mode(count: u64, mode: int) -> Seq<u8> {
    le_bytes(count as int, mode_width(mode) as nat)
}

/// The bytes of a self-describing count: mode selector, then the value field.
pub open spec fn spec_count_bytes(count: u64) -> Seq<u8> {
    seq![spec_mode(count) as u8] + le_bytes(count as int, mode_width(spec_mode(count)) as nat)
}

/// What reading a count field from the front of `s` yields: the value and the
/// number of bytes consumed, or nothing when `s` is too short.
pub open spec fn spec_read_count(s: Seq<u8>) -> Option<(u64, int)> {
    if s.len() < 1 {
        None
    } else {
        let w = mode_width(s[0] as int);
        if s.len() < 1 + w {
            None
        } else {
            Some((le_value(s.subrange(1, 1 + w)) as u64, 1 + w))
        }
    }
}

/// A written count always fits the width its mode selects.
pub proof fn lemma_count_fits_mode(count: u64)
    ensures
        (count as int) < pow256(mode_width(spec_mode(count)) as nat),
{
    reveal_with_fuel(pow256, 9);
    assert(pow256(1) == 256);
    assert(pow256(2) == 0x1_0000);
    assert(pow256(4) == 0x1_0000_0000);
    assert(pow256(8) == 0x1_0000_0000_0000_0000);
}

/// Reading a count field written at the front of any buffer yields the value
/// it was written from and consumes exactly the written bytes.
pub proof fn lemma_count_round_trip_prefix(count: u64, rest: Seq<u8>)
    ensures
        spec_count_bytes(count).len() == 1 + mode_width(spec_mode(count)),
        spec_read_count(spec_count_bytes(count) + rest) == Some(
            (count, spec_count_bytes(count).len() as int),
        ),
{
    let mode = spec_mode(count);
    let w = mode_width(mode) as nat;
    lemma_le_bytes_len(count as int, w);
    let s = spec_count_bytes(count) + rest;
    assert(s[0] == mode as u8);
    assert(mode_width(s[0] as int) == w);
    assert(s.subrange(1, 1 + w as int) =~= le_bytes(count as int, w));
    lemma_count_fits_mode(count);
    lemma_le_bytes_value(count as int, w);
}

/// The count encoding round-trips: decoding what was encoded yields the
/// original value and the exact encoded length, which is 2, 3, 5 or 9 bytes.
pub proof fn lemma_count_round_trip(count: u64)
    ensures
        spec_read_count(spec_count_bytes(count)) == Some(
            (count, spec_count_bytes(count).len() as int),
        ),
        spec_count_bytes(count).len() == 1 + mode_width(spec_mode(count)),
{
    lemma_count_round_trip_prefix(count, Seq::empty());
    assert(spec_count_bytes(count) + Seq::<u8>::empty() =~= spec_count_bytes(count));
}

// ---------------------------------------------------------------------------
// Executable helpers
// ---------------------------------------------------------------------------

/// Appends the `width` low-order bytes of `v`, least significant first.
pub(crate) fn push_le(buffer: &mut Vec<u8>, v: u64, width: usize)
    ensures
        final(buffer)@ == old(buffer)@ + le_bytes(v as int, width as nat),
{
    let ghost orig = buffer@;
    let mut i: usize = 0;
    let mut cur: u64 = v;
    proof {
        lemma_le_bytes_len(v as int, 0);
        assert(buffer@ =~= orig + le_bytes(v as int, 0));
    }
    while i < width
        invariant
            i <= width,
            cur as int == (v as int) / pow256(i as nat),
            buffer@ == orig + le_bytes(v as int, i as nat),
        decreases width - i,
    {
        proof {
            lemma_le_bytes_snoc(v as int, i as nat);
            lemma_pow256_pos(i as nat);
            lemma_div_denominator(v as int, pow256(i as nat), 256);
        }
        buffer.push((cur % 256) as u8);
        cur = cur / 256;
        i = i + 1;
    }
}

/// Reads `width` bytes at offset `at`, least significant first.
pub(crate) fn read_le(buffer: &[u8], at: usize, width: usize) -> (v: u64)
    requires
        at + width <= buffer@.len(),
        width <= 8,
    ensures
        v as int == le_value(buffer@.subrange(at as int, at + width)),
{
    let n = buffer.len();
    let mut j: usize = width;
    let mut v: u64 = 0;
    proof {
        assert(buffer@.subrange(at + width, at + width) =~= Seq::<u8>::empty());
    }
    while j > 0
        invariant
            j <= width,
            width <= 8,
            at + width <= n == buffer@.len(),
            v as int == le_value(buffer@.subrange(at + j, at + width)),
        decreases j,
    {
        j = j - 1;
        proof {
            let s = buffer@.subrange(at + j, at + width);
            assert(s.skip(1) =~= buffer@.subrange(at + j + 1, at + width));
            lemma_le_value_bound(buffer@.subrange(at + j + 1, at + width));
            lemma_pow256_increases(((width - j) - 1) as nat, 7);
            reveal_with_fuel(pow256, 8);
            assert(pow256(7) == 0x100_0000_0000_0000);
        }
        v = (buffer[at + j] as u64) + 256 * v;
    }
    proof {
        assert(buffer@.subrange(at as int, at + width) =~= buffer@.subrange(
            at + 0,
            at + width,
        ));
    }
    v
}

/// Appends `src[from..to]` to `dst`.
pub(crate) fn push_range(dst: &mut Vec<u8>, src: &[u8], from: usize, to: usize)
    requires
        from <= to <= src@.len(),
    ensures
        final(dst)@ == old(dst)@ + src@.subrange(from as int, to as int),
{
    let ghost orig = dst@;
    let len = src.len();
    let mut k: usize = from;
    proof {
        assert(orig + src@.subrange(from as int, from as int) =~= orig);
    }
    while k < to
        invariant
            from <= k <= to <= len == src@.len(),
            dst@ == orig + src@.subrange(from as int, k as int),
        decreases to - k,
    {
        proof {
            assert(src@.subrange(from as int, k + 1) =~= src@.subrange(from as int, k as int).push(
                src@[k as int],
            ));
            assert(orig + src@.subrange(from as int, k as int).push(src@[k as int]) =~= (orig
                + src@.subrange(from as int, k as int)).push(src@[k as int]));
        }
        dst.push(src[k]);
        k = k + 1;
    }
}

/// Whether the `n`-byte ranges of `bs` at offsets `a` and `b` hold the same
/// bytes.
pub(crate) fn range_eq(bs: &[u8], a: usize, b: usize, n: usize) -> (r: bool)
    requires
        a + n <= bs@.len(),
        b + n <= bs@.len(),
    ensures
        r == (bs@.subrange(a as int, a + n) == bs@.subrange(b as int, b + n)),
{
    let len = bs.len();
    let mut k: usize = 0;
    while k < n
        invariant
            k <= n,
            a + n <= len == bs@.len(),
            b + n <= len,
            forall|j: int| 0 <= j < k ==> bs@[#[trigger] (a + j)] == bs@[b + j],
        decreases n - k,
    {
        if bs[a + k] != bs[b + k] {
            proof {
                assert(bs@.subrange(a as int, a + n)[k as int] != bs@.subrange(b as int, b + n)[
                    k as int
                ]);
            }
            return false;
        }
        k = k + 1;
    }
    proof {
        let s1 = bs@.subrange(a as int, a + n);
        let s2 = bs@.subrange(b as int, b + n);
        assert forall|j: int| 0 <= j < n implies s1[j] == s2[j] by {
            assert(bs@[a + j] == bs@[b + j]);
        }
        assert(s1 =~= s2);
    }
    true
}

/// Width in bytes of the value field selected by a mode.
pub(crate) fn mode_width_exec(mode: usize) -> (w: usize)
    ensures
        w as int == mode_width(mode as int),
        1 <= w <= 8,
{
    if mode == 0 {
        1
    } else if mode == 1 {
        2
    } else if mode == 2 {
        4
    } else {
        8
    }
}

// ---------------------------------------------------------------------------
// The public count-encoding interface
// ---------------------------------------------------------------------------

/// The smallest mode whose width can represent `count`; a count equal to a
/// width's maximum value already selects the next mode up.
pub fn get_mode(count: u64) -> (mode: usize)
    ensures
        mode as int == spec_mode(count),
{
    if count < 0xff {
        0
    } else if count < 0xffff {
        1
    } else if count < 0xffff_ffff {
        2
    } else {
        3
    }
}

/// Appends a self-describing count field: the mode byte, then the value in
/// that mode's width, least significant byte first.
pub fn write_count_bytes(count: u64, buffer: &mut Vec<u8>)
    ensures
        final(buffer)@ == old(buffer)@ + spec_count_bytes(count),
{
    let ghost orig = buffer@;
    let mode = get_mode(count);
    buffer.push(mode as u8);
    write_count_bytes_with_mode(count, mode, buffer);
    proof {
        assert(buffer@ =~= orig + spec_count_bytes(count));
    }
}

/// Appends only the value field of a count, in the width the given mode
/// selects; the caller must persist the mode separately. A value too large
/// for the width is truncated to its low-order bytes.
pub fn write_count_bytes_with_mode(count: u64, mode: usize, buffer: &mut Vec<u8>)
    ensures
        final(buffer)@ == old(buffer)@ + spec_count_bytes_with_mode(count, mode as int),
{
    let width = mode_width_exec(mode);
    push_le(buffer, count, width);
}

/// Reads a count field from the front of `buffer`: the mode byte, then that
/// many value bytes. Returns the value and the total bytes consumed. The
/// buffer must hold the whole field; a shorter buffer is a caller error.
pub fn read_count_bytes(buffer: &[u8]) -> (r: (u64, usize))
    requires
        spec_read_count(buffer@) is Some,
    ensures
        spec_read_count(buffer@) == Some((r.0, r.1 as int)),
{
    let mode = buffer[0] as usize;
    let width = mode_width_exec(mode);
    let value = read_le(buffer, 1, width);
    (value, 1 + width)
}

} // verus!
