use crate::bit_reader::{lemma_value_bound, stream_bit, stream_value, BitReader};
use crate::error::EnactError;
use vstd::prelude::*;

verus! {

/// How many of the first `k` symbols have code length `l`.
pub open spec fn count_before(lens: Seq<u8>, l: int, k: int) -> int
    decreases k,
{
    if k <= 0 {
        0
    } else {
        count_before(lens, l, k - 1) + if lens[k - 1] == l {
            1int
        } else {
            0
        }
    }
}

/// How many symbols have code length `l`.
pub open spec fn count_len(lens: Seq<u8>, l: int) -> int {
    count_before(lens, l, lens.len() as int)
}

/// The first canonical code of length `l` (`l >= 1`): codes of each length
/// follow, doubled, the codes of all shorter lengths.
pub open spec fn first_code(lens: Seq<u8>, l: int) -> int
    decreases l,
{
    if l <= 1 {
        0
    } else {
        2 * (first_code(lens, l - 1) + count_len(lens, l - 1))
    }
}

/// The canonical Huffman code of symbol `sym`: the first code of its
/// length plus the number of earlier symbols of the same length. A symbol
/// of length 0 has no code and gets 0.
pub open spec fn canonical_code(lens: Seq<u8>, sym: int) -> int {
    if lens[sym] == 0 {
        0
    } else {
        first_code(lens, lens[sym] as int) + count_before(lens, lens[sym] as int, sym)
    }
}

/// Symbol `sym` has a code of `k` bits whose value is `v`.
pub open spec fn is_code(lens: Seq<u8>, codes: Seq<u32>, sym: int, k: int, v: u32) -> bool {
    0 <= sym < lens.len() && sym < codes.len() && lens[sym] == k && codes[sym] == v
}

/// Some symbol has a code of `k` bits whose value is `v`.
pub open spec fn has_code(lens: Seq<u8>, codes: Seq<u32>, k: int, v: u32) -> bool {
    exists|sym: int| is_code(lens, codes, sym, k, v)
}

/// The least symbol with a code of `k` bits whose value is `v`.
pub open spec fn least_sym(lens: Seq<u8>, codes: Seq<u32>, k: int, v: u32) -> int {
    choose|sym: int| is_code(lens, codes, sym, k, v) && forall|j: int| 0 <= j < sym ==> !is_code(lens, codes, j, k, v)
}

/// The first `k` stream bits at `p` form a code, and no shorter prefix does.
pub open spec fn code_ends_at(lens: Seq<u8>, codes: Seq<u32>, data: Seq<u8>, start: int, p: int, k: int) -> bool {
    &&& 1 <= k <= 16
    &&& has_code(lens, codes, k, stream_value(data, start, p, k as nat))
    &&& forall|j: int| 1 <= j < k ==> !has_code(lens, codes, j, #[trigger] stream_value(data, start, p, j as nat))
}

/// The symbol that the code at stream position `p` stands for, and the
/// number of bits of its code: the shortest prefix of at most 16 bits that
/// is a code, and of the symbols with that code the least.
#[verifier::opaque]
pub open spec fn huffman_decode(lens: Seq<u8>, codes: Seq<u32>, data: Seq<u8>, start: int, p: int) -> Option<(int, int)> {
    if exists|k: int| code_ends_at(lens, codes, data, start, p, k) {
        let k = choose|k: int| code_ends_at(lens, codes, data, start, p, k);
        Some((least_sym(lens, codes, k, stream_value(data, start, p, k as nat)), k))
    } else {
        None
    }
}

/// `a - b` where `a` exceeds `b`, else 0.
pub open spec fn gap(a: int, b: int) -> nat {
    if a > b {
        (a - b) as nat
    } else {
        0
    }
}

/// The canonical codes of all symbols, as `from_lengths` makes them.
pub open spec fn canonical_codes(lens: Seq<u8>) -> Seq<u32> {
    Seq::new(lens.len(), |sym: int| low32(canonical_code(lens, sym)))
}

/// `x` modulo 2^32: what `u32` arithmetic that wraps keeps of it.
pub open spec fn low32(x: int) -> u32 {
    (x % 0x1_0000_0000) as u32
}

proof fn lemma_low32_add(a: int, b: int)
    ensures
        low32(a).wrapping_add(low32(b)) == low32(a + b),
{
    let m: int = 0x1_0000_0000;
    vstd::arithmetic::div_mod::lemma_add_mod_noop(a, b, m);
    let s = (a % m) + (b % m);
    if s >= m {
        vstd::arithmetic::div_mod::lemma_mod_add_multiples_vanish(s - m, m);
        vstd::arithmetic::div_mod::lemma_small_mod((s - m) as nat, m as nat);
    } else {
        vstd::arithmetic::div_mod::lemma_small_mod(s as nat, m as nat);
    }
}

proof fn lemma_low32_double(a: int)
    ensures
        low32(a) << 1u32 == low32(2 * a),
{
    let m: int = 0x1_0000_0000;
    let x = low32(a);
    assert(x << 1u32 == ((2 * x) % 0x1_0000_0000) as u32) by (bit_vector);
    vstd::arithmetic::div_mod::lemma_mul_mod_noop_right(2, a, m);
}

/// `target` with the `n` entries from `idx` on set to `v`.
pub open spec fn fill_run(target: Seq<u8>, idx: int, n: int, v: u8) -> Seq<u8> {
    Seq::new(target.len(), |j: int| if idx <= j < idx + n { v } else { target[j] })
}

/// The twenty 4-bit code lengths of the pretree at stream position `p`.
pub open spec fn pretree_lens(data: Seq<u8>, start: int, p: int) -> Seq<u8> {
    Seq::new(20, |i: int| stream_value(data, start, p + 4 * i, 4) as u8)
}

/// One pretree-coded item of a length table at entry `idx` of `target`,
/// read at stream position `p` with the pretree `(pl, pc)`: symbols 0 to 16
/// lower the length at the entry by the symbol, modulo 17; 17 writes 4 to 19
/// zeros (4 more bits); 18 writes 20 to 51 zeros (5 more bits); 19 writes 4
/// or 5 (1 more bit) copies of one delta-coded length, whose pretree symbol
/// follows. The outcome: the new table, the new stream position and the
/// number of entries written; or the error and the stream position where
/// reading stopped, the table being untouched.
pub open spec fn length_step(pl: Seq<u8>, pc: Seq<u32>, data: Seq<u8>, start: int, p: int, target: Seq<u8>, idx: int)
    -> Result<(Seq<u8>, int, int), (EnactError, int)>
{
    match huffman_decode(pl, pc, data, start, p) {
        None => Err((EnactError::CorruptedStream, p + 16)),
        Some((sym, k)) => {
            let q = p + k;
            if 0 <= sym <= 16 {
                Ok((target.update(idx, ((target[idx] + 17 - sym) % 17) as u8), q, 1))
            } else if sym == 17 {
                let n = stream_value(data, start, q, 4) + 4;
                Ok((fill_run(target, idx, n, 0), q + 4, n))
            } else if sym == 18 {
                let n = stream_value(data, start, q, 5) + 20;
                Ok((fill_run(target, idx, n, 0), q + 5, n))
            } else if sym == 19 {
                let n = stream_value(data, start, q, 1) + 4;
                match huffman_decode(pl, pc, data, start, q + 1) {
                    None => Err((EnactError::CorruptedStream, q + 17)),
                    Some((off, k2)) => {
                        let v = (((target[idx] + 17 - off) % 256) % 17) as u8;
                        Ok((fill_run(target, idx, n, v), q + 1 + k2, n))
                    },
                }
            } else {
                Err((EnactError::CorruptedStream, q))
            }
        },
    }
}

/// The length deltas of a table item. A pretree symbol `d` of 0 to 16
/// lowers the entry's length by `d` modulo 17: it becomes
/// `(old + 17 - d) % 17`. A run (symbol 19) writes to each of its 4 or 5
/// entries the value that the single symbol of its delta would write at its
/// first entry; runs of zeros (17, 18) write zeros. Only the item's entries
/// change.
pub proof fn lemma_length_deltas(pl: Seq<u8>, pc: Seq<u32>, data: Seq<u8>, start: int, p: int, target: Seq<u8>, idx: int)
    requires
        0 <= idx < target.len(),
    ensures
        length_step(pl, pc, data, start, p, target, idx) matches Ok((t, q, n)) ==> {
            &&& t.len() == target.len()
            &&& forall|j: int| 0 <= j < target.len() && !(idx <= j < idx + n) ==> #[trigger] t[j] == target[j]
            &&& huffman_decode(pl, pc, data, start, p) matches Some((sym, k)) && {
                &&& 0 <= sym <= 16 ==> n == 1 && t[idx] as int == (target[idx] + 17 - sym) % 17
                &&& (sym == 17 || sym == 18) ==> forall|j: int| idx <= j < idx + n && j < t.len() ==> #[trigger] t[j] == 0
                &&& sym == 19 ==> 4 <= n <= 5
                &&& sym == 19 ==> (huffman_decode(pl, pc, data, start, p + k + 1) matches Some((d, k2)) && (
                    (0 <= d <= 16 && target[idx] <= 16) ==> forall|j: int|
                        idx <= j < idx + n && j < t.len() ==> #[trigger] t[j] as int == (target[idx] + 17 - d) % 17))
            }
        },
{
    lemma_length_step_size(pl, pc, data, start, p, target, idx);
    lemma_decode_range(pl, pc, data, start, p);
    if let Some((sym, k)) = huffman_decode(pl, pc, data, start, p) {
        lemma_decode_range(pl, pc, data, start, p + k + 1);
        let q = p + k;
        lemma_value_bound(data, start, q, 1);
        assert(1u32 << 1u32 == 2) by (bit_vector);
    }
}

/// Decodes the items of entries `cursor..count` of a length table that
/// starts at `base` in `target`, from stream position `p`; the last item
/// may write past `count`. The outcome: the new table and stream position;
/// or the error, the table as the items before left it, and the stream
/// position where reading stopped.
pub open spec fn length_run(
    pl: Seq<u8>,
    pc: Seq<u32>,
    data: Seq<u8>,
    start: int,
    p: int,
    target: Seq<u8>,
    base: int,
    cursor: int,
    count: int,
) -> Result<(Seq<u8>, int), (EnactError, Seq<u8>, int)>
    decreases gap(count, cursor),
{
    if cursor >= count {
        Ok((target, p))
    } else {
        match length_step(pl, pc, data, start, p, target, base + cursor) {
            Err((e, q)) => Err((e, target, q)),
            Ok((t, q, n)) => if n >= 1 {
                length_run(pl, pc, data, start, q, t, base, cursor + n, count)
            } else {
                Err((EnactError::CorruptedStream, t, q))
            },
        }
    }
}

/// The item that `length_step` reads stays inside a table of `len` entries:
/// every entry that it reads or writes exists. Where the stream does not
/// decode, nothing is touched.
pub open spec fn length_step_fits(pl: Seq<u8>, pc: Seq<u32>, data: Seq<u8>, start: int, p: int, len: int, idx: int) -> bool {
    match huffman_decode(pl, pc, data, start, p) {
        None => true,
        Some((sym, k)) => {
            let q = p + k;
            if 0 <= sym <= 16 {
                0 <= idx < len
            } else if sym == 17 {
                0 <= idx && idx + stream_value(data, start, q, 4) + 4 <= len
            } else if sym == 18 {
                0 <= idx && idx + stream_value(data, start, q, 5) + 20 <= len
            } else if sym == 19 {
                match huffman_decode(pl, pc, data, start, q + 1) {
                    None => true,
                    Some(_) => 0 <= idx && idx + stream_value(data, start, q, 1) + 4 <= len,
                }
            } else {
                true
            }
        },
    }
}

/// Every item of `length_run` stays inside `target`.
pub open spec fn length_run_fits(
    pl: Seq<u8>,
    pc: Seq<u32>,
    data: Seq<u8>,
    start: int,
    p: int,
    target: Seq<u8>,
    base: int,
    cursor: int,
    count: int,
) -> bool
    decreases gap(count, cursor),
{
    if cursor >= count {
        true
    } else {
        &&& length_step_fits(pl, pc, data, start, p, target.len() as int, base + cursor)
        &&& match length_step(pl, pc, data, start, p, target, base + cursor) {
            Err(_) => true,
            Ok((t, q, n)) => n >= 1 ==> length_run_fits(pl, pc, data, start, q, t, base, cursor + n, count),
        }
    }
}

/// Every entry that reading the lengths of entries `base..end` of `target`
/// at stream position `p` reads or writes lies in `target`.
pub open spec fn read_lengths_fits(data: Seq<u8>, start: int, p: int, target: Seq<u8>, base: int, end: int) -> bool {
    let pl = pretree_lens(data, start, p);
    length_run_fits(pl, canonical_codes(pl), data, start, p + 80, target, base, 0, end - base)
}

/// An item writes 1 to 51 entries and keeps the table's length.
proof fn lemma_length_step_size(pl: Seq<u8>, pc: Seq<u32>, data: Seq<u8>, start: int, p: int, target: Seq<u8>, idx: int)
    requires
        0 <= idx < target.len(),
    ensures
        length_step(pl, pc, data, start, p, target, idx) matches Ok((t, q, n)) ==> 1 <= n <= 51 && t.len() == target.len(),
{
    if let Some((sym, k)) = huffman_decode(pl, pc, data, start, p) {
        let q = p + k;
        lemma_value_bound(data, start, q, 4);
        lemma_value_bound(data, start, q, 5);
        lemma_value_bound(data, start, q, 1);
        assert(1u32 << 4u32 == 16 && 1u32 << 5u32 == 32 && 1u32 << 1u32 == 2) by (bit_vector);
    }
}

/// A table with room for 50 entries past `base + count` holds every item of
/// the run, whatever the stream.
pub proof fn lemma_length_run_fits(
    pl: Seq<u8>,
    pc: Seq<u32>,
    data: Seq<u8>,
    start: int,
    p: int,
    target: Seq<u8>,
    base: int,
    cursor: int,
    count: int,
)
    requires
        0 <= base,
        0 <= cursor,
        base + count + 50 <= target.len(),
    ensures
        length_run_fits(pl, pc, data, start, p, target, base, cursor, count),
    decreases gap(count, cursor),
{
    if cursor < count {
        lemma_length_step_size(pl, pc, data, start, p, target, base + cursor);
        if let Some((sym, k)) = huffman_decode(pl, pc, data, start, p) {
            let q = p + k;
            lemma_value_bound(data, start, q, 4);
            lemma_value_bound(data, start, q, 5);
            lemma_value_bound(data, start, q, 1);
            assert(1u32 << 4u32 == 16 && 1u32 << 5u32 == 32 && 1u32 << 1u32 == 2) by (bit_vector);
        }
        if let Ok((t, q, n)) = length_step(pl, pc, data, start, p, target, base + cursor) {
            lemma_length_run_fits(pl, pc, data, start, q, t, base, cursor + n, count);
        }
    }
}

/// Reading the lengths of entries `base..end` fits in a table with room for
/// 50 entries past `end`.
pub proof fn lemma_read_lengths_fits(data: Seq<u8>, start: int, p: int, target: Seq<u8>, base: int, end: int)
    requires
        0 <= base <= end,
        end + 50 <= target.len(),
    ensures
        read_lengths_fits(data, start, p, target, base, end),
{
    let pl = pretree_lens(data, start, p);
    lemma_length_run_fits(pl, canonical_codes(pl), data, start, p + 80, target, base, 0, end - base);
}

/// Reading the code lengths of entries `base..end` of `target` at stream
/// position `p`: the twenty 4-bit lengths of a pretree, then the
/// pretree-coded length deltas.
pub open spec fn read_lengths_spec(data: Seq<u8>, start: int, p: int, target: Seq<u8>, base: int, end: int) -> Result<(Seq<u8>, int), (EnactError, Seq<u8>, int)> {
    let pl = pretree_lens(data, start, p);
    length_run(pl, canonical_codes(pl), data, start, p + 80, target, base, 0, end - base)
}

/// A least symbol exists for a code that some symbol has.
pub proof fn lemma_least_sym(lens: Seq<u8>, codes: Seq<u32>, s: int, k: int, v: u32)
    requires
        is_code(lens, codes, s, k, v),
    ensures
        is_code(lens, codes, least_sym(lens, codes, k, v), k, v),
        forall|j: int| 0 <= j < least_sym(lens, codes, k, v) ==> !is_code(lens, codes, j, k, v),
    decreases s,
{
    if exists|j: int| 0 <= j < s && is_code(lens, codes, j, k, v) {
        let j = choose|j: int| 0 <= j < s && is_code(lens, codes, j, k, v);
        lemma_least_sym(lens, codes, j, k, v);
    } else {
        assert(is_code(lens, codes, s, k, v) && forall|j: int| 0 <= j < s ==> !is_code(lens, codes, j, k, v));
    }
}

/// A decoded symbol is one of the tree's symbols, and its code has 1 to 16 bits.
pub proof fn lemma_decode_range(lens: Seq<u8>, codes: Seq<u32>, data: Seq<u8>, start: int, p: int)
    ensures
        huffman_decode(lens, codes, data, start, p) matches Some((sym, k)) ==> 0 <= sym < lens.len() && 1 <= k <= 16
            && is_code(lens, codes, sym, k, stream_value(data, start, p, k as nat)),
{
    reveal(huffman_decode);
    if exists|k: int| code_ends_at(lens, codes, data, start, p, k) {
        let k = choose|k: int| code_ends_at(lens, codes, data, start, p, k);
        let v = stream_value(data, start, p, k as nat);
        let s = choose|sym: int| is_code(lens, codes, sym, k, v);
        lemma_least_sym(lens, codes, s, k, v);
    }
}

proof fn lemma_count_before_step(lens: Seq<u8>, t: int)
    requires
        0 <= t < lens.len(),
    ensures
        count_before(lens, lens[t] as int, t + 1) == count_before(lens, lens[t] as int, t) + 1,
        count_before(lens, lens[t] as int, t) < count_len(lens, lens[t] as int),
{
    lemma_count_before_bounds(lens, lens[t] as int, t + 1, lens.len() as int);
}

/// The first code of a length lies past all the codes of a shorter length,
/// scaled to the longer length.
proof fn lemma_first_code_grows(lens: Seq<u8>, j: int, l: int)
    requires
        1 <= j < l,
    ensures
        first_code(lens, l) >= (first_code(lens, j) + count_len(lens, j)) * vstd::arithmetic::power2::pow2((l - j) as nat),
    decreases l,
{
    vstd::arithmetic::power2::lemma_pow2_unfold((l - j) as nat);
    let n = lens.len() as int;
    lemma_count_before_bounds(lens, l - 1, n, n);
    let a0 = first_code(lens, j) + count_len(lens, j);
    assert(first_code(lens, l) == 2 * (first_code(lens, l - 1) + count_len(lens, l - 1)));
    if l == j + 1 {
        vstd::arithmetic::power2::lemma2_to64();
        assert(vstd::arithmetic::power2::pow2(1) == 2);
        assert(a0 * 2 == 2 * a0);
    } else {
        lemma_first_code_grows(lens, j, l - 1);
        let q = vstd::arithmetic::power2::pow2((l - 1 - j) as nat) as int;
        let a = first_code(lens, j) + count_len(lens, j);
        let f = first_code(lens, l - 1);
        let c = count_len(lens, l - 1);
        assert(2 * (f + c) >= a * (2 * q)) by (nonlinear_arith)
            requires
                f >= a * q,
                c >= 0,
        ;
        assert(vstd::arithmetic::power2::pow2((l - j) as nat) == 2 * q);
        assert(a * (2 * q) == a * vstd::arithmetic::power2::pow2((l - j) as nat));
    }
}

/// Decoding inverts the canonical code: where the stream holds, at `p`, the
/// canonical code of a symbol with a code, decoding at `p` gives that symbol
/// and the length of its code.
pub proof fn lemma_decode_canonical(lens: Seq<u8>, data: Seq<u8>, start: int, p: int, sym: int)
    requires
        forall|i: int| 0 <= i < lens.len() ==> lens[i] <= 16,
        0 <= sym < lens.len(),
        lens[sym] >= 1,
        stream_value(data, start, p, lens[sym] as nat) == canonical_code(lens, sym),
    ensures
        huffman_decode(lens, canonical_codes(lens), data, start, p) == Some((sym, lens[sym] as int)),
{
    reveal(huffman_decode);
    let codes = canonical_codes(lens);
    let l = lens[sym] as int;
    let v = stream_value(data, start, p, l as nat);
    let n = lens.len() as int;
    lemma_code_is_canonical(lens, sym);
    // the symbol's own code matches at length l
    assert(is_code(lens, codes, sym, l, v));
    // no shorter prefix is a code
    assert forall|j: int| 1 <= j < l implies !has_code(lens, codes, j, #[trigger] stream_value(data, start, p, j as nat)) by {
        let w = stream_value(data, start, p, j as nat);
        crate::bit_reader::lemma_value_prefix(data, start, p, j as nat, l as nat);
        vstd::bits::lemma_u32_shr_is_div(v, (l - j) as u32);
        let d = vstd::arithmetic::power2::pow2((l - j) as nat) as int;
        vstd::arithmetic::power2::lemma_pow2_pos((l - j) as nat);
        lemma_first_code_grows(lens, j, l);
        lemma_count_before_bounds(lens, l, sym, n);
        let a = first_code(lens, j) + count_len(lens, j);
        assert(v as int >= a * d);
        assert(w as int >= a) by {
            vstd::arithmetic::div_mod::lemma_div_is_ordered(a * d, v as int, d);
            vstd::arithmetic::mul::lemma_mul_is_commutative(a, d);
            vstd::arithmetic::div_mod::lemma_div_multiples_vanish(a, d);
        }
        lemma_value_bound(data, start, p, j as nat);
        let jj = j as u32;
        assert(1u32 << jj <= 0x8000u32) by (bit_vector)
            requires
                jj < 16,
        ;
        if has_code(lens, codes, j, w) {
            let t = choose|t: int| is_code(lens, codes, t, j, w);
            lemma_count_before_step(lens, t);
            lemma_code_is_canonical(lens, t);
        }
    }
    assert(code_ends_at(lens, codes, data, start, p, l));
    let k = choose|k: int| code_ends_at(lens, codes, data, start, p, k);
    assert(k == l) by {
        if k < l {
            assert(!has_code(lens, codes, k, stream_value(data, start, p, k as nat)));
        } else if k > l {
            assert(has_code(lens, codes, l, stream_value(data, start, p, l as nat)));
        }
    }
    // earlier symbols of the same length have smaller codes
    assert forall|t: int| 0 <= t < sym implies !is_code(lens, codes, t, l, v) by {
        if lens[t] == l {
            lemma_count_before_bounds(lens, l, t + 1, sym);
            lemma_count_before_step(lens, t);
            lemma_code_is_canonical(lens, t);
        }
    }
    let s2 = least_sym(lens, codes, l, v);
    lemma_least_sym(lens, codes, sym, l, v);
    assert(s2 == sym) by {
        if s2 < sym {
        } else if s2 > sym {
        }
    }
}

proof fn lemma_first_code_nonneg(lens: Seq<u8>, l: int)
    ensures
        0 <= first_code(lens, l),
    decreases l,
{
    if l > 1 {
        let n = lens.len() as int;
        lemma_first_code_nonneg(lens, l - 1);
        lemma_count_before_bounds(lens, l - 1, n, n);
    }
}

/// Where a canonical code of a symbol with a code fits in 32 bits, the
/// stored code is that code itself.
proof fn lemma_code_is_canonical(lens: Seq<u8>, t: int)
    requires
        0 <= t < lens.len(),
        lens[t] >= 1,
        canonical_code(lens, t) < 0x1_0000_0000,
    ensures
        0 <= canonical_code(lens, t),
        canonical_codes(lens)[t] as int == canonical_code(lens, t),
{
    lemma_first_code_nonneg(lens, lens[t] as int);
    lemma_count_before_bounds(lens, lens[t] as int, t, t);
    vstd::arithmetic::div_mod::lemma_small_mod(canonical_code(lens, t) as nat, 0x1_0000_0000nat);
}

proof fn lemma_count_before_bounds(lens: Seq<u8>, l: int, k: int, m: int)
    requires
        0 <= k <= m <= lens.len(),
    ensures
        0 <= count_before(lens, l, k) <= k,
        count_before(lens, l, k) <= count_before(lens, l, m),
    decreases m,
{
    if m > k {
        lemma_count_before_bounds(lens, l, k, m - 1);
    } else if k > 0 {
        lemma_count_before_bounds(lens, l, k - 1, k - 1);
    }
}

/// A Huffman tree: the code length of each symbol and its code.
#[derive(Debug)]
pub struct Tree {
    pub lens: Vec<u8>,
    pub codes: Vec<u32>,
}

impl Tree {
    /// The tree of canonical codes for the given code lengths (at most 16
    /// bits each): symbols of one length get consecutive codes in symbol
    /// order, after the codes of all shorter lengths. The arithmetic is that
    /// of `u32` that wraps, so each code is its canonical value modulo 2^32.
    pub fn from_lengths(lens: &[u8]) -> (t: Self)
        requires
            forall|i: int| 0 <= i < lens@.len() ==> lens@[i] <= 16,
        ensures
            t.lens@ == lens@,
            t.codes@ == canonical_codes(lens@),
    {
        let ghost ls = lens@;
        let n = lens.len();
        let mut count: Vec<u32> = vec![0u32; 17];
        let mut i: usize = 0;
        while i < n
            invariant
                ls == lens@,
                n == ls.len(),
                forall|q: int| 0 <= q < ls.len() ==> ls[q] <= 16,
                0 <= i <= n,
                count@.len() == 17,
                count@[0] == 0,
                forall|l: int| 1 <= l <= 16 ==> count@[l] == low32(count_before(ls, l, i as int)),
            decreases n - i,
        {
            let temp = lens[i];
            if temp != 0 {
                proof {
                    lemma_low32_add(count_before(ls, temp as int, i as int), 1);
                }
                let c = count[temp as usize];
                count.set(temp as usize, c.wrapping_add(1));
            }
            i = i + 1;
        }
        let mut next_code: Vec<u32> = vec![0u32; 17];
        let mut code: u32 = 0;
        let mut len: usize = 1;
        while len <= 16
            invariant
                ls == lens@,
                n == ls.len(),
                1 <= len <= 17,
                count@.len() == 17,
                count@[0] == 0,
                forall|l: int| 1 <= l <= 16 ==> count@[l] == low32(count_len(ls, l)),
                next_code@.len() == 17,
                code == if len == 1 { 0 } else { low32(first_code(ls, len - 1)) },
                forall|l: int| 1 <= l < len ==> next_code@[l] == low32(first_code(ls, l)),
            decreases 17 - len,
        {
            proof {
                if len > 1 {
                    lemma_low32_add(first_code(ls, len - 1), count_len(ls, len - 1));
                    lemma_low32_double(first_code(ls, len - 1) + count_len(ls, len - 1));
                } else {
                    assert(0u32 << 1u32 == 0u32) by (bit_vector);
                }
            }
            let sum = code.wrapping_add(count[len - 1]);
            code = sum << 1;
            assert(code == low32(first_code(ls, len as int)));
            next_code.set(len, code);
            len = len + 1;
        }
        let mut codes: Vec<u32> = vec![0u32; n];
        let mut sym: usize = 0;
        while sym < n
            invariant
                ls == lens@,
                n == ls.len(),
                forall|q: int| 0 <= q < ls.len() ==> ls[q] <= 16,
                0 <= sym <= n,
                codes@.len() == n,
                next_code@.len() == 17,
                forall|l: int| 1 <= l <= 16 ==> next_code@[l] == low32(first_code(ls, l) + count_before(ls, l, sym as int)),
                forall|j: int| 0 <= j < sym ==> codes@[j] == low32(canonical_code(ls, j)),
                forall|j: int| sym <= j < n ==> codes@[j] == 0,
            decreases n - sym,
        {
            let len = lens[sym] as usize;
            if len != 0 {
                proof {
                    lemma_low32_add(first_code(ls, len as int) + count_before(ls, len as int, sym as int), 1);
                }
                let c = next_code[len];
                codes.set(sym, c);
                next_code.set(len, c.wrapping_add(1));
            }
            sym = sym + 1;
        }
        assert(codes@ =~= canonical_codes(ls));
        Self { lens: vstd::slice::slice_to_vec(lens), codes }
    }

    fn find_symbol(&self, k: u8, v: u32) -> (r: Option<usize>)
        requires
            self.lens@.len() <= self.codes@.len(),
        ensures
            match r {
                Some(sym) => is_code(self.lens@, self.codes@, sym as int, k as int, v)
                    && forall|j: int| 0 <= j < sym ==> !is_code(self.lens@, self.codes@, j, k as int, v),
                None => !has_code(self.lens@, self.codes@, k as int, v),
            },
    {
        let mut sym: usize = 0;
        while sym < self.lens.len()
            invariant
                self.lens@.len() <= self.codes@.len(),
                0 <= sym <= self.lens@.len(),
                forall|j: int| 0 <= j < sym ==> !is_code(self.lens@, self.codes@, j, k as int, v),
            decreases self.lens@.len() - sym,
        {
            if self.lens[sym] == k && self.codes[sym] == v {
                return Some(sym);
            }
            sym = sym + 1;
        }
        None
    }

    fn fill_entries(target: &mut [u8], idx: usize, n: usize, v: u8)
        requires
            idx + n <= old(target)@.len(),
        ensures
            final(target)@ == fill_run(old(target)@, idx as int, n as int, v),
    {
        let tl = target.len();
        let mut i: usize = 0;
        while i < n
            invariant
                tl == target@.len(),
                idx + n <= target@.len(),
                target@.len() == old(target)@.len(),
                0 <= i <= n,
                forall|j: int| 0 <= j < target@.len() ==> target@[j] == if idx <= j < idx + i {
                    v
                } else {
                    old(target)@[j]
                },
            decreases n - i,
        {
            target[idx + i] = v;
            i = i + 1;
        }
        assert(target@ =~= fill_run(old(target)@, idx as int, n as int, v));
    }

    #[verifier::rlimit(50)]
    fn read_length_item(br: &mut BitReader, pretree: &Tree, target: &mut [u8], idx: usize) -> (r: Result<usize, EnactError>)
        requires
            old(br).wf(),
            pretree.lens@.len() == 20,
            pretree.codes@.len() == 20,
            length_step_fits(pretree.lens@, pretree.codes@, old(br).stream_data(), old(br).stream_start(), old(br).bit_pos(), old(target)@.len() as int, idx as int),
        ensures
            final(br).wf(),
            final(br).stream_data() == old(br).stream_data(),
            final(br).stream_start() == old(br).stream_start(),
            final(target)@.len() == old(target)@.len(),
            (forall|i: int| 0 <= i < old(target)@.len() ==> old(target)@[i] <= 16) ==> (forall|i: int|
                0 <= i < final(target)@.len() ==> final(target)@[i] <= 16),
            r is Ok ==> final(br).bit_pos() >= old(br).bit_pos(),
            r matches Ok(n) ==> idx + n <= old(target)@.len(),
            match length_step(pretree.lens@, pretree.codes@, old(br).stream_data(), old(br).stream_start(), old(br).bit_pos(), old(target)@, idx as int) {
                Ok((t, q, n)) => r == Ok::<usize, EnactError>(n as usize) && 1 <= n <= 51 && final(target)@ == t && final(br).bit_pos() == q,
                Err((e, q)) => r == Err::<usize, EnactError>(e) && final(target)@ == old(target)@ && final(br).bit_pos() == q,
            },
    {
        let ghost data = br.stream_data();
        let ghost s0 = br.stream_start();
        let ghost q0 = br.bit_pos();
        let ghost pl = pretree.lens@;
        let ghost pc = pretree.codes@;
        proof {
            lemma_decode_range(pl, pc, data, s0, q0);
        }
        let sym = pretree.decode(br)?;
        if sym <= 16 {
            let val = (target[idx] as u16 + 17 - sym) % 17;
            target[idx] = val as u8;
            Ok(1)
        } else if sym == 17 {
            let ghost q = br.bit_pos();
            let n = br.bits(4)?;
            proof {
                lemma_value_bound(data, s0, q, 4);
                assert(1u32 << 4u32 == 16) by (bit_vector);
            }
            let n = n + 4;
            Self::fill_entries(target, idx, n as usize, 0);
            Ok(n as usize)
        } else if sym == 18 {
            let ghost q = br.bit_pos();
            let n = br.bits(5)?;
            proof {
                lemma_value_bound(data, s0, q, 5);
                assert(1u32 << 5u32 == 32) by (bit_vector);
            }
            let n = n + 20;
            Self::fill_entries(target, idx, n as usize, 0);
            Ok(n as usize)
        } else if sym == 19 {
            let ghost q = br.bit_pos();
            let n = br.bits(1)?;
            proof {
                lemma_value_bound(data, s0, q, 1);
                assert(1u32 << 1u32 == 2) by (bit_vector);
                lemma_decode_range(pl, pc, data, s0, q + 1);
            }
            let n = n + 4;
            let off = pretree.decode(br)? as u8;
            let t = target[idx];
            let len = t.wrapping_add(17).wrapping_sub(off) % 17;
            proof {
                let a = vstd::wrapping::u8_specs::wrapping_add(t, 17);
                let b = vstd::wrapping::u8_specs::wrapping_sub(a, off);
                assert(b as int == (t + 17 - off) % 256);
            }
            Self::fill_entries(target, idx, n as usize, len);
            Ok(n as usize)
        } else {
            assert(false);
            Err(EnactError::CorruptedStream)
        }
    }

    /// Reads the code lengths of entries `start..end` of `target` from the
    /// stream: a pretree of twenty 4-bit lengths, then the pretree-coded
    /// deltas against the lengths already in `target`. A run may write up to
    /// 50 entries past `end`; every entry that the stream makes it touch
    /// must exist (`lemma_read_lengths_fits` shows this of a table with room
    /// for 50 entries past `end`). On an error, the entries written before it
    /// stay written.
    pub fn read_lengths(br: &mut BitReader, target: &mut [u8], start: usize, end: usize) -> (r: Result<(), EnactError>)
        requires
            old(br).wf(),
            start <= end,
            read_lengths_fits(old(br).stream_data(), old(br).stream_start(), old(br).bit_pos(), old(target)@, start as int, end as int),
        ensures
            final(br).wf(),
            final(br).stream_data() == old(br).stream_data(),
            final(br).stream_start() == old(br).stream_start(),
            final(target)@.len() == old(target)@.len(),
            (forall|i: int| 0 <= i < old(target)@.len() ==> old(target)@[i] <= 16) ==> (forall|i: int|
                0 <= i < final(target)@.len() ==> final(target)@[i] <= 16),
            r is Ok ==> final(br).bit_pos() >= old(br).bit_pos(),
            match read_lengths_spec(old(br).stream_data(), old(br).stream_start(), old(br).bit_pos(), old(target)@, start as int, end as int) {
                Ok((t, q)) => r is Ok && final(target)@ == t && final(br).bit_pos() == q,
                Err((e, t, q)) => r == Err::<(), EnactError>(e) && final(target)@ == t && final(br).bit_pos() == q,
            },
    {
        let ghost data = br.stream_data();
        let ghost s0 = br.stream_start();
        let ghost p0 = br.bit_pos();
        let ghost t0 = target@;
        let mut lens: Vec<u8> = vec![0u8; 20];
        let mut i: usize = 0;
        while i < 20
            invariant
                br.wf(),
                br.stream_data() == data,
                br.stream_start() == s0,
                0 <= i <= 20,
                lens@.len() == 20,
                br.bit_pos() == p0 + 4 * i,
                target@ == t0,
                forall|j: int| 0 <= j < 20 ==> lens@[j] <= 16,
                forall|j: int| 0 <= j < i ==> lens@[j] == stream_value(data, s0, p0 + 4 * j, 4) as u8,
            decreases 20 - i,
        {
            let v = br.bits(4)?;
            proof {
                lemma_value_bound(data, s0, p0 + 4 * i, 4);
                assert(1u32 << 4u32 == 16) by (bit_vector);
            }
            lens.set(i, v as u8);
            i = i + 1;
        }
        assert(lens@ =~= pretree_lens(data, s0, p0));
        let pretree = Tree::from_lengths(lens.as_slice());
        let ghost pl = lens@;
        let ghost pc = pretree.codes@;
        assert(pc =~= canonical_codes(pl));
        let count = end - start;
        let tl = target.len();
        let mut cursor: usize = 0;
        while cursor < count
            invariant
                tl == target@.len(),
                br.wf(),
                br.stream_data() == data,
                br.stream_start() == s0,
                data == old(br).stream_data(),
                s0 == old(br).stream_start(),
                p0 == old(br).bit_pos(),
                t0 == old(target)@,
                pretree.lens@ == pl,
                pretree.codes@ == pc,
                pl.len() == 20,
                pc.len() == 20,
                target@.len() == t0.len(),
                start <= end,
                count == end - start,
                br.bit_pos() >= p0,
                length_run_fits(pl, pc, data, s0, br.bit_pos(), target@, start as int, cursor as int, count as int),
                length_run(pl, pc, data, s0, br.bit_pos(), target@, start as int, cursor as int, count as int)
                    == read_lengths_spec(data, s0, p0, t0, start as int, end as int),
                (forall|i: int| 0 <= i < t0.len() ==> t0[i] <= 16) ==> (forall|i: int|
                    0 <= i < target@.len() ==> target@[i] <= 16),
            decreases gap(count as int, cursor as int),
        {
            let n = Self::read_length_item(br, &pretree, target, start + cursor)?;
            cursor = cursor + n;
        }
        Ok(())
    }

    /// Decodes one symbol from the bit stream: reads bits one at a time,
    /// up to 16, until they form the code of a symbol.
    pub fn decode(&self, br: &mut BitReader) -> (r: Result<u16, EnactError>)
        requires
            old(br).wf(),
            self.lens@.len() <= self.codes@.len(),
        ensures
            final(br).wf(),
            final(br).stream_data() == old(br).stream_data(),
            final(br).stream_start() == old(br).stream_start(),
            match huffman_decode(self.lens@, self.codes@, old(br).stream_data(), old(br).stream_start(), old(br).bit_pos()) {
                Some((sym, k)) => r == Ok::<u16, EnactError>(sym as u16) && final(br).bit_pos() == old(br).bit_pos() + k,
                None => r == Err::<u16, EnactError>(EnactError::CorruptedStream) && final(br).bit_pos() == old(br).bit_pos() + 16,
            },
    {
        let ghost data = br.stream_data();
        let ghost start = br.stream_start();
        let ghost p = br.bit_pos();
        let ghost ls = self.lens@;
        proof {
            reveal(huffman_decode);
        }
        let ghost cs = self.codes@;
        let mut accum: u32 = 0;
        let mut bit_count: u8 = 1;
        while bit_count <= 16
            invariant
                br.wf(),
                br.stream_data() == data,
                br.stream_start() == start,
                data == old(br).stream_data(),
                start == old(br).stream_start(),
                p == old(br).bit_pos(),
                ls == self.lens@,
                cs == self.codes@,
                ls.len() <= cs.len(),
                1 <= bit_count <= 17,
                br.bit_pos() == p + bit_count - 1,
                accum == stream_value(data, start, p, (bit_count - 1) as nat),
                forall|j: int| 1 <= j < bit_count ==> !has_code(ls, cs, j, #[trigger] stream_value(data, start, p, j as nat)),
            decreases 17 - bit_count,
        {
            let bit = br.bits(1)?;
            proof {
                let sb = stream_bit(data, start, p + bit_count - 1);
                assert(stream_value(data, start, p + bit_count - 1, 0) == 0);
                assert((0u32 << 1u32) | sb == sb) by (bit_vector);
            }
            accum = (accum << 1) | bit;
            match self.find_symbol(bit_count, accum) {
                Some(sym) => {
                    proof {
                        reveal(huffman_decode);
                        let k = bit_count as int;
                        assert(is_code(ls, cs, sym as int, k, accum));
                        assert(code_ends_at(ls, cs, data, start, p, k));
                        let k2 = choose|k2: int| code_ends_at(ls, cs, data, start, p, k2);
                        assert(k2 == k) by {
                            if k2 < k {
                                assert(!has_code(ls, cs, k2, stream_value(data, start, p, k2 as nat)));
                            } else if k2 > k {
                                assert(has_code(ls, cs, k, stream_value(data, start, p, k as nat)));
                            }
                        }
                        let s2 = least_sym(ls, cs, k, accum);
                        assert(is_code(ls, cs, sym as int, k, accum) && forall|j: int|
                            0 <= j < sym ==> !is_code(ls, cs, j, k, accum));
                        assert(s2 == sym) by {
                            if s2 < sym {
                            } else if s2 > sym {
                            }
                        }
                    }
                    return Ok(#[verifier::truncate] (sym as u16));
                },
                None => {},
            }
            bit_count = bit_count + 1;
        }
        proof {
            reveal(huffman_decode);
            assert(!exists|k: int| code_ends_at(ls, cs, data, start, p, k)) by {
                if exists|k: int| code_ends_at(ls, cs, data, start, p, k) {
                    let k = choose|k: int| code_ends_at(ls, cs, data, start, p, k);
                    assert(!has_code(ls, cs, k, stream_value(data, start, p, k as nat)));
                }
            }
        }
        Err(EnactError::CorruptedStream)
    }
}

} // verus!
