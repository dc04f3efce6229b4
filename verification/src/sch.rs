//! Unchained hash table for join processing.
//!
//! A cache-friendly hash table optimized for equi-join processing. The table
//! is built once from tuples accumulated in [`LocalCollector`]s and is
//! immutable afterwards.
//!
//! Layout: a directory of packed 64-bit entries (high 48 bits: byte offset
//! into tuple storage, low 16 bits: a Bloom bitmap) indexes a single
//! contiguous storage area. Entry `s + 1` holds the end of slot `s`'s range
//! and its Bloom bits; entry `0` is a sentinel with offset `0`, so slot `s`
//! occupies `[directory[s].offset, directory[s + 1].offset)`.
use vstd::arithmetic::power2::lemma2_to64;
use vstd::arithmetic::power2::lemma2_to64_rest;
use vstd::arithmetic::power2::lemma_pow2_strictly_increases;
use vstd::arithmetic::power2::lemma_pow2_unfold;
use vstd::arithmetic::power2::pow2;
use vstd::bits::lemma_u16_shl_is_mul;
use vstd::prelude::*;
use vstd::seq_lib::lemma_multiset_commutative;

verus! {

// ===========================================================================
// Bloom filter
// ===========================================================================
/// Number of set bits in a 16-bit word.
pub open spec fn popcount(x: u16) -> int {
    ((x & 1) as int) + (((x >> 1u16) & 1) as int) + (((x >> 2u16) & 1) as int) + (((x
        >> 3u16) & 1) as int) + (((x >> 4u16) & 1) as int) + (((x >> 5u16) & 1) as int) + (((x
        >> 6u16) & 1) as int) + (((x >> 7u16) & 1) as int) + (((x >> 8u16) & 1) as int) + (((x
        >> 9u16) & 1) as int) + (((x >> 10u16) & 1) as int) + (((x >> 11u16) & 1) as int) + (((x
        >> 12u16) & 1) as int) + (((x >> 13u16) & 1) as int) + (((x >> 14u16) & 1) as int) + (((x
        >> 15u16) & 1) as int)
}

/// Binomial coefficient, by Pascal's rule.
pub open spec fn binom(n: nat, k: nat) -> nat
    decreases n,
{
    if k == 0 {
        1
    } else if n == 0 {
        0
    } else {
        binom((n - 1) as nat, (k - 1) as nat) + binom((n - 1) as nat, k)
    }
}

proof fn lemma_binom_n_1(n: nat)
    ensures
        binom(n, 1) == n,
    decreases n,
{
    reveal_with_fuel(binom, 3);
    if n > 0 {
        lemma_binom_n_1((n - 1) as nat);
    }
}

proof fn lemma_binom_16_4()
    ensures
        binom(16, 4) == 1820,
{
    reveal_with_fuel(binom, 18);
}

/// A 16-bit word with exactly four distinct bits set has popcount 4; the OR
/// of the four powers of two equals their sum.
proof fn lemma_mask_popcount(b0: u16, b1: u16, b2: u16, b3: u16)
    by (bit_vector)
    requires
        b0 < b1,
        b1 < b2,
        b2 < b3,
        b3 < 16,
    ensures
        popcount((1u16 << b3) | (1u16 << b2) | (1u16 << b1) | (1u16 << b0)) == 4,
        (((1u16 << b3) | (1u16 << b2) | (1u16 << b1) | (1u16 << b0)) as int) == ((1u16 << b3)
            as int) + ((1u16 << b2) as int) + ((1u16 << b1) as int) + ((1u16 << b0) as int),
{
}

/// All entries of a tag sequence have popcount 4.
pub open spec fn all_weight_4(s: Seq<u16>) -> bool {
    forall|i: int| 0 <= i < s.len() ==> popcount(s[i]) == 4
}

spec fn strictly_increasing(s: Seq<u16>) -> bool {
    forall|i: int, j: int| 0 <= i < j < s.len() ==> s[i] < s[j]
}

/// Relates `1u16 << b` to `pow2(b)` for a shift amount below 16.
proof fn lemma_shl1_pow2(b: u16)
    requires
        b < 16,
    ensures
        ((1u16 << b) as int) == pow2(b as nat),
        0 < pow2(b as nat) < 0x10000,
{
    vstd::arithmetic::power2::lemma_pow2_pos(b as nat);
    lemma2_to64();
    if (b as nat) < 16 {
        lemma_pow2_strictly_increases(b as nat, 16);
    }
    lemma_u16_shl_is_mul(1, b);
}

/// The table of 2048 sixteen-bit Bloom tags, built once per hash table.
/// The first 1820 entries are the C(16, 4) distinct masks of Hamming weight
/// exactly 4, in increasing order; the remaining 228 repeat the first 228
/// masks as padding, so an 11-bit index always selects a mask without a
/// bounds check.
pub fn bloom_tag_table() -> (t: Vec<u16>)
    ensures
        t@.len() == 2048,
        all_weight_4(t@),
        forall|i: int, j: int| 0 <= i < j < 1820 ==> t@[i] < t@[j],
        forall|i: int, j: int| 0 <= i < j < 1820 ==> t@[i] != t@[j],
        forall|i: int| 1820 <= i < 2048 ==> #[trigger] t@[i] == t@[i - 1820],
{
    let mut t: Vec<u16> = Vec::new();
    let mut b3: u16 = 3;
    proof {
        reveal_with_fuel(binom, 5);
    }
    while b3 < 16
        invariant
            3 <= b3 <= 16,
            t@.len() == binom(b3 as nat, 4),
            strictly_increasing(t@),
            all_weight_4(t@),
            t@.len() > 0 ==> (t@[t@.len() - 1] as int) < pow2(b3 as nat),
        decreases 16 - b3,
    {
        let mut b2: u16 = 2;
        proof {
            reveal_with_fuel(binom, 5);
            lemma_shl1_pow2(b3);
        }
        while b2 < b3
            invariant
                2 <= b2 <= b3 < 16,
                t@.len() == binom(b3 as nat, 4) + binom(b2 as nat, 3),
                strictly_increasing(t@),
                all_weight_4(t@),
                t@.len() > 0 ==> (t@[t@.len() - 1] as int) < pow2(b3 as nat) + pow2(b2 as nat),
            decreases b3 - b2,
        {
            let mut b1: u16 = 1;
            proof {
                reveal_with_fuel(binom, 5);
            }
            while b1 < b2
                invariant
                    1 <= b1 <= b2 < b3 < 16,
                    t@.len() == binom(b3 as nat, 4) + binom(b2 as nat, 3) + binom(b1 as nat, 2),
                    strictly_increasing(t@),
                    all_weight_4(t@),
                    t@.len() > 0 ==> (t@[t@.len() - 1] as int) < pow2(b3 as nat) + pow2(b2 as nat)
                        + pow2(b1 as nat),
                decreases b2 - b1,
            {
                let mut b0: u16 = 0;
                proof {
                    lemma2_to64();
                }
                while b0 < b1
                    invariant
                        0 <= b0 <= b1 < b2 < b3 < 16,
                        t@.len() == binom(b3 as nat, 4) + binom(b2 as nat, 3) + binom(
                            b1 as nat,
                            2,
                        ) + b0,
                        strictly_increasing(t@),
                        all_weight_4(t@),
                        t@.len() > 0 ==> (t@[t@.len() - 1] as int) < pow2(b3 as nat) + pow2(
                            b2 as nat,
                        ) + pow2(b1 as nat) + pow2(b0 as nat),
                    decreases b1 - b0,
                {
                    let mask: u16 = (1u16 << b3) | (1u16 << b2) | (1u16 << b1) | (1u16 << b0);
                    proof {
                        lemma_mask_popcount(b0, b1, b2, b3);
                        lemma_shl1_pow2(b3);
                        lemma_shl1_pow2(b2);
                        lemma_shl1_pow2(b1);
                        lemma_shl1_pow2(b0);
                        lemma_pow2_unfold((b0 + 1) as nat);
                        if t@.len() > 0 {
                            assert((t@[t@.len() - 1] as int) < mask as int);
                        }
                    }
                    t.push(mask);
                    b0 = b0 + 1;
                }
                proof {
                    lemma_binom_n_1(b1 as nat);
                    lemma_pow2_unfold((b1 + 1) as nat);
                }
                b1 = b1 + 1;
            }
            proof {
                lemma_pow2_unfold((b2 + 1) as nat);
            }
            b2 = b2 + 1;
        }
        proof {
            lemma_pow2_unfold((b3 + 1) as nat);
        }
        b3 = b3 + 1;
    }
    proof {
        lemma_binom_16_4();
    }
    let ghost head: Seq<u16> = t@;
    while t.len() < 2048
        invariant
            1820 <= t@.len() <= 2048,
            all_weight_4(t@),
            t@.subrange(0, 1820) == head.subrange(0, 1820),
            strictly_increasing(head),
            head.len() == 1820,
            forall|i: int| 1820 <= i < t@.len() ==> #[trigger] t@[i] == t@[i - 1820],
        decreases 2048 - t@.len(),
    {
        let m: u16 = t[t.len() - 1820];
        t.push(m);
    }
    proof {
        assert forall|i: int, j: int| 0 <= i < j < 1820 implies t@[i] < t@[j] by {
            assert(t@[i] == head.subrange(0, 1820)[i]);
            assert(t@[j] == head.subrange(0, 1820)[j]);
        }
    }
    t
}

/// Select the Bloom tag for a hash filter: the top 11 bits of the filter
/// index the 2048-entry tag table.
pub fn bloom_get_tag(tags: &Vec<u16>, hash: u32) -> (r: u16)
    requires
        tags@.len() == 2048,
    ensures
        r == tags@[(hash >> 21u32) as int],
{
    proof {
        assert((hash >> 21u32) < 2048) by (bit_vector);
    }
    tags[(hash >> 21) as usize]
}

/// Approximate membership: every bit of the tag must be set in the entry.
/// `true` means the key may be present; `false` guarantees absence.
pub fn bloom_check_tag(tag: u16, entry: u16) -> (r: bool)
    ensures
        r == ((entry & tag) == tag),
{
    (entry & tag) == tag
}

/// A mask always passes the check against itself, and a mask with at least
/// one bit set never passes the check against an empty bitmap.
pub proof fn lemma_bloom_check_extremes(m: u16)
    ensures
        (m & m) == m,
        popcount(m) > 0 ==> (0u16 & m) != m,
{
    assert((m & m) == m) by (bit_vector);
    assert(popcount(m) > 0 ==> (0u16 & m) != m) by (bit_vector);
}

/// 2^64 divided by the golden ratio; multiplying by it spreads keys over the
/// high bits of the product (Fibonacci hashing).
pub const FIBONACCI: u64 = 11_400_714_819_323_198_485;

/// The hash of a key: the 64-bit wrapping product of the key and the
/// Fibonacci constant.
pub open spec fn fib_hash(key: u32) -> u64 {
    (((key as nat) * (FIBONACCI as nat)) % 0x1_0000_0000_0000_0000) as u64
}

/// A derived pair `(slot, filter)` computed from a 32-bit key. `slot` is the
/// full 64-bit Fibonacci product (high bits select the table slot); `filter`
/// is its low 32 bits (high bits of `filter` select the Bloom tag).
#[derive(Clone, Copy, Debug, PartialEq, Eq, Structural)]
pub struct HashPair {
    pub slot: u64,
    pub filter: u32,
}

impl HashPair {
    /// Hash a key. The filter always equals the low 32 bits of the slot.
    pub fn hash(key: u32) -> (r: Self)
        ensures
            r.slot == fib_hash(key),
            r.filter == fib_hash(key) as u32,
            r.filter == r.slot as u32,
    {
        let v = (key as u64).wrapping_mul(FIBONACCI);
        Self { slot: v, filter: v as u32 }
    }
}


/// Fibonacci hashing is injective on 32-bit keys: the constant is odd, so
/// multiplication by it is invertible modulo 2^64 and distinct keys always
/// hash to distinct 64-bit values.
pub proof fn lemma_fib_hash_injective(k1: u32, k2: u32)
    requires
        k1 != k2,
    ensures
        fib_hash(k1) != fib_hash(k2),
{
    assert((k1 as u64).wrapping_mul(11_400_714_819_323_198_485).wrapping_mul(
        0xf1de_83e1_9937_733d,
    ) == k1 as u64 && (k2 as u64).wrapping_mul(11_400_714_819_323_198_485).wrapping_mul(
        0xf1de_83e1_9937_733d,
    ) == k2 as u64) by (bit_vector);
    assert(fib_hash(k1) == (k1 as u64).wrapping_mul(FIBONACCI));
    assert(fib_hash(k2) == (k2 as u64).wrapping_mul(FIBONACCI));
}

/// A stride is valid when each tuple is at least a key word and a whole
/// number of 8-byte words.
pub open spec fn valid_stride(stride: usize) -> bool {
    stride >= 8 && stride % 8 == 0
}

/// The slot a key selects: the high bits of its hash.
pub open spec fn slot_of(key: u32, shift: u32) -> int {
    (fib_hash(key) >> (shift as u64)) as int
}

/// The collector partition a key selects: an even higher-order prefix of
/// the hash than the slot, so partition membership refines slot membership.
pub open spec fn partition_of(key: u32, psh: u32) -> int {
    if psh >= 64 {
        0
    } else {
        (fib_hash(key) >> (psh as u64)) as int
    }
}

/// The Bloom tag table index for a key: the top 11 bits of the hash filter.
pub open spec fn tag_index_of(key: u32) -> int {
    ((fib_hash(key) as u32) >> 21u32) as int
}

/// Tuple `i` of a word sequence holding back-to-back tuples of `w` words.
pub open spec fn tuple_at(s: Seq<u64>, w: int, i: int) -> Seq<u64> {
    s.subrange(i * w, i * w + w)
}

/// All whole tuples of a word sequence.
pub open spec fn tuples_of(s: Seq<u64>, w: int) -> Seq<Seq<u64>>
    recommends
        w >= 1,
{
    Seq::new((s.len() as int / w) as nat, |i: int| tuple_at(s, w, i))
}

/// The logical tuple formed by a key and its payload words.
pub open spec fn tuple_of(key: u32, payload: Seq<u64>) -> Seq<u64> {
    seq![key as u64] + payload
}

/// The views of a sequence of row vectors.
pub open spec fn row_views(rows: Seq<Vec<u64>>) -> Seq<Seq<u64>> {
    rows.map_values(|row: Vec<u64>| row@)
}

/// Predicate selecting tuples whose stored key word equals `key`.
pub open spec fn key_pred(key: u32) -> spec_fn(Seq<u64>) -> bool {
    |t: Seq<u64>| t[0] == key as u64
}

/// Predicate selecting tuples that land in slot `s` under `shift`.
pub open spec fn slot_pred(shift: u32, s: int) -> spec_fn(Seq<u64>) -> bool {
    |t: Seq<u64>| slot_of(t[0] as u32, shift) == s
}

/// A tuple sequence is well formed when every tuple has exactly `w` words
/// and its key word fits in 32 bits.
pub open spec fn tuples_wf(ts: Seq<Seq<u64>>, w: int) -> bool {
    forall|i: int|
        0 <= i < ts.len() ==> (#[trigger] ts[i]).len() == w && ts[i][0] < 0x1_0000_0000
}

/// Number of tuples of `ts` that land in slot `s`.
pub open spec fn slot_count(ts: Seq<Seq<u64>>, shift: u32, s: int) -> int {
    ts.filter(slot_pred(shift, s)).len() as int
}

/// First tuple index of slot `s`: the total tuple count of all lower slots.
pub open spec fn slot_start(ts: Seq<Seq<u64>>, shift: u32, s: int) -> int
    decreases s,
{
    if s <= 0 {
        0
    } else {
        slot_start(ts, shift, s - 1) + slot_count(ts, shift, s - 1)
    }
}

/// Filtering after pushing one element either appends it or leaves the
/// filtered sequence unchanged.
proof fn lemma_filter_push<A>(s: Seq<A>, pred: spec_fn(A) -> bool, x: A)
    ensures
        s.push(x).filter(pred) == if pred(x) {
            s.filter(pred).push(x)
        } else {
            s.filter(pred)
        },
{
    reveal(Seq::filter);
    assert(s.push(x).drop_last() =~= s);
    assert(s.push(x).last() == x);
}

/// A filtered element is drawn from the sequence it was filtered out of.
proof fn lemma_filter_elements<A>(s: Seq<A>, pred: spec_fn(A) -> bool, i: int)
    requires
        0 <= i < s.filter(pred).len(),
    ensures
        exists|j: int| 0 <= j < s.len() && s[j] == s.filter(pred)[i],
    decreases s.len(),
{
    reveal(Seq::filter);
    if s.len() > 0 {
        let sub = s.drop_last();
        if pred(s.last()) && i == s.filter(pred).len() - 1 {
            assert(s[s.len() - 1] == s.filter(pred)[i]);
        } else {
            lemma_filter_elements(sub, pred, i);
            let j = choose|j: int| 0 <= j < sub.len() && sub[j] == sub.filter(pred)[i];
            assert(s[j] == s.filter(pred)[i]);
        }
    }
}

/// Filtering by a weaker predicate first does not change the final filter.
proof fn lemma_filter_filter<A>(s: Seq<A>, p: spec_fn(A) -> bool, q: spec_fn(A) -> bool)
    requires
        forall|i: int| 0 <= i < s.len() && q(#[trigger] s[i]) ==> p(s[i]),
    ensures
        s.filter(p).filter(q) == s.filter(q),
    decreases s.len(),
{
    reveal(Seq::filter);
    if s.len() > 0 {
        let sub = s.drop_last();
        lemma_filter_filter(sub, p, q);
        if p(s.last()) {
            lemma_filter_push(sub.filter(p), q, s.last());
        }
    }
}

/// Concatenating whole tuples concatenates their parses.
proof fn lemma_tuples_of_concat(a: Seq<u64>, b: Seq<u64>, w: int)
    requires
        w >= 1,
        a.len() % (w as nat) == 0,
        b.len() % (w as nat) == 0,
    ensures
        tuples_of(a + b, w) == tuples_of(a, w) + tuples_of(b, w),
{
    let na = a.len() as int / w;
    let nb = b.len() as int / w;
    assert((a + b).len() as int / w == na + nb) by (nonlinear_arith)
        requires
            w >= 1,
            a.len() % (w as nat) == 0,
            b.len() % (w as nat) == 0,
            na == a.len() as int / w,
            nb == b.len() as int / w,
            (a + b).len() == a.len() + b.len(),
    ;
    assert(na * w == a.len()) by (nonlinear_arith)
        requires
            w >= 1,
            a.len() % (w as nat) == 0,
            na == a.len() as int / w,
    ;
    assert(nb * w == b.len()) by (nonlinear_arith)
        requires
            w >= 1,
            b.len() % (w as nat) == 0,
            nb == b.len() as int / w,
    ;
    assert forall|i: int| 0 <= i < na + nb implies tuple_at(a + b, w, i) == (tuples_of(a, w)
        + tuples_of(b, w))[i] by {
        if i < na {
            assert(i * w + w <= na * w) by (nonlinear_arith)
                requires
                    i < na,
                    w >= 1,
            ;
            assert(tuple_at(a + b, w, i) =~= tuple_at(a, w, i));
        } else {
            let k = i - na;
            assert(k * w == i * w - na * w) by (nonlinear_arith)
                requires
                    k == i - na,
            ;
            assert(k * w + w <= nb * w) by (nonlinear_arith)
                requires
                    k < nb,
                    w >= 1,
            ;
            assert(tuple_at(a + b, w, i) =~= tuple_at(b, w, k));
        }
    }
    assert(tuples_of(a + b, w) =~= tuples_of(a, w) + tuples_of(b, w));
}

/// A shifted 64-bit value is bounded by the power of two of the remaining
/// width.
proof fn lemma_slot_bound(x: u64, sh: u32)
    requires
        16 <= sh <= 63,
    ensures
        0 <= (x >> (sh as u64)) < pow2((64 - sh) as nat),
{
    assert((x >> (sh as u64)) < (1u64 << ((64 - sh) as u64))) by (bit_vector)
        requires
            16 <= sh <= 63,
    ;
    lemma2_to64();
    lemma2_to64_rest();
    vstd::arithmetic::power2::lemma_pow2_adds((64 - sh) as nat, sh as nat);
    vstd::arithmetic::power2::lemma_pow2_pos(sh as nat);
    assert(pow2((64 - sh) as nat) * pow2(sh as nat) == pow2(64)) by {
    }
    assert(pow2((64 - sh) as nat) <= 0xffff_ffff_ffff_ffff) by (nonlinear_arith)
        requires
            pow2((64 - sh) as nat) * pow2(sh as nat) == pow2(64),
            pow2(64) == 0x10000000000000000,
            pow2(sh as nat) >= 2,
            pow2((64 - sh) as nat) >= 1,
    ;
    vstd::bits::lemma_u64_shl_is_mul(1u64, (64 - sh) as u64);
}

/// The Bloom tag index of any key is within the 2048-entry table.
pub proof fn lemma_tag_index_bound(key: u32)
    ensures
        0 <= tag_index_of(key) < 2048,
{
    let f = fib_hash(key) as u32;
    assert((f >> 21u32) < 2048) by (bit_vector);
}

/// ORing more bits into a Bloom bitmap preserves every tag already present,
/// and the tag just ORed in is present.
proof fn lemma_bloom_or(b: u16, t0: u16, tg: u16)
    ensures
        (b & tg) == tg ==> ((b | t0) & tg) == tg,
        ((b | t0) & t0) == t0,
{
    assert((b & tg) == tg ==> ((b | t0) & tg) == tg) by (bit_vector);
    assert(((b | t0) & t0) == t0) by (bit_vector);
}

/// Appending a tuple raises by one the count of its own slot and leaves
/// every other slot count unchanged; slot starts move the same way.
proof fn lemma_slot_count_push(ts: Seq<Seq<u64>>, shift: u32, x: Seq<u64>, s: int)
    ensures
        slot_count(ts.push(x), shift, s) == slot_count(ts, shift, s) + if slot_of(
            x[0] as u32,
            shift,
        ) == s {
            1int
        } else {
            0int
        },
{
    lemma_filter_push(ts, slot_pred(shift, s), x);
}

/// A slot start never exceeds the tuple count, and appending a tuple moves
/// the start of slot `s` only when the tuple lands below `s`.
proof fn lemma_slot_start_push(ts: Seq<Seq<u64>>, shift: u32, x: Seq<u64>, s: int)
    ensures
        slot_start(ts.push(x), shift, s) == slot_start(ts, shift, s) + if 0 <= slot_of(
            x[0] as u32,
            shift,
        ) < s {
            1int
        } else {
            0int
        },
    decreases s,
{
    if s > 0 {
        lemma_slot_start_push(ts, shift, x, s - 1);
        lemma_slot_count_push(ts, shift, x, s - 1);
    }
}

/// Slot starts are monotone in the slot index.
proof fn lemma_slot_start_mono(ts: Seq<Seq<u64>>, shift: u32, s1: int, s2: int)
    requires
        s1 <= s2,
    ensures
        slot_start(ts, shift, s1) <= slot_start(ts, shift, s2),
    decreases s2 - s1,
{
    if s1 < s2 {
        lemma_slot_start_mono(ts, shift, s1, s2 - 1);
        Seq::lemma_filter_len(ts, slot_pred(shift, s2 - 1));
    }
}

/// Slot starts are never negative and never exceed the tuple count.
proof fn lemma_slot_start_bounds(ts: Seq<Seq<u64>>, shift: u32, s: int)
    ensures
        0 <= slot_start(ts, shift, s) <= ts.len(),
    decreases ts.len(),
{
    if ts.len() == 0 {
        assert(ts =~= Seq::<Seq<u64>>::empty());
        lemma_slot_start_empty(shift, s);
    } else {
        let sub = ts.drop_last();
        lemma_slot_start_bounds(sub, shift, s);
        assert(sub.push(ts.last()) =~= ts);
        lemma_slot_start_push(sub, shift, ts.last(), s);
        assert(slot_start(ts, shift, s) == slot_start(sub.push(ts.last()), shift, s));
    }
}

/// Every slot start of the empty tuple sequence is zero.
proof fn lemma_slot_start_empty(shift: u32, s: int)
    ensures
        slot_start(Seq::<Seq<u64>>::empty(), shift, s) == 0,
    decreases s,
{
    if s > 0 {
        lemma_slot_start_empty(shift, s - 1);
        reveal(Seq::filter);
    }
}

/// When every tuple lands in a slot below `n`, the slot ranges tile the
/// whole sequence: the start of slot `n` is the total tuple count.
proof fn lemma_slot_start_total(ts: Seq<Seq<u64>>, shift: u32, n: int)
    requires
        forall|i: int|
            0 <= i < ts.len() ==> 0 <= slot_of((#[trigger] ts[i])[0] as u32, shift) < n,
    ensures
        slot_start(ts, shift, n) == ts.len(),
    decreases ts.len(),
{
    if ts.len() == 0 {
        assert(ts =~= Seq::<Seq<u64>>::empty());
        lemma_slot_start_empty(shift, n);
    } else {
        let sub = ts.drop_last();
        assert forall|i: int| 0 <= i < sub.len() implies 0 <= slot_of(
            (#[trigger] sub[i])[0] as u32,
            shift,
        ) < n by {
            assert(sub[i] == ts[i]);
        }
        lemma_slot_start_total(sub, shift, n);
        assert(sub.push(ts.last()) =~= ts);
        lemma_slot_start_push(sub, shift, ts.last(), n);
        assert(slot_start(ts, shift, n) == slot_start(sub.push(ts.last()), shift, n));
        assert(0 <= slot_of(ts[ts.len() - 1][0] as u32, shift) < n);
    }
}

/// A single 64-bit directory word: bits `[63:16]` hold a byte offset into the
/// tuple storage, bits `[15:0]` hold a 16-bit Bloom bitmap.
#[derive(Clone, Copy, Debug, PartialEq, Eq, Structural)]
pub struct DirectoryEntry(u64);

impl DirectoryEntry {
    /// The byte offset stored in the high 48 bits.
    pub closed spec fn spec_offset(self) -> u64 {
        self.0 >> 16
    }

    /// The Bloom bitmap stored in the low 16 bits.
    pub closed spec fn spec_bloom(self) -> u16 {
        self.0 as u16
    }

    /// Pack an offset and a Bloom bitmap into one word.
    pub fn new(offset: u64, bloom: u16) -> (r: Self)
        requires
            offset < 0x1_0000_0000_0000,
        ensures
            r.spec_offset() == offset,
            r.spec_bloom() == bloom,
    {
        let w: u64 = (offset << 16) | (bloom as u64);
        proof {
            assert(offset < 0x1_0000_0000_0000 ==> ((offset << 16) | (bloom as u64)) >> 16
                == offset) by (bit_vector);
            assert((((offset << 16) | (bloom as u64)) as u16) == bloom) by (bit_vector);
        }
        Self(w)
    }

    /// Read back the byte offset.
    #[verifier::when_used_as_spec(spec_offset)]
    pub fn offset(self) -> (r: u64)
        ensures
            r == self.spec_offset(),
    {
        self.0 >> 16
    }

    /// Read back the Bloom bitmap.
    #[verifier::when_used_as_spec(spec_bloom)]
    pub fn bloom(self) -> (r: u16)
        ensures
            r == self.spec_bloom(),
    {
        self.0 as u16
    }

    /// OR a Bloom tag into the bitmap; the offset is untouched.
    pub fn with_tag(self, tag: u16) -> (r: Self)
        ensures
            r.spec_offset() == self.spec_offset(),
            r.spec_bloom() == (self.spec_bloom() | tag),
    {
        let w: u64 = self.0;
        proof {
            assert((w | (tag as u64)) >> 16 == w >> 16) by (bit_vector);
            assert(((w | (tag as u64)) as u16) == ((w as u16) | tag)) by (bit_vector);
        }
        Self(w | (tag as u64))
    }

    /// Advance the byte offset; the Bloom bitmap is untouched.
    pub fn add_offset(self, byte_delta: u64) -> (r: Self)
        requires
            self.spec_offset() + byte_delta < 0x1_0000_0000_0000,
        ensures
            r.spec_offset() == self.spec_offset() + byte_delta,
            r.spec_bloom() == self.spec_bloom(),
    {
        let w: u64 = self.0;
        proof {
            assert((w >> 16) + byte_delta < 0x1_0000_0000_0000 ==> {
                &&& w + (byte_delta << 16) < 0x1_0000_0000_0000_0000
                &&& ((w + (byte_delta << 16)) as u64) >> 16 == (w >> 16) + byte_delta
                &&& (((w + (byte_delta << 16)) as u64) as u16) == (w as u16)
            }) by (bit_vector);
        }
        Self(w.wrapping_add(byte_delta << 16))
    }
}

/// Compute the directory size (a power-of-two slot count) and the shift
/// that selects a slot from a hash. The table is sized to at least 1.125x
/// the tuple count (about a 65% load factor), with a minimum of 16 slots.
pub fn compute_table_params(num_tuples: usize) -> (r: (usize, u32))
    requires
        num_tuples <= 0x1000_0000_0000,
        (num_tuples as int) + ((num_tuples as int) + 7) / 8 <= usize::MAX as int / 2,
    ensures
        (r.0 as int) == pow2((64 - r.1) as nat),
        19 <= r.1 <= 60,
        r.0 >= 16,
        8 * (r.0 as int) >= 9 * (num_tuples as int),
        r.0 == 16 || (r.0 as int) < 2 * ((num_tuples as int) + ((num_tuples as int) + 7) / 8),
        num_tuples == 0 ==> r.0 == 16 && r.1 == 60,
{
    let target: usize = num_tuples + (num_tuples + 7) / 8;
    let mut size: usize = 16;
    let mut shift: u32 = 60;
    proof {
        lemma2_to64();
        vstd::arithmetic::div_mod::lemma_fundamental_div_mod((num_tuples as int) + 7, 8);
        vstd::arithmetic::div_mod::lemma_mod_bound((num_tuples as int) + 7, 8);
        assert(8 * (target as int) >= 9 * (num_tuples as int));
    }
    while size < target
        invariant
            (size as int) == pow2((64 - shift) as nat),
            19 <= shift <= 60,
            size >= 16,
            size == 16 || (size as int) < 2 * (target as int),
            size == 16 ==> shift == 60,
            target == num_tuples + (num_tuples + 7) / 8,
            target <= 0x2000_0000_0000,
            target <= usize::MAX / 2,
        decreases shift,
    {
        proof {
            lemma2_to64();
            lemma2_to64_rest();
            if shift == 19 {
                assert(size == pow2(45));
                assert(false);
            }
            lemma_pow2_unfold((64 - (shift - 1)) as nat);
        }
        size = size * 2;
        shift = shift - 1;
    }
    proof {
        assert(8 * (size as int) >= 8 * (target as int)) by (nonlinear_arith)
            requires
                size >= target,
        ;
    }
    (size, shift)
}

/// The unchained hash table: an immutable directory plus tuple storage,
/// probed by key. Tuples are stored back to back as 8-byte words, the first
/// word of each tuple holding the key.
pub struct UnchainedHashTable {
    directory: Vec<DirectoryEntry>,
    tuple_storage: Vec<u64>,
    shift: u32,
    tuple_stride: usize,
    bloom_tags: Vec<u16>,
}

impl UnchainedHashTable {
    /// Number of slots (the directory holds one more sentinel entry).
    pub closed spec fn table_size(self) -> int {
        self.directory@.len() - 1
    }

    /// The tuple stride in bytes.
    pub closed spec fn spec_stride(self) -> usize {
        self.tuple_stride
    }

    /// Words per tuple.
    pub open spec fn w(self) -> int {
        self.spec_stride() as int / 8
    }

    /// The slot-selection shift.
    pub closed spec fn spec_shift(self) -> u32 {
        self.shift
    }

    /// The Bloom tag table carried by this table.
    pub closed spec fn spec_tags(self) -> Seq<u16> {
        self.bloom_tags@
    }

    /// The slot a key selects in this table.
    pub closed spec fn key_slot(self, key: u32) -> int {
        slot_of(key, self.shift)
    }

    /// All stored tuples, in storage order.
    pub closed spec fn stored_tuples(self) -> Seq<Seq<u64>> {
        tuples_of(self.tuple_storage@, self.w())
    }

    /// First tuple index of slot `s`'s range.
    pub closed spec fn slot_lo(self, s: int) -> int {
        self.directory@[s].spec_offset() as int / self.tuple_stride as int
    }

    /// One-past-the-last tuple index of slot `s`'s range.
    pub closed spec fn slot_hi(self, s: int) -> int {
        self.directory@[s + 1].spec_offset() as int / self.tuple_stride as int
    }

    /// The tuples stored in slot `s`, in storage order.
    pub closed spec fn slot_tuples(self, s: int) -> Seq<Seq<u64>> {
        self.stored_tuples().subrange(self.slot_lo(s), self.slot_hi(s))
    }

    /// What a probe for `key` yields: the tuples of `key`'s slot whose
    /// stored key word equals the key, in storage order.
    pub closed spec fn probe_spec(self, key: u32) -> Seq<Seq<u64>> {
        self.slot_tuples(self.key_slot(key)).filter(key_pred(key))
    }

    /// Whether the Bloom filter passes `key`: every bit of the key's tag is
    /// set in the bitmap of the key's slot.
    pub closed spec fn bloom_pass(self, key: u32) -> bool {
        let tag = self.bloom_tags@[tag_index_of(key)];
        (self.directory@[self.key_slot(key) + 1].spec_bloom() & tag) == tag
    }

    /// Number of stored tuples.
    pub closed spec fn spec_num_tuples(self) -> int {
        self.stored_tuples().len() as int
    }

    /// A stored tuple of slot `s` at tuple index `i`: its key fits 32 bits,
    /// hashes to slot `s`, and its Bloom tag is set in the slot's bitmap.
    spec fn tuple_ok(self, s: int, i: int) -> bool {
        let t = tuple_at(self.tuple_storage@, self.w(), i);
        &&& t[0] < 0x1_0000_0000
        &&& slot_of(t[0] as u32, self.shift) == s
        &&& {
            let tag = self.bloom_tags@[tag_index_of(t[0] as u32)];
            (self.directory@[s + 1].spec_bloom() & tag) == tag
        }
    }

    /// Structural well-formedness: a power-of-two directory with monotone,
    /// stride-aligned offsets that tile the storage, a full tag table, and
    /// every stored tuple keyed, slotted and Bloom-covered correctly.
    pub closed spec fn wf(self) -> bool {
        &&& valid_stride(self.tuple_stride)
        &&& 16 <= self.shift <= 60
        &&& self.directory@.len() == pow2((64 - self.shift) as nat) + 1
        &&& self.bloom_tags@.len() == 2048
        &&& all_weight_4(self.bloom_tags@)
        &&& self.directory@[0].spec_offset() == 0
        &&& self.directory@[self.table_size()].spec_offset() == 8 * self.tuple_storage@.len()
        &&& self.tuple_storage@.len() % (self.w() as nat) == 0
        &&& forall|i: int, j: int|
            0 <= i <= j <= self.table_size() ==> (#[trigger] self.directory@[i].spec_offset())
                <= (#[trigger] self.directory@[j].spec_offset())
        &&& forall|i: int|
            0 <= i <= self.table_size() ==> (#[trigger] self.directory@[i].spec_offset()) % (
            self.tuple_stride as u64) == 0
        &&& forall|s: int, i: int|
            0 <= s < self.table_size() && self.slot_lo(s) <= i < self.slot_hi(s)
                ==> #[trigger] self.tuple_ok(s, i)
    }

    /// A minimum-size table holding no tuples.
    pub fn empty(tuple_stride: usize) -> (r: Self)
        requires
            valid_stride(tuple_stride),
        ensures
            r.wf(),
            r.spec_stride() == tuple_stride,
            r.spec_num_tuples() == 0,
            forall|key: u32| (#[trigger] r.probe_spec(key)).len() == 0,
            forall|key: u32| !(#[trigger] r.bloom_pass(key)),
    {
        let (table_size, shift) = compute_table_params(0);
        let n_entries: usize = table_size + 1;
        let mut directory: Vec<DirectoryEntry> = Vec::new();
        let mut i: usize = 0;
        while i < n_entries
            invariant
                directory@.len() == i,
                i <= n_entries,
                forall|j: int|
                    0 <= j < i ==> (#[trigger] directory@[j]).spec_offset() == 0
                        && directory@[j].spec_bloom() == 0,
            decreases n_entries - i,
        {
            directory.push(DirectoryEntry::new(0, 0));
            i = i + 1;
        }
        let r = Self {
            directory,
            tuple_storage: Vec::new(),
            shift,
            tuple_stride,
            bloom_tags: bloom_tag_table(),
        };
        proof {
            assert(r.w() >= 1);
            assert(r.tuple_storage@.len() == 0);
            assert(r.tuple_storage@.len() % (r.w() as nat) == 0) by (nonlinear_arith)
                requires
                    r.tuple_storage@.len() == 0,
                    r.w() >= 1,
            ;
            assert forall|i: int|
                0 <= i <= r.table_size() implies (#[trigger] r.directory@[i].spec_offset()) % (
            r.tuple_stride as u64) == 0 by {
                assert(r.directory@[i].spec_offset() == 0);
            }
            assert forall|key: u32| (#[trigger] r.probe_spec(key)).len() == 0 by {
                lemma_slot_bound(fib_hash(key), shift);
                Seq::lemma_filter_len(
                    r.slot_tuples(r.key_slot(key)),
                    key_pred(key),
                );
                assert(r.stored_tuples().len() == 0);
                assert(r.slot_tuples(r.key_slot(key)).len() == 0);
            }
            assert forall|key: u32| !(#[trigger] r.bloom_pass(key)) by {
                lemma_tag_index_bound(key);
                let tag = r.bloom_tags@[tag_index_of(key)];
                lemma_bloom_check_extremes(tag);
                lemma_slot_bound(fib_hash(key), shift);
                assert(popcount(tag) == 4);
            }
        }
        r
    }

    /// Bloom filter check only: useful as a semi-join reducer pushed into
    /// earlier operators of a query pipeline. `false` guarantees the key was
    /// never inserted; `true` means it may have been.
    pub fn bloom_check(&self, key: u32) -> (r: bool)
        requires
            self.wf(),
        ensures
            r == self.bloom_pass(key),
    {
        let h = HashPair::hash(key);
        proof {
            lemma_slot_bound(h.slot, self.shift);
            lemma_tag_index_bound(key);
        }
        let n = self.directory.len();
        let slot = (h.slot >> (self.shift as u64)) as usize;
        let entry = self.directory[slot + 1];
        let tag = bloom_get_tag(&self.bloom_tags, h.filter);
        bloom_check_tag(tag, entry.bloom())
    }

    /// Probe for a key. The Bloom filter gates a linear scan of the key's
    /// slot range; every stored tuple whose key word matches is returned in
    /// storage order, each as its full `stride / 8` words (key included),
    /// together with the Bloom verdict. A `false` verdict guarantees the
    /// key is absent and skips the scan; a `true` verdict may come with no
    /// rows (a Bloom false positive).
    #[verifier::loop_isolation(false)]
    pub fn probe(&self, key: u32) -> (r: (bool, Vec<Vec<u64>>))
        requires
            self.wf(),
        ensures
            r.0 == self.bloom_pass(key),
            row_views(r.1@) == self.probe_spec(key),
    {
        let ghost ks = self.key_slot(key);
        let h = HashPair::hash(key);
        proof {
            lemma_slot_bound(h.slot, self.shift);
            lemma_tag_index_bound(key);
        }
        let n = self.directory.len();
        let slot = (h.slot >> (self.shift as u64)) as usize;
        let entry = self.directory[slot + 1];
        let tag = bloom_get_tag(&self.bloom_tags, h.filter);
        let total = self.tuple_storage.len();
        let stride = self.tuple_stride;
        let w = stride / 8;
        let start_off = self.directory[slot].offset();
        let end_off = entry.offset();
        proof {
            assert(8 * (w as int) == stride as int) by (nonlinear_arith)
                requires
                    stride >= 8,
                    stride % 8 == 0,
                    w == stride / 8,
            ;
            assert((end_off as int / stride as int) * (stride as int) == end_off as int)
                by (nonlinear_arith)
                requires
                    stride >= 8,
                    end_off as int % (stride as int) == 0,
            ;
            assert((start_off as int / stride as int) * (stride as int) == start_off as int)
                by (nonlinear_arith)
                requires
                    stride >= 8,
                    start_off as int % (stride as int) == 0,
            ;
            assert(end_off <= 8 * total);
            assert((end_off as int / stride as int) * (w as int) <= total as int)
                by (nonlinear_arith)
                requires
                    (end_off as int / stride as int) * (stride as int) == end_off as int,
                    8 * (w as int) == stride as int,
                    end_off as int <= 8 * (total as int),
                    w >= 1,
            ;
            assert(start_off as int / stride as int <= end_off as int / stride as int)
                by (nonlinear_arith)
                requires
                    start_off <= end_off,
                    stride >= 8,
            ;
            assert(self.slot_hi(ks) * self.w() <= total as int);
            assert(self.slot_hi(ks) <= self.stored_tuples().len()) by (nonlinear_arith)
                requires
                    self.slot_hi(ks) * self.w() <= total as int,
                    self.stored_tuples().len() == total as int / self.w(),
                    total as int % self.w() == 0,
                    self.w() >= 1,
                    self.slot_hi(ks) >= 0,
            ;
            assert(0 <= self.slot_lo(ks)) by (nonlinear_arith)
                requires
                    self.directory@[ks].spec_offset() >= 0,
                    self.tuple_stride >= 8,
                    self.slot_lo(ks) == self.directory@[ks].spec_offset() as int
                        / self.tuple_stride as int,
            ;
        }
        if !bloom_check_tag(tag, entry.bloom()) {
            let rows: Vec<Vec<u64>> = Vec::new();
            proof {
                if self.probe_spec(key).len() > 0 {
                    lemma_bloom_no_false_negative(*self, key);
                    assert(false);
                }
                assert(row_views(rows@) =~= self.probe_spec(key));
            }
            return (false, rows);
        }
        let lo = (start_off / (stride as u64)) as usize;
        let hi = (end_off / (stride as u64)) as usize;
        proof {
            assert((hi as int) * (w as int) <= total as int);
            assert(lo as int == self.slot_lo(ks));
            assert(hi as int == self.slot_hi(ks));
        }
        let mut rows: Vec<Vec<u64>> = Vec::new();
        let mut ti: usize = lo;
        while ti < hi
            invariant
                lo <= ti <= hi,
                row_views(rows@) == self.stored_tuples().subrange(lo as int, ti as int).filter(
                    key_pred(key),
                ),
            decreases hi - ti,
        {
            proof {
                assert((ti as int) * (w as int) + (w as int) <= (hi as int) * (w as int))
                    by (nonlinear_arith)
                    requires
                        ti < hi,
                        w >= 1,
                ;
                assert((ti as int) * (w as int) == (ti * w) as int) by (nonlinear_arith)
                    requires
                        (ti as int) * (w as int) + (w as int) <= (hi as int) * (w as int),
                        (hi as int) * (w as int) <= total as int,
                        total <= usize::MAX,
                        ti >= 0,
                        w >= 1,
                ;
            }
            let base = ti * w;
            let tword = self.tuple_storage[base];
            let ghost cur = self.stored_tuples()[ti as int];
            proof {
                assert(cur == tuple_at(self.tuple_storage@, self.w(), ti as int));
                assert(cur[0] == self.tuple_storage@[base as int]);
                assert(self.stored_tuples().subrange(lo as int, ti as int + 1)
                    =~= self.stored_tuples().subrange(lo as int, ti as int).push(cur));
                lemma_filter_push(
                    self.stored_tuples().subrange(lo as int, ti as int),
                    key_pred(key),
                    cur,
                );
            }
            if tword == (key as u64) {
                let mut row: Vec<u64> = Vec::new();
                let mut j: usize = 0;
                while j < w
                    invariant
                        j <= w,
                        row@ == self.tuple_storage@.subrange(base as int, base as int + j as int),
                    decreases w - j,
                {
                    row.push(self.tuple_storage[base + j]);
                    proof {
                        assert(row@ =~= self.tuple_storage@.subrange(
                            base as int,
                            base as int + j as int + 1,
                        ));
                    }
                    j = j + 1;
                }
                proof {
                    assert(row@ =~= cur);
                }
                rows.push(row);
                proof {
                    assert(row_views(rows@) =~= self.stored_tuples().subrange(
                        lo as int,
                        ti as int + 1,
                    ).filter(key_pred(key)));
                }
            } else {
                proof {
                    assert(!(key_pred(key)(cur)));
                    assert(row_views(rows@) == self.stored_tuples().subrange(
                        lo as int,
                        ti as int + 1,
                    ).filter(key_pred(key)));
                }
            }
            ti = ti + 1;
        }
        proof {
            assert(self.slot_tuples(ks) == self.stored_tuples().subrange(lo as int, hi as int));
        }
        (true, rows)
    }

    /// Number of tuples stored in the table.
    pub fn num_tuples(&self) -> (r: usize)
        requires
            self.wf(),
        ensures
            r == self.spec_num_tuples(),
    {
        self.tuple_storage.len() / (self.tuple_stride / 8)
    }
}

/// Options for building an [`UnchainedHashTable`]: the tuple stride in
/// bytes and the collector partition count, given as a power-of-two shift.
pub struct BuildConfig {
    pub num_partitions_shift: u32,
    pub tuple_stride: usize,
}

impl BuildConfig {
    /// A configuration is usable when the stride is valid and the partition
    /// shift is in range.
    pub open spec fn wf(self) -> bool {
        valid_stride(self.tuple_stride) && self.num_partitions_shift <= 16
    }

    /// The default configuration: 128 collector partitions.
    pub fn new(tuple_stride: usize) -> (r: Self)
        requires
            valid_stride(tuple_stride),
        ensures
            r.wf(),
            r.num_partitions_shift == 7,
            r.tuple_stride == tuple_stride,
    {
        Self { num_partitions_shift: 7, tuple_stride }
    }

    /// A configuration with an explicit partition-count shift (0 to 16).
    pub fn with_partitions(tuple_stride: usize, partitions_shift: u32) -> (r: Self)
        requires
            valid_stride(tuple_stride),
            partitions_shift <= 16,
        ensures
            r.wf(),
            r.num_partitions_shift == partitions_shift,
            r.tuple_stride == tuple_stride,
    {
        let mut c = Self::new(tuple_stride);
        c.num_partitions_shift = partitions_shift;
        c
    }

    /// Number of collector partitions.
    fn num_partitions(&self) -> (r: usize)
        requires
            self.wf(),
        ensures
            (r as int) == pow2(self.num_partitions_shift as nat),
            1 <= r <= 0x10000,
    {
        proof {
            lemma2_to64();
            if (self.num_partitions_shift as nat) < 16 {
                lemma_pow2_strictly_increases(self.num_partitions_shift as nat, 16);
            }
            vstd::arithmetic::power2::lemma_pow2_pos(self.num_partitions_shift as nat);
            vstd::bits::lemma_usize_shl_is_mul(1usize, self.num_partitions_shift as usize);
        }
        1usize << (self.num_partitions_shift as usize)
    }

    /// The shift that selects a collector partition from a hash.
    fn partition_shift(&self) -> (r: u32)
        requires
            self.wf(),
        ensures
            r == 64 - self.num_partitions_shift,
    {
        64 - self.num_partitions_shift
    }
}

/// A per-thread collector: tuples are appended to one of `2^k` partition
/// buffers chosen by the high bits of the key's hash, so that every buffer
/// holds only tuples from a contiguous range of the final slot space.
pub struct LocalCollector {
    buffers: Vec<Vec<u64>>,
    tuple_count: usize,
    partition_shift: u32,
    tuple_stride: usize,
}

impl LocalCollector {
    /// The tuple stride in bytes.
    pub closed spec fn spec_stride(self) -> usize {
        self.tuple_stride
    }

    /// Words per tuple.
    pub open spec fn w(self) -> int {
        self.spec_stride() as int / 8
    }

    /// The shift that selects a partition from a hash.
    pub closed spec fn spec_partition_shift(self) -> u32 {
        self.partition_shift
    }

    /// Number of partition buffers.
    pub closed spec fn num_parts(self) -> int {
        self.buffers@.len() as int
    }

    /// The running tuple count.
    pub closed spec fn spec_tuple_count(self) -> int {
        self.tuple_count as int
    }

    /// The partition buffers as word sequences.
    pub closed spec fn bufs(self) -> Seq<Seq<u64>> {
        self.buffers@.map_values(|b: Vec<u64>| b@)
    }

    /// The tuples of partition `p`, in insertion order.
    pub closed spec fn part_tuples(self, p: int) -> Seq<Seq<u64>> {
        tuples_of(self.bufs()[p], self.w())
    }

    /// Total number of tuples in the first `k` partitions.
    pub closed spec fn parts_total(self, k: int) -> int
        decreases k,
    {
        if k <= 0 {
            0
        } else {
            self.parts_total(k - 1) + self.part_tuples(k - 1).len()
        }
    }

    /// A tuple stored in partition `p` carries a 32-bit key that hashes to
    /// that very partition.
    spec fn part_ok(self, p: int, i: int) -> bool {
        let t = self.part_tuples(p)[i];
        &&& t[0] < 0x1_0000_0000
        &&& partition_of(t[0] as u32, self.partition_shift) == p
    }

    /// Well-formedness: a power-of-two buffer array, whole tuples in every
    /// buffer, every tuple filed under its own hash partition, and the
    /// running count equal to the tuples held.
    pub closed spec fn wf(self) -> bool {
        &&& valid_stride(self.tuple_stride)
        &&& 48 <= self.partition_shift <= 64
        &&& self.buffers@.len() == pow2((64 - self.partition_shift) as nat)
        &&& forall|p: int|
            0 <= p < self.num_parts() ==> (#[trigger] self.bufs()[p]).len() % (self.w() as nat)
                == 0
        &&& forall|p: int, i: int|
            0 <= p < self.num_parts() && 0 <= i < self.part_tuples(p).len()
                ==> #[trigger] self.part_ok(p, i)
        &&& self.spec_tuple_count() == self.parts_total(self.num_parts())
    }

    /// A fresh collector with empty buffers.
    pub fn new(config: &BuildConfig) -> (r: Self)
        requires
            config.wf(),
        ensures
            r.wf(),
            r.spec_stride() == config.tuple_stride,
            r.spec_partition_shift() == 64 - config.num_partitions_shift,
            r.num_parts() == pow2(config.num_partitions_shift as nat),
            r.spec_tuple_count() == 0,
            forall|p: int|
                0 <= p < r.num_parts() ==> (#[trigger] r.part_tuples(p)).len() == 0,
    {
        let np = config.num_partitions();
        let mut buffers: Vec<Vec<u64>> = Vec::new();
        while buffers.len() < np
            invariant
                buffers@.len() <= np,
                forall|p: int| 0 <= p < buffers@.len() ==> (#[trigger] buffers@[p])@.len() == 0,
            decreases np - buffers@.len(),
        {
            buffers.push(Vec::new());
        }
        let r = Self {
            buffers,
            tuple_count: 0,
            partition_shift: config.partition_shift(),
            tuple_stride: config.tuple_stride,
        };
        proof {
            assert forall|p: int|
                0 <= p < r.num_parts() implies (#[trigger] r.part_tuples(p)).len() == 0 by {
                assert(r.bufs()[p].len() == 0);
            }
            r.lemma_parts_total_empty(r.num_parts());
        }
        r
    }

    /// All-empty partitions hold zero tuples in total.
    proof fn lemma_parts_total_empty(self, k: int)
        requires
            forall|p: int| 0 <= p < k ==> (#[trigger] self.part_tuples(p)).len() == 0,
        ensures
            self.parts_total(k) == 0,
        decreases k,
    {
        if k > 0 {
            self.lemma_parts_total_empty(k - 1);
        }
    }

    /// Two collectors with pointwise equal partitions up to `k` have equal
    /// totals; used to carry the count across an insertion.
    proof fn lemma_parts_total_update(self, other: Self, k: int, p: int)
        requires
            other.num_parts() == self.num_parts(),
            0 <= p < self.num_parts(),
            other.part_tuples(p).len() == self.part_tuples(p).len() + 1,
            forall|q: int|
                0 <= q < self.num_parts() && q != p ==> (#[trigger] other.part_tuples(q))
                    == self.part_tuples(q),
        ensures
            k <= self.num_parts() ==> other.parts_total(k) == self.parts_total(k) + if p < k {
                1int
            } else {
                0int
            },
        decreases k,
    {
        if k > 0 {
            self.lemma_parts_total_update(other, k - 1, p);
        }
    }

    /// Insert a tuple: the key and its payload words are appended to the
    /// partition buffer selected by the high bits of the key's hash, and the
    /// tuple count advances by one. Every other partition is untouched.
    #[verifier::loop_isolation(false)]
    pub fn insert(&mut self, key: u32, payload: &[u64])
        requires
            old(self).wf(),
            payload@.len() + 1 == old(self).w(),
            old(self).spec_tuple_count() < usize::MAX,
        ensures
            final(self).wf(),
            final(self).spec_stride() == old(self).spec_stride(),
            final(self).spec_partition_shift() == old(self).spec_partition_shift(),
            final(self).num_parts() == old(self).num_parts(),
            final(self).spec_tuple_count() == old(self).spec_tuple_count() + 1,
            final(self).part_tuples(partition_of(key, old(self).spec_partition_shift()))
                == old(self).part_tuples(
                partition_of(key, old(self).spec_partition_shift()),
            ).push(tuple_of(key, payload@)),
            forall|q: int|
                0 <= q < final(self).num_parts() && q != partition_of(
                    key,
                    old(self).spec_partition_shift(),
                ) ==> (#[trigger] final(self).part_tuples(q)) == old(self).part_tuples(q),
    {
        let h = HashPair::hash(key);
        let ghost p = partition_of(key, self.partition_shift);
        let partition: usize = if self.partition_shift >= 64 {
            0
        } else {
            proof {
                lemma_slot_bound(h.slot, self.partition_shift);
                lemma2_to64();
                if ((64 - self.partition_shift) as nat) < 16 {
                    lemma_pow2_strictly_increases((64 - self.partition_shift) as nat, 16);
                }
            }
            (h.slot >> (self.partition_shift as u64)) as usize
        };
        proof {
            vstd::arithmetic::power2::lemma_pow2_pos((64 - self.partition_shift) as nat);
            assert(partition as int == p);
            assert(partition < self.buffers@.len());
        }
        let ghost old_buf = self.buffers@[p]@;
        self.buffers[partition].push(key as u64);
        let mut i: usize = 0;
        while i < payload.len()
            invariant
                i <= payload@.len(),
                self.buffers@.len() == old(self).buffers@.len(),
                self.tuple_count == old(self).tuple_count,
                self.partition_shift == old(self).partition_shift,
                self.tuple_stride == old(self).tuple_stride,
                forall|q: int|
                    0 <= q < self.buffers@.len() && q != p ==> (#[trigger] self.buffers@[q])
                        == old(self).buffers@[q],
                self.buffers@[p]@ == old_buf + seq![key as u64] + payload@.subrange(0, i as int),
            decreases payload@.len() - i,
        {
            self.buffers[partition].push(payload[i]);
            proof {
                assert(self.buffers@[p]@ =~= old_buf + seq![key as u64] + payload@.subrange(
                    0,
                    i as int + 1,
                ));
            }
            i = i + 1;
        }
        self.tuple_count = self.tuple_count + 1;
        proof {
            let tw = seq![key as u64] + payload@;
            assert(payload@.subrange(0, payload@.len() as int) =~= payload@);
            assert(self.buffers@[p]@ =~= old_buf + tw);
            assert(tw.len() == self.w());
            assert(old(self).bufs()[p] == old_buf);
            assert(old_buf.len() % (self.w() as nat) == 0);
            assert(tw.len() % (self.w() as nat) == 0) by (nonlinear_arith)
                requires
                    tw.len() == self.w(),
                    self.w() >= 1,
            ;
            lemma_tuples_of_concat(old_buf, tw, self.w());
            assert(tuples_of(tw, self.w()) =~= seq![tuple_of(key, payload@)]) by {
                assert(tuple_at(tw, self.w(), 0) =~= tw);
                assert(tw =~= tuple_of(key, payload@));
            }
            assert(self.bufs()[p] == self.buffers@[p]@);
            assert forall|q: int|
                0 <= q < self.num_parts() && q != p implies (#[trigger] self.part_tuples(q))
                    == old(self).part_tuples(q) by {
                assert(self.bufs()[q] == old(self).bufs()[q]);
            }
            assert(self.part_tuples(p) =~= old(self).part_tuples(p).push(tuple_of(key, payload@)));
            old(self).lemma_parts_total_update(*self, self.num_parts(), p);
            assert forall|q: int|
                0 <= q < self.num_parts() implies (#[trigger] self.bufs()[q]).len() % (
            self.w() as nat) == 0 by {
                assert(old(self).bufs()[q].len() % (old(self).w() as nat) == 0);
                if q == p {
                    assert(self.bufs()[p] == old_buf + tw);
                    assert(((old_buf.len() + self.w()) as nat) % (self.w() as nat) == 0)
                        by (nonlinear_arith)
                        requires
                            old_buf.len() % (self.w() as nat) == 0,
                            self.w() >= 1,
                    ;
                } else {
                    assert(self.bufs()[q] == old(self).bufs()[q]);
                }
            }
            assert forall|q: int, j: int|
                0 <= q < self.num_parts() && 0 <= j < self.part_tuples(q).len()
                    implies #[trigger] self.part_ok(q, j) by {
                if q == p {
                    if j < old(self).part_tuples(p).len() {
                        assert(old(self).part_ok(p, j));
                        assert(self.part_tuples(p)[j] == old(self).part_tuples(p)[j]);
                    } else {
                        assert(self.part_tuples(p)[j] == tuple_of(key, payload@));
                        assert(tuple_of(key, payload@)[0] == key as u64);
                    }
                } else {
                    assert(old(self).part_ok(q, j));
                }
            }
        }
    }

    /// Number of tuples inserted so far: the tuples held over all
    /// partitions.
    pub fn tuple_count(&self) -> (r: usize)
        requires
            self.wf(),
        ensures
            r == self.spec_tuple_count(),
            r == self.parts_total(self.num_parts()),
    {
        self.tuple_count
    }
}


/// The tuples of partition `op` held by the first `k` collectors, in
/// collector order.
pub open spec fn row_tuples(cs: Seq<LocalCollector>, op: int, k: int) -> Seq<Seq<u64>>
    decreases k,
{
    if k <= 0 {
        Seq::empty()
    } else {
        row_tuples(cs, op, k - 1) + cs[k - 1].part_tuples(op)
    }
}

/// The tuples of the first `m` partitions over all collectors.
pub open spec fn merged_upto(cs: Seq<LocalCollector>, m: int) -> Seq<Seq<u64>>
    decreases m,
{
    if m <= 0 {
        Seq::empty()
    } else {
        merged_upto(cs, m - 1) + row_tuples(cs, m - 1, cs.len() as int)
    }
}

/// All tuples held by a set of collectors, in build order: partition-major,
/// collector-minor, insertion order within a buffer. A built table stores
/// exactly these tuples, and probing it filters them by key.
pub open spec fn merged_tuples(cs: Seq<LocalCollector>, parts: int) -> Seq<Seq<u64>> {
    merged_upto(cs, parts)
}

/// Every whole-tuple parse of an aligned word sequence yields tuples of
/// exactly `w` words.
proof fn lemma_tuples_of_wf(s: Seq<u64>, w: int)
    requires
        w >= 1,
        s.len() % (w as nat) == 0,
    ensures
        forall|i: int|
            0 <= i < tuples_of(s, w).len() ==> (#[trigger] tuples_of(s, w)[i]).len() == w,
{
    let n = s.len() as int / w;
    assert(n * w == s.len()) by (nonlinear_arith)
        requires
            w >= 1,
            s.len() % (w as nat) == 0,
            n == s.len() as int / w,
    ;
    assert forall|i: int| 0 <= i < tuples_of(s, w).len() implies (#[trigger] tuples_of(s, w)[
    i]).len() == w by {
        assert(i * w + w <= n * w) by (nonlinear_arith)
            requires
                i < n,
                w >= 1,
        ;
        assert(i * w >= 0) by (nonlinear_arith)
            requires
                i >= 0,
                w >= 1,
        ;
    }
}

/// The merged tuple sequence is well formed: whole tuples with 32-bit keys.
proof fn lemma_row_wf(cs: Seq<LocalCollector>, op: int, k: int, w: int)
    requires
        0 <= k <= cs.len(),
        0 <= op,
        forall|ci: int|
            0 <= ci < cs.len() ==> (#[trigger] cs[ci]).wf() && cs[ci].w() == w && op < cs[
                ci].num_parts(),
        w >= 1,
    ensures
        tuples_wf(row_tuples(cs, op, k), w),
    decreases k,
{
    if k > 0 {
        lemma_row_wf(cs, op, k - 1, w);
        let c = cs[k - 1];
        lemma_tuples_of_wf(c.bufs()[op], w);
        assert forall|i: int|
            0 <= i < c.part_tuples(op).len() implies (#[trigger] c.part_tuples(op)[i]).len() == w
                && c.part_tuples(op)[i][0] < 0x1_0000_0000 by {
            assert(c.part_ok(op, i));
        }
        let a = row_tuples(cs, op, k - 1);
        let b = c.part_tuples(op);
        assert forall|i: int|
            0 <= i < (a + b).len() implies ((a + b)[i]).len() == w && (a + b)[i][0]
                < 0x1_0000_0000 by {
            if i < a.len() {
                assert((a + b)[i] == a[i]);
            } else {
                assert((a + b)[i] == b[i - a.len()]);
            }
        }
    }
}

/// The merged tuples of well-formed, matching collectors are well formed.
proof fn lemma_merged_wf(cs: Seq<LocalCollector>, m: int, w: int)
    requires
        forall|ci: int| 0 <= ci < cs.len() ==> (#[trigger] cs[ci]).wf() && cs[ci].w() == w,
        forall|ci: int| 0 <= ci < cs.len() ==> (#[trigger] cs[ci]).num_parts() >= m,
        w >= 1,
    ensures
        tuples_wf(merged_upto(cs, m), w),
    decreases m,
{
    if m > 0 {
        lemma_merged_wf(cs, m - 1, w);
        assert forall|ci: int|
            0 <= ci < cs.len() implies (#[trigger] cs[ci]).wf() && cs[ci].w() == w && m - 1 < cs[
            ci].num_parts() by {
            assert(cs[ci].num_parts() >= m);
        }
        lemma_row_wf(cs, m - 1, cs.len() as int, w);
        let a = merged_upto(cs, m - 1);
        let b = row_tuples(cs, m - 1, cs.len() as int);
        assert forall|i: int|
            0 <= i < (a + b).len() implies ((a + b)[i]).len() == w && (a + b)[i][0]
                < 0x1_0000_0000 by {
            if i < a.len() {
                assert((a + b)[i] == a[i]);
            } else {
                assert((a + b)[i] == b[i - a.len()]);
            }
        }
    }
}

/// A filtered prefix is never longer than the filtered whole.
proof fn lemma_filter_prefix_le<A>(s: Seq<A>, pred: spec_fn(A) -> bool, k: int)
    requires
        0 <= k <= s.len(),
    ensures
        s.take(k).filter(pred).len() <= s.filter(pred).len(),
{
    assert(s =~= s.take(k) + s.skip(k));
    Seq::filter_distributes_over_add(s.take(k), s.skip(k), pred);
}

/// A selected element strictly separates the filtered prefix from the
/// filtered whole.
proof fn lemma_filter_take_lt<A>(s: Seq<A>, pred: spec_fn(A) -> bool, k: int)
    requires
        0 <= k < s.len(),
        pred(s[k]),
    ensures
        s.take(k).filter(pred).len() < s.filter(pred).len(),
{
    assert(s.take(k + 1) =~= s.take(k).push(s[k]));
    lemma_filter_push(s.take(k), pred, s[k]);
    lemma_filter_prefix_le(s, pred, k + 1);
}

/// The Bloom tag a tuple contributes to slot `s`: its own tag when it keys
/// into `s`, nothing otherwise.
pub open spec fn tag_contrib(t: Seq<u64>, tags: Seq<u16>, shift: u32, s: int) -> u16 {
    if slot_of(t[0] as u32, shift) == s {
        tags[tag_index_of(t[0] as u32)]
    } else {
        0
    }
}

/// The exact Bloom bitmap of slot `s`: the OR of the tags of every tuple
/// that keys into it.
pub open spec fn slot_bloom(ts: Seq<Seq<u64>>, tags: Seq<u16>, shift: u32, s: int) -> u16
    decreases ts.len(),
{
    if ts.len() == 0 {
        0
    } else {
        slot_bloom(ts.drop_last(), tags, shift, s) | tag_contrib(ts.last(), tags, shift, s)
    }
}

/// ORing nothing changes nothing.
proof fn lemma_or_zero(b: u16)
    by (bit_vector)
    ensures
        (b | 0u16) == b,
{
}

/// The Bloom bitmap of a tuple's own slot entry has the tuple's tag set.
spec fn tag_covered(dir: Seq<DirectoryEntry>, tags: Seq<u16>, t: Seq<u64>, shift: u32) -> bool {
    let k = t[0] as u32;
    let tag = tags[tag_index_of(k)];
    (dir[slot_of(k, shift) + 1].spec_bloom() & tag) == tag
}

/// During the scatter, tuple `jv` of slot `s` already stands at its final
/// place in storage.
spec fn placed(
    storage: Seq<u64>,
    w: int,
    tt: Seq<Seq<u64>>,
    shift: u32,
    ti: int,
    s: int,
    jv: int,
) -> bool {
    tuple_at(storage, w, slot_start(tt, shift, s) + jv) == tt.take(ti).filter(
        slot_pred(shift, s),
    )[jv]
}


/// Products with a positive width preserve strict order with room for one
/// whole tuple.
proof fn lemma_tuple_disjoint(q: int, c: int, w: int)
    by (nonlinear_arith)
    requires
        q < c,
        w >= 1,
        q >= 0,
    ensures
        q * w + w <= c * w,
        q * w >= 0,
{
}

/// Phase 1 of the build: scan every tuple, add one stride to the offset
/// field of its slot's directory entry and OR its Bloom tag into the entry,
/// so each entry ends up holding its slot's byte count and Bloom bitmap.
#[verifier::loop_isolation(false)]
fn build_phase_count(
    directory: &mut Vec<DirectoryEntry>,
    data: &Vec<u64>,
    tags: &Vec<u16>,
    stride: usize,
    shift: u32,
)
    requires
        valid_stride(stride),
        16 <= shift <= 60,
        old(directory)@.len() == pow2((64 - shift) as nat) + 1,
        forall|j: int|
            0 <= j < old(directory)@.len() ==> (#[trigger] old(directory)@[j]).spec_offset() == 0
                && old(directory)@[j].spec_bloom() == 0,
        data@.len() % ((stride as int / 8) as nat) == 0,
        tuples_wf(tuples_of(data@, stride as int / 8), stride as int / 8),
        tuples_of(data@, stride as int / 8).len() * (stride as int) < 0x4000_0000_0000,
        tags@.len() == 2048,
    ensures
        final(directory)@.len() == old(directory)@.len(),
        final(directory)@[0].spec_offset() == 0 && final(directory)@[0].spec_bloom() == 0,
        forall|s: int|
            0 <= s < final(directory)@.len() - 1 ==> (#[trigger] final(directory)@[s
                + 1].spec_offset()) == (stride as int) * slot_count(
                tuples_of(data@, stride as int / 8),
                shift,
                s,
            ),
        forall|jj: int|
            0 <= jj < tuples_of(data@, stride as int / 8).len() ==> #[trigger] tag_covered(
                final(directory)@,
                tags@,
                tuples_of(data@, stride as int / 8)[jj],
                shift,
            ),
        forall|s: int|
            0 <= s < final(directory)@.len() - 1 ==> (#[trigger] final(directory)@[s
                + 1].spec_bloom()) == slot_bloom(
                tuples_of(data@, stride as int / 8),
                tags@,
                shift,
                s,
            ),
        tuples_of(data@, stride as int / 8).len() == 0 ==> final(directory)@ == old(directory)@,
{
    let w = stride / 8;
    let ghost tt = tuples_of(data@, stride as int / 8);
    let ghost nn = directory@.len() - 1;
    let n_tuples = data.len() / w;
    proof {
        assert(tt.len() == n_tuples) by (nonlinear_arith)
            requires
                w == stride / 8,
                stride >= 8,
                tt.len() == data@.len() as int / (stride as int / 8),
                n_tuples == data@.len() as int / w as int,
        ;
        assert((n_tuples as int) * (w as int) == data@.len()) by (nonlinear_arith)
            requires
                w >= 1,
                data@.len() % (w as nat) == 0,
                n_tuples == data@.len() as int / w as int,
        ;
        assert(directory@ == old(directory)@);
        assert forall|s: int| 0 <= s < nn implies (#[trigger] directory@[s + 1].spec_offset())
            == (stride as int) * slot_count(tt.take(0), shift, s) by {
            assert(old(directory)@[s + 1].spec_offset() == 0);
            assert(directory@[s + 1].spec_offset() == 0);
            assert(tt.take(0) =~= Seq::<Seq<u64>>::empty());
            reveal(Seq::filter);
            assert(Seq::<Seq<u64>>::empty().filter(slot_pred(shift, s)).len() == 0);
            assert(slot_count(tt.take(0), shift, s) == 0);
            assert((stride as int) * slot_count(tt.take(0), shift, s) == 0);
        }
        assert forall|s: int| 0 <= s < nn implies (#[trigger] directory@[s + 1].spec_bloom())
            == slot_bloom(tt.take(0), tags@, shift, s) by {
            assert(old(directory)@[s + 1].spec_bloom() == 0);
            assert(tt.take(0) =~= Seq::<Seq<u64>>::empty());
            assert(slot_bloom(tt.take(0), tags@, shift, s) == 0);
        }
    }
    let mut ti: usize = 0;
    while ti < n_tuples
        invariant
            ti <= n_tuples,
            directory@.len() == nn + 1,
            directory@[0].spec_offset() == 0 && directory@[0].spec_bloom() == 0,
            forall|s: int|
                0 <= s < nn ==> (#[trigger] directory@[s + 1].spec_offset()) == (stride as int)
                    * slot_count(tt.take(ti as int), shift, s),
            forall|jj: int|
                0 <= jj < ti ==> #[trigger] tag_covered(directory@, tags@, tt[jj], shift),
            forall|s: int|
                0 <= s < nn ==> (#[trigger] directory@[s + 1].spec_bloom()) == slot_bloom(
                    tt.take(ti as int),
                    tags@,
                    shift,
                    s,
                ),
            n_tuples == 0 ==> directory@ == old(directory)@,
        decreases n_tuples - ti,
    {
        proof {
            lemma_tuple_disjoint(ti as int, n_tuples as int, w as int);
        }
        let base = ti * w;
        let keyw = data[base];
        let ghost t = tt[ti as int];
        proof {
            assert(t == tuple_at(data@, w as int, ti as int));
            assert(t[0] == data@[base as int]);
            assert(t[0] < 0x1_0000_0000);
        }
        let key = keyw as u32;
        let h = HashPair::hash(key);
        let nent = directory.len();
        proof {
            lemma_slot_bound(h.slot, shift);
            lemma_tag_index_bound(key);
        }
        let slot = (h.slot >> (shift as u64)) as usize;
        proof {
            assert(slot as int == slot_of(key, shift));
            assert(slot < nn);
        }
        let tag = bloom_get_tag(tags, h.filter);
        let e = directory[slot + 1];
        proof {
            lemma_filter_prefix_le(tt, slot_pred(shift, slot as int), ti as int);
            Seq::lemma_filter_len(tt, slot_pred(shift, slot as int));
            assert((stride as int) * slot_count(tt.take(ti as int), shift, slot as int) + (
            stride as int) < 0x1_0000_0000_0000) by (nonlinear_arith)
                requires
                    slot_count(tt.take(ti as int), shift, slot as int) < tt.len(),
                    tt.len() * (stride as int) < 0x4000_0000_0000,
                    stride >= 1,
                    slot_count(tt.take(ti as int), shift, slot as int) >= 0,
            ;
        }
        let e2 = e.add_offset(stride as u64).with_tag(tag);
        let ghost dir0 = directory@;
        directory[slot + 1] = e2;
        proof {
            assert(directory@ == dir0.update(slot as int + 1, e2));
            assert(tt.take(ti as int + 1) =~= tt.take(ti as int).push(t));
            assert(slot_of(t[0] as u32, shift) == slot as int);
            assert forall|s: int|
                0 <= s < nn implies (#[trigger] directory@[s + 1].spec_offset()) == (
            stride as int) * slot_count(tt.take(ti as int + 1), shift, s) by {
                lemma_filter_push(tt.take(ti as int), slot_pred(shift, s), t);
                let c = slot_count(tt.take(ti as int), shift, s);
                if s == slot as int {
                    assert(directory@[s + 1] == e2);
                    assert(slot_count(tt.take(ti as int + 1), shift, s) == c + 1);
                    assert((stride as int) * (c + 1) == (stride as int) * c + (stride as int))
                        by (nonlinear_arith);
                } else {
                    assert(directory@[s + 1] == dir0[s + 1]);
                    assert(slot_count(tt.take(ti as int + 1), shift, s) == c);
                }
            }
            assert forall|s: int|
                0 <= s < nn implies (#[trigger] directory@[s + 1].spec_bloom()) == slot_bloom(
                tt.take(ti as int + 1),
                tags@,
                shift,
                s,
            ) by {
                assert(tt.take(ti as int + 1).drop_last() =~= tt.take(ti as int));
                assert(tt.take(ti as int + 1).last() == t);
                if s == slot as int {
                    assert(directory@[s + 1] == e2);
                    assert(tag_contrib(t, tags@, shift, s) == tag);
                } else {
                    assert(directory@[s + 1] == dir0[s + 1]);
                    assert(tag_contrib(t, tags@, shift, s) == 0);
                    lemma_or_zero(slot_bloom(tt.take(ti as int), tags@, shift, s));
                }
            }
            assert forall|jj: int|
                0 <= jj < ti + 1 implies #[trigger] tag_covered(
                directory@,
                tags@,
                tt[jj],
                shift,
            ) by {
                let kj = tt[jj][0] as u32;
                lemma_tag_index_bound(kj);
                let tagj = tags@[tag_index_of(kj)];
                let sj = slot_of(kj, shift);
                lemma_slot_bound(fib_hash(kj), shift);
                lemma_bloom_or(e.spec_bloom(), tag, tagj);
                if jj < ti {
                    assert(tag_covered(dir0, tags@, tt[jj], shift));
                    if sj == slot as int {
                        assert(directory@[sj + 1] == e2);
                        assert(e2.spec_bloom() == (e.spec_bloom() | tag));
                    } else {
                        assert(directory@[sj + 1] == dir0[sj + 1]);
                    }
                } else {
                    assert(tt[jj] == t);
                    assert(kj == key);
                    assert(sj == slot as int);
                    assert(directory@[sj + 1] == e2);
                    assert(tagj == tag);
                }
            }
        }
        ti = ti + 1;
    }
    proof {
        assert(tt.take(tt.len() as int) =~= tt);
    }
}


/// Phase 2 of the build: an exclusive prefix sum over the directory turns
/// per-slot byte counts into range starts, reusing each entry as the write
/// cursor of its slot for the scatter. Bloom bitmaps are preserved.
#[verifier::loop_isolation(false)]
fn build_phase_prefix_sum(
    directory: &mut Vec<DirectoryEntry>,
    data: &Vec<u64>,
    stride: usize,
    shift: u32,
)
    requires
        valid_stride(stride),
        16 <= shift <= 60,
        old(directory)@.len() == pow2((64 - shift) as nat) + 1,
        old(directory)@[0].spec_offset() == 0,
        forall|s: int|
            0 <= s < old(directory)@.len() - 1 ==> (#[trigger] old(directory)@[s
                + 1].spec_offset()) == (stride as int) * slot_count(
                tuples_of(data@, stride as int / 8),
                shift,
                s,
            ),
        data@.len() % ((stride as int / 8) as nat) == 0,
        tuples_of(data@, stride as int / 8).len() * (stride as int) < 0x4000_0000_0000,
    ensures
        final(directory)@.len() == old(directory)@.len(),
        forall|j: int|
            0 <= j < final(directory)@.len() ==> (#[trigger] final(directory)@[j].spec_offset())
                == (stride as int) * slot_start(
                tuples_of(data@, stride as int / 8),
                shift,
                j - 1,
            ),
        forall|j: int|
            0 <= j < final(directory)@.len() ==> (#[trigger] final(directory)@[j].spec_bloom())
                == old(directory)@[j].spec_bloom(),
{
    let ghost tt = tuples_of(data@, stride as int / 8);
    let ghost nn = directory@.len() - 1;
    let nent = directory.len();
    let mut cumulative: u64 = 0;
    let mut i: usize = 1;
    proof {
        assert(directory@ == old(directory)@);
        assert(slot_start(tt, shift, 0) == 0);
        assert(directory@[0].spec_offset() == (stride as int) * slot_start(tt, shift, -1));
        assert forall|j: int|
            1 <= j <= nn implies (#[trigger] directory@[j].spec_offset()) == (stride as int)
                * slot_count(tt, shift, j - 1) by {
            assert(old(directory)@[(j - 1) + 1].spec_offset() == (stride as int) * slot_count(
                tt,
                shift,
                j - 1,
            ));
        }
    }
    while i < nent
        invariant
            1 <= i <= nent,
            directory@.len() == nent,
            forall|j: int|
                0 <= j < i ==> (#[trigger] directory@[j].spec_offset()) == (stride as int)
                    * slot_start(tt, shift, j - 1),
            forall|j: int|
                i <= j <= nn ==> (#[trigger] directory@[j].spec_offset()) == (stride as int)
                    * slot_count(tt, shift, j - 1),
            forall|j: int|
                0 <= j <= nn ==> (#[trigger] directory@[j].spec_bloom()) == old(
                    directory,
                )@[j].spec_bloom(),
            cumulative == (stride as int) * slot_start(tt, shift, i as int - 1),
        decreases nent - i,
    {
        let count = directory[i].offset();
        let b = directory[i].bloom();
        proof {
            lemma_slot_start_bounds(tt, shift, i as int - 1);
            assert((stride as int) * slot_start(tt, shift, i as int - 1) < 0x1_0000_0000_0000)
                by (nonlinear_arith)
                requires
                    0 <= slot_start(tt, shift, i as int - 1) <= tt.len(),
                    tt.len() * (stride as int) < 0x4000_0000_0000,
                    stride >= 1,
            ;
        }
        let ghost dir0 = directory@;
        let e2 = DirectoryEntry::new(cumulative, b);
        directory[i] = e2;
        proof {
            assert(directory@ == dir0.update(i as int, e2));
            lemma_slot_start_bounds(tt, shift, i as int);
            Seq::lemma_filter_len(tt, slot_pred(shift, i as int - 1));
            assert((stride as int) * slot_start(tt, shift, i as int) == (stride as int)
                * slot_start(tt, shift, i as int - 1) + (stride as int) * slot_count(
                tt,
                shift,
                i as int - 1,
            )) by (nonlinear_arith)
                requires
                    slot_start(tt, shift, i as int) == slot_start(tt, shift, i as int - 1)
                        + slot_count(tt, shift, i as int - 1),
            ;
            assert((stride as int) * slot_start(tt, shift, i as int) < 0x1_0000_0000_0000)
                by (nonlinear_arith)
                requires
                    0 <= slot_start(tt, shift, i as int) <= tt.len(),
                    tt.len() * (stride as int) < 0x4000_0000_0000,
                    stride >= 1,
            ;
        }
        cumulative = cumulative + count;
        i = i + 1;
    }
}


/// Phase 3 of the build: rescan every tuple, copy it to the write cursor of
/// its slot and advance the cursor by one stride. Each cursor starts at its
/// slot\'s range start and ends at its range end, so afterwards entry
/// `s + 1` holds the end of slot `s`\'s byte range with its Bloom bits
/// intact, and the storage holds every slot\'s tuples contiguously in scan
/// order.
#[verifier::loop_isolation(false)]
#[verifier::rlimit(60)]
fn build_phase_scatter(
    directory: &mut Vec<DirectoryEntry>,
    storage: &mut Vec<u64>,
    data: &Vec<u64>,
    stride: usize,
    shift: u32,
)
    requires
        valid_stride(stride),
        16 <= shift <= 60,
        old(directory)@.len() == pow2((64 - shift) as nat) + 1,
        forall|j: int|
            0 <= j < old(directory)@.len() ==> (#[trigger] old(directory)@[j].spec_offset()) == (
            stride as int) * slot_start(tuples_of(data@, stride as int / 8), shift, j - 1),
        data@.len() % ((stride as int / 8) as nat) == 0,
        tuples_wf(tuples_of(data@, stride as int / 8), stride as int / 8),
        tuples_of(data@, stride as int / 8).len() * (stride as int) < 0x4000_0000_0000,
        old(storage)@.len() == tuples_of(data@, stride as int / 8).len() * (stride as int / 8),
    ensures
        final(directory)@.len() == old(directory)@.len(),
        forall|j: int|
            0 <= j < final(directory)@.len() ==> (#[trigger] final(directory)@[j].spec_offset())
                == (stride as int) * slot_start(tuples_of(data@, stride as int / 8), shift, j),
        forall|j: int|
            0 <= j < final(directory)@.len() ==> (#[trigger] final(directory)@[j].spec_bloom())
                == old(directory)@[j].spec_bloom(),
        final(storage)@.len() == old(storage)@.len(),
        forall|s: int, jv: int|
            0 <= s < final(directory)@.len() - 1 && 0 <= jv < slot_count(
                tuples_of(data@, stride as int / 8),
                shift,
                s,
            ) ==> tuple_at(
                final(storage)@,
                stride as int / 8,
                slot_start(tuples_of(data@, stride as int / 8), shift, s) + jv,
            ) == #[trigger] tuples_of(data@, stride as int / 8).filter(slot_pred(shift, s))[jv],
{
    let w = stride / 8;
    let ghost tt = tuples_of(data@, stride as int / 8);
    let ghost nn = directory@.len() - 1;
    let nent = directory.len();
    let cap = storage.len();
    let n_tuples = data.len() / w;
    proof {
        assert(tt.len() == n_tuples) by (nonlinear_arith)
            requires
                w == stride / 8,
                stride >= 8,
                tt.len() == data@.len() as int / (stride as int / 8),
                n_tuples == data@.len() as int / w as int,
        ;
        assert((n_tuples as int) * (w as int) == data@.len()) by (nonlinear_arith)
            requires
                w >= 1,
                data@.len() % (w as nat) == 0,
                n_tuples == data@.len() as int / w as int,
        ;
        assert(directory@ == old(directory)@);
        assert(storage@ == old(storage)@);
        assert forall|s: int|
            0 <= s < nn implies (#[trigger] directory@[s + 1].spec_offset()) == (stride as int)
                * (slot_start(tt, shift, s) + slot_count(tt.take(0), shift, s)) by {
            assert(old(directory)@[s + 1].spec_offset() == (stride as int) * slot_start(
                tt,
                shift,
                s,
            ));
            assert(tt.take(0) =~= Seq::<Seq<u64>>::empty());
            reveal(Seq::filter);
            assert(slot_count(tt.take(0), shift, s) == 0);
        }
    }
    let mut ti: usize = 0;
    while ti < n_tuples
        invariant
            ti <= n_tuples,
            directory@.len() == nent == nn + 1,
            storage@.len() == cap,
            cap == tt.len() * (w as int),
            forall|s: int|
                0 <= s < nn ==> (#[trigger] directory@[s + 1].spec_offset()) == (stride as int)
                    * (slot_start(tt, shift, s) + slot_count(tt.take(ti as int), shift, s)),
            directory@[0].spec_offset() == old(directory)@[0].spec_offset(),
            forall|j: int|
                0 <= j <= nn ==> (#[trigger] directory@[j].spec_bloom()) == old(
                    directory,
                )@[j].spec_bloom(),
            forall|s: int, jv: int|
                0 <= s < nn && 0 <= jv < slot_count(tt.take(ti as int), shift, s)
                    ==> #[trigger] placed(storage@, w as int, tt, shift, ti as int, s, jv),
        decreases n_tuples - ti,
    {
        proof {
            lemma_tuple_disjoint(ti as int, n_tuples as int, w as int);
        }
        let base = ti * w;
        let keyw = data[base];
        let ghost t = tt[ti as int];
        proof {
            assert(t == tuple_at(data@, w as int, ti as int));
            assert(t[0] == data@[base as int]);
            assert(t[0] < 0x1_0000_0000);
        }
        let key = keyw as u32;
        let h = HashPair::hash(key);
        proof {
            lemma_slot_bound(h.slot, shift);
        }
        let slot = (h.slot >> (shift as u64)) as usize;
        proof {
            assert(slot as int == slot_of(key, shift));
            assert(slot < nn);
        }
        let e = directory[slot + 1];
        let cursor = e.offset();
        let ghost start0 = slot_start(tt, shift, slot as int);
        let ghost done0 = slot_count(tt.take(ti as int), shift, slot as int);
        let ghost q = start0 + done0;
        proof {
            assert(slot_pred(shift, slot as int)(t));
            lemma_filter_take_lt(tt, slot_pred(shift, slot as int), ti as int);
            lemma_slot_start_bounds(tt, shift, slot as int + 1);
            lemma_slot_start_bounds(tt, shift, slot as int);
            assert(slot_start(tt, shift, slot as int + 1) == start0 + slot_count(
                tt,
                shift,
                slot as int,
            ));
            assert(q < slot_start(tt, shift, slot as int + 1));
            assert(q < tt.len());
            assert(cursor == (stride as int) * q);
            assert(cursor as int / 8 == (w as int) * q) by (nonlinear_arith)
                requires
                    cursor == (stride as int) * q,
                    stride as int == 8 * (w as int),
                    q >= 0,
            ;
            lemma_tuple_disjoint(q, tt.len() as int, w as int);
            assert((w as int) * q == q * (w as int)) by (nonlinear_arith);
        }
        let cw = (cursor / 8) as usize;
        let mut j: usize = 0;
        let ghost before = storage@;
        while j < w
            invariant
                j <= w,
                storage@.len() == before.len(),
                forall|idx: int|
                    0 <= idx < storage@.len() && !(cw <= idx < cw + j)
                        ==> #[trigger] storage@[idx] == before[idx],
                forall|jj: int| 0 <= jj < j ==> #[trigger] storage@[cw + jj] == data@[base + jj],
            decreases w - j,
        {
            storage[cw + j] = data[base + j];
            j = j + 1;
        }
        let ghost dir0 = directory@;
        proof {
            assert(e.spec_offset() + stride < 0x1_0000_0000_0000) by (nonlinear_arith)
                requires
                    e.spec_offset() == (stride as int) * q,
                    q < tt.len(),
                    tt.len() * (stride as int) < 0x4000_0000_0000,
                    stride >= 1,
                    q >= 0,
            ;
        }
        let e3 = e.add_offset(stride as u64);
        directory[slot + 1] = e3;
        proof {
            assert(directory@ == dir0.update(slot as int + 1, e3));
            assert(tt.take(ti as int + 1) =~= tt.take(ti as int).push(t));
            // the freshly written words form tuple `t` at index `q`
            assert(cw as int == (w as int) * q);
            assert((w as int) * q + (w as int) <= storage@.len());
            assert forall|jj: int|
                0 <= jj < w implies tuple_at(storage@, w as int, q)[jj] == t[jj] by {
                assert(storage@[cw as int + jj] == data@[base as int + jj]);
                assert(t[jj] == data@[base as int + jj]);
            }
            assert(tuple_at(storage@, w as int, q) =~= t);
            // cursors
            assert forall|s: int|
                0 <= s < nn implies (#[trigger] directory@[s + 1].spec_offset()) == (
            stride as int) * (slot_start(tt, shift, s) + slot_count(
                tt.take(ti as int + 1),
                shift,
                s,
            )) by {
                lemma_filter_push(tt.take(ti as int), slot_pred(shift, s), t);
                let c = slot_count(tt.take(ti as int), shift, s);
                if s == slot as int {
                    assert(directory@[s + 1] == e3);
                    assert(slot_count(tt.take(ti as int + 1), shift, s) == c + 1);
                    assert((stride as int) * (slot_start(tt, shift, s) + (c + 1)) == (
                    stride as int) * (slot_start(tt, shift, s) + c) + (stride as int))
                        by (nonlinear_arith);
                } else {
                    assert(directory@[s + 1] == dir0[s + 1]);
                    assert(slot_count(tt.take(ti as int + 1), shift, s) == c);
                }
            }
            // placement claims
            assert forall|s: int, jv: int|
                0 <= s < nn && 0 <= jv < slot_count(tt.take(ti as int + 1), shift, s)
                    implies #[trigger] placed(storage@, w as int, tt, shift, ti as int + 1, s, jv)
                by {
                lemma_filter_push(tt.take(ti as int), slot_pred(shift, s), t);
                let qs = slot_start(tt, shift, s) + jv;
                if s == slot as int && jv == done0 {
                    assert(tt.take(ti as int + 1).filter(slot_pred(shift, s))[jv] == t);
                    assert(qs == q);
                } else {
                    // an already-placed tuple; its words were not touched
                    assert(placed(before, w as int, tt, shift, ti as int, s, jv));
                    lemma_filter_prefix_le(tt, slot_pred(shift, s), ti as int);
                    Seq::lemma_filter_len(tt.take(ti as int), slot_pred(shift, s));
                    lemma_slot_start_bounds(tt, shift, s + 1);
                    if s == slot as int {
                        assert(jv < done0);
                        assert(qs < q);
                    } else if s < slot as int {
                        lemma_slot_start_mono(tt, shift, s + 1, slot as int);
                        assert(jv < slot_count(tt, shift, s));
                        assert(qs < slot_start(tt, shift, s + 1));
                        assert(qs < q);
                    } else {
                        lemma_slot_start_mono(tt, shift, slot as int + 1, s);
                        assert(qs >= slot_start(tt, shift, s));
                        assert(q < slot_start(tt, shift, slot as int + 1));
                        assert(qs > q);
                    }
                    lemma_slot_start_bounds(tt, shift, s);
                    assert(qs >= 0);
                    if qs < q {
                        lemma_tuple_disjoint(qs, q, w as int);
                    } else {
                        lemma_tuple_disjoint(q, qs, w as int);
                    }
                    lemma_tuple_disjoint(qs, tt.len() as int, w as int);
                    assert(tuple_at(storage@, w as int, qs) =~= tuple_at(
                        before,
                        w as int,
                        qs,
                    ));
                    assert(tt.take(ti as int + 1).filter(slot_pred(shift, s))[jv] == tt.take(
                        ti as int,
                    ).filter(slot_pred(shift, s))[jv]);
                }
            }
        }
        ti = ti + 1;
    }
    proof {
        assert(tt.take(tt.len() as int) =~= tt);
        assert forall|s: int, jv: int|
            0 <= s < nn && 0 <= jv < slot_count(tt, shift, s) implies tuple_at(
                storage@,
                w as int,
                slot_start(tt, shift, s) + jv,
            ) == #[trigger] tt.filter(slot_pred(shift, s))[jv] by {
            assert(slot_count(tt.take(n_tuples as int), shift, s) == slot_count(tt, shift, s));
            assert(placed(storage@, w as int, tt, shift, n_tuples as int, s, jv));
        }
        assert forall|j: int|
            0 <= j < directory@.len() implies (#[trigger] directory@[j].spec_offset()) == (
        stride as int) * slot_start(tt, shift, j) by {
            if j == 0 {
                assert(directory@[0].spec_offset() == (stride as int) * slot_start(
                    tt,
                    shift,
                    -1,
                ));
            } else {
                let s = j - 1;
                assert(directory@[s + 1].spec_offset() == (stride as int) * (slot_start(
                    tt,
                    shift,
                    s,
                ) + slot_count(tt.take(tt.len() as int), shift, s)));
                assert(slot_start(tt, shift, j) == slot_start(tt, shift, s) + slot_count(
                    tt,
                    shift,
                    s,
                ));
            }
        }
    }
}


/// Merge the per-partition buffers of all collectors into one scan buffer,
/// partition-major: for each partition index in order, that partition\'s
/// words from each collector in order.
#[verifier::loop_isolation(false)]
fn merge_collector_data(collectors: &Vec<LocalCollector>, np: usize, w: usize) -> (data: Vec<
    u64,
>)
    requires
        w >= 1,
        forall|ci: int|
            0 <= ci < collectors@.len() ==> (#[trigger] collectors@[ci]).wf() && collectors@[
                ci].w() == w && collectors@[ci].num_parts() == np,
    ensures
        data@.len() % (w as nat) == 0,
        tuples_of(data@, w as int) == merged_tuples(collectors@, np as int),
{
    let ghost cs = collectors@;
    let ncol = collectors.len();
    let mut data: Vec<u64> = Vec::new();
    proof {
        assert(tuples_of(data@, w as int) =~= merged_upto(cs, 0));
    }
    let mut op: usize = 0;
    while op < np
        invariant
            op <= np,
            data@.len() % (w as nat) == 0,
            tuples_of(data@, w as int) == merged_upto(cs, op as int),
        decreases np - op,
    {
        let mut ci: usize = 0;
        while ci < ncol
            invariant
                ci <= ncol,
                op < np,
                data@.len() % (w as nat) == 0,
                tuples_of(data@, w as int) == merged_upto(cs, op as int) + row_tuples(
                    cs,
                    op as int,
                    ci as int,
                ),
            decreases ncol - ci,
        {
            let ghost piece = cs[ci as int].bufs()[op as int];
            let ghost before = data@;
            proof {
                assert(cs[ci as int].wf());
                assert(op < cs[ci as int].num_parts());
                assert(piece == collectors@[ci as int].buffers@[op as int]@);
            }
            let blen = collectors[ci].buffers[op].len();
            let mut jj: usize = 0;
            while jj < blen
                invariant
                    jj <= blen,
                    blen == piece.len(),
                    data@ == before + piece.subrange(0, jj as int),
                decreases blen - jj,
            {
                let v = collectors[ci].buffers[op][jj];
                data.push(v);
                proof {
                    assert(data@ =~= before + piece.subrange(0, jj as int + 1));
                }
                jj = jj + 1;
            }
            proof {
                assert(piece.subrange(0, piece.len() as int) =~= piece);
                assert(data@ == before + piece);
                assert(piece.len() % (w as nat) == 0);
                lemma_tuples_of_concat(before, piece, w as int);
                assert(tuples_of(piece, w as int) == cs[ci as int].part_tuples(op as int));
                vstd::arithmetic::div_mod::lemma_add_mod_noop(
                    before.len() as int,
                    piece.len() as int,
                    w as int,
                );
                assert(data@.len() % (w as nat) == 0);
                assert(tuples_of(data@, w as int) =~= merged_upto(cs, op as int) + row_tuples(
                    cs,
                    op as int,
                    ci as int + 1,
                ));
            }
            ci = ci + 1;
        }
        proof {
            assert(tuples_of(data@, w as int) == merged_upto(cs, op as int + 1));
        }
        op = op + 1;
    }
    data
}

/// Build an [`UnchainedHashTable`] from collected tuples.
///
/// The merged partition data is scanned three times: a count pass that also
/// accumulates Bloom tags per slot, an exclusive prefix sum that turns the
/// counts into range starts, and a scatter that copies every tuple into its
/// slot\'s range. Probing the result for any key yields exactly the tuples
/// the collectors hold under that key.
#[verifier::rlimit(60)]
pub fn build(collectors: Vec<LocalCollector>, config: &BuildConfig) -> (r: UnchainedHashTable)
    requires
        config.wf(),
        forall|ci: int|
            0 <= ci < collectors@.len() ==> (#[trigger] collectors@[ci]).wf() && collectors@[
                ci].spec_stride() == config.tuple_stride && collectors@[ci].spec_partition_shift()
                == 64 - config.num_partitions_shift,
        merged_tuples(collectors@, pow2(config.num_partitions_shift as nat) as int).len() * (
        config.tuple_stride as int) < 0x4000_0000_0000,
        merged_tuples(collectors@, pow2(config.num_partitions_shift as nat) as int).len() * (
        config.tuple_stride as int) <= usize::MAX as int,
    ensures
        r.wf(),
        r.spec_stride() == config.tuple_stride,
        r.spec_num_tuples() == merged_tuples(
            collectors@,
            pow2(config.num_partitions_shift as nat) as int,
        ).len(),
        forall|key: u32| #[trigger]
            r.probe_spec(key) == merged_tuples(
                collectors@,
                pow2(config.num_partitions_shift as nat) as int,
            ).filter(key_pred(key)),
        forall|key: u32|
            merged_tuples(collectors@, pow2(config.num_partitions_shift as nat) as int).filter(
                key_pred(key),
            ).len() > 0 ==> #[trigger] r.bloom_pass(key),
        merged_tuples(collectors@, pow2(config.num_partitions_shift as nat) as int).len() == 0
            ==> forall|key: u32| !(#[trigger] r.bloom_pass(key)),
        forall|key: u32| #[trigger]
            r.bloom_pass(key) == ((slot_bloom(
                merged_tuples(collectors@, pow2(config.num_partitions_shift as nat) as int),
                r.spec_tags(),
                r.spec_shift(),
                slot_of(key, r.spec_shift()),
            ) & r.spec_tags()[tag_index_of(key)]) == r.spec_tags()[tag_index_of(key)]),
{
    let ghost cs = collectors@;
    let stride = config.tuple_stride;
    let w = stride / 8;
    let np = config.num_partitions();
    let ghost mm = merged_tuples(cs, np as int);
    proof {
        assert forall|ci: int|
            0 <= ci < cs.len() implies (#[trigger] cs[ci]).wf() && cs[ci].w() == w && cs[
            ci].num_parts() == np by {
            assert(cs[ci].wf());
            assert((64 - cs[ci].spec_partition_shift()) as nat == config.num_partitions_shift
                as nat);
        }
    }
    let data = merge_collector_data(&collectors, np, w);
    let ghost tt = tuples_of(data@, stride as int / 8);
    let n_tuples = data.len() / w;
    proof {
        assert(tt == merged_tuples(cs, np as int));
        assert(tt.len() == n_tuples) by (nonlinear_arith)
            requires
                w == stride / 8,
                stride >= 8,
                tt.len() == data@.len() as int / (stride as int / 8),
                n_tuples == data@.len() as int / w as int,
        ;
        assert((n_tuples as int) * (w as int) == data@.len()) by (nonlinear_arith)
            requires
                w >= 1,
                data@.len() % (w as nat) == 0,
                n_tuples == data@.len() as int / w as int,
        ;
        assert(n_tuples <= 0x1000_0000_0000) by (nonlinear_arith)
            requires
                (n_tuples as int) * (stride as int) < 0x4000_0000_0000,
                stride >= 8,
                n_tuples >= 0,
                tt.len() == n_tuples,
                tt.len() * (stride as int) < 0x4000_0000_0000,
        ;
        assert(8 * (n_tuples as int) <= usize::MAX as int) by (nonlinear_arith)
            requires
                (n_tuples as int) * (stride as int) <= usize::MAX as int,
                stride >= 8,
                n_tuples >= 0,
        ;
        assert(usize::MAX as int >= 0xffff);
        assert((n_tuples as int) + ((n_tuples as int) + 7) / 8 <= usize::MAX as int / 2)
            by (nonlinear_arith)
            requires
                8 * (n_tuples as int) <= usize::MAX as int,
                n_tuples >= 0,
                usize::MAX as int >= 0xffff,
        ;
        lemma_merged_wf(cs, np as int, w as int);
        assert(tuples_wf(tt, stride as int / 8));
    }
    let (table_size, shift) = compute_table_params(n_tuples);
    let n_entries: usize = table_size + 1;
    let mut directory: Vec<DirectoryEntry> = Vec::new();
    let mut i: usize = 0;
    while i < n_entries
        invariant
            directory@.len() == i,
            i <= n_entries,
            forall|j: int|
                0 <= j < i ==> (#[trigger] directory@[j]).spec_offset() == 0 && directory@[
                j].spec_bloom() == 0,
        decreases n_entries - i,
    {
        directory.push(DirectoryEntry::new(0, 0));
        i = i + 1;
    }
    let ghost dir_init = directory@;
    proof {
        assert(forall|j: int|
            0 <= j < dir_init.len() ==> (#[trigger] dir_init[j]).spec_offset() == 0
                && dir_init[j].spec_bloom() == 0);
    }
    let total_words: usize = n_tuples * w;
    proof {
        assert((n_tuples as int) * (w as int) <= (n_tuples as int) * (stride as int))
            by (nonlinear_arith)
            requires
                w <= stride,
                n_tuples >= 0,
                w >= 1,
        ;
    }
    let mut tuple_storage: Vec<u64> = Vec::new();
    while tuple_storage.len() < total_words
        invariant
            tuple_storage@.len() <= total_words,
        decreases total_words - tuple_storage@.len(),
    {
        tuple_storage.push(0u64);
    }
    let tags = bloom_tag_table();
    build_phase_count(&mut directory, &data, &tags, stride, shift);
    let ghost dir1 = directory@;
    build_phase_prefix_sum(&mut directory, &data, stride, shift);
    build_phase_scatter(&mut directory, &mut tuple_storage, &data, stride, shift);
    let r = UnchainedHashTable {
        directory,
        tuple_storage,
        shift,
        tuple_stride: stride,
        bloom_tags: tags,
    };
    proof {
        let nn = r.directory@.len() - 1;
        assert(nn == pow2((64 - shift) as nat));
        assert(r.w() == w as int);
        assert(r.stored_tuples().len() == tt.len()) by (nonlinear_arith)
            requires
                r.stored_tuples().len() == r.tuple_storage@.len() as int / (w as int),
                r.tuple_storage@.len() == tt.len() * (w as int),
                w >= 1,
        ;
        // every tuple lands in a real slot
        assert forall|iu: int|
            0 <= iu < tt.len() implies 0 <= slot_of((#[trigger] tt[iu])[0] as u32, shift)
                < nn by {
            lemma_slot_bound(fib_hash(tt[iu][0] as u32), shift);
        }
        lemma_slot_start_total(tt, shift, nn);
        // Bloom coverage survives the later phases, which keep every bitmap
        assert forall|jj: int|
            0 <= jj < tt.len() implies #[trigger] tag_covered(r.directory@, tags@, tt[jj], shift)
            by {
            assert(tag_covered(dir1, tags@, tt[jj], shift));
            let kj = tt[jj][0] as u32;
            lemma_slot_bound(fib_hash(kj), shift);
            assert(r.directory@[slot_of(kj, shift) + 1].spec_bloom() == dir1[slot_of(kj, shift)
                + 1].spec_bloom());
        }
        // directory offsets: stride-aligned multiples of monotone slot starts
        assert forall|a: int, b: int|
            0 <= a <= b <= nn implies (#[trigger] r.directory@[a].spec_offset()) <= (
        #[trigger] r.directory@[b].spec_offset()) by {
            lemma_slot_start_mono(tt, shift, a, b);
            assert((stride as int) * slot_start(tt, shift, a) <= (stride as int) * slot_start(
                tt,
                shift,
                b,
            )) by (nonlinear_arith)
                requires
                    slot_start(tt, shift, a) <= slot_start(tt, shift, b),
                    stride >= 1,
            ;
        }
        assert forall|j: int|
            0 <= j <= nn implies (#[trigger] r.directory@[j].spec_offset()) % (
        r.tuple_stride as u64) == 0 by {
            lemma_slot_start_bounds(tt, shift, j);
            assert(((stride as int) * slot_start(tt, shift, j)) % (stride as int) == 0)
                by (nonlinear_arith)
                requires
                    stride >= 1,
                    slot_start(tt, shift, j) >= 0,
            ;
        }
        assert(r.directory@[nn].spec_offset() == (stride as int) * tt.len());
        assert((stride as int) * tt.len() == 8 * (tt.len() * (w as int))) by (nonlinear_arith)
            requires
                stride as int == 8 * (w as int),
        ;
        assert(r.tuple_storage@.len() % (r.w() as nat) == 0) by (nonlinear_arith)
            requires
                r.tuple_storage@.len() == tt.len() * (w as int),
                r.w() == w as int,
                w >= 1,
        ;
        // each slot range holds exactly the slot\'s tuples, in scan order
        assert forall|si: int|
            0 <= si <= nn implies #[trigger] slot_start(tt, shift, si) == r.directory@[
        si].spec_offset() as int / (stride as int) by {
            lemma_slot_start_bounds(tt, shift, si);
            assert(((stride as int) * slot_start(tt, shift, si)) / (stride as int) == slot_start(
                tt,
                shift,
                si,
            )) by (nonlinear_arith)
                requires
                    stride >= 1,
                    slot_start(tt, shift, si) >= 0,
            ;
        }
        assert forall|si: int, iv: int|
            #![trigger r.stored_tuples()[iv], slot_start(tt, shift, si)]
            0 <= si < nn && slot_start(tt, shift, si) <= iv < slot_start(tt, shift, si + 1)
                implies r.stored_tuples()[iv] == tt.filter(slot_pred(shift, si))[iv - slot_start(
            tt,
            shift,
            si,
        )] by {
            let jv = iv - slot_start(tt, shift, si);
            lemma_slot_start_bounds(tt, shift, si + 1);
            lemma_slot_start_bounds(tt, shift, si);
            assert(slot_start(tt, shift, si + 1) == slot_start(tt, shift, si) + slot_count(
                tt,
                shift,
                si,
            ));
            assert(0 <= jv < slot_count(tt, shift, si));
            assert(tuple_at(r.tuple_storage@, w as int, slot_start(tt, shift, si) + jv)
                == tt.filter(slot_pred(shift, si))[jv]);
            assert(iv < r.stored_tuples().len());
            assert(r.stored_tuples()[iv] == tuple_at(r.tuple_storage@, r.w(), iv));
        }
        assert forall|si: int, iv: int|
            0 <= si < nn && r.slot_lo(si) <= iv < r.slot_hi(si) implies #[trigger] r.tuple_ok(
                si,
                iv,
            ) by {
            let jv = iv - slot_start(tt, shift, si);
            let elem = tt.filter(slot_pred(shift, si))[jv];
            assert(r.stored_tuples()[iv] == elem);
            Seq::lemma_filter_pred(tt, slot_pred(shift, si), jv);
            lemma_filter_elements(tt, slot_pred(shift, si), jv);
            let j0 = choose|j0: int| 0 <= j0 < tt.len() && tt[j0] == elem;
            assert(tag_covered(r.directory@, tags@, tt[j0], shift));
            assert(tuple_at(r.tuple_storage@, r.w(), iv) == r.stored_tuples()[iv]);
        }
        assert(r.wf());
        // probing yields the merged tuples filtered by key
        assert forall|key: u32| #[trigger]
            r.probe_spec(key) == mm.filter(key_pred(key)) by {
            let ks = slot_of(key, shift);
            lemma_slot_bound(fib_hash(key), shift);
            assert(r.slot_lo(ks) == slot_start(tt, shift, ks));
            assert(r.slot_hi(ks) == slot_start(tt, shift, ks + 1));
            lemma_slot_start_bounds(tt, shift, ks + 1);
            lemma_slot_start_bounds(tt, shift, ks);
            assert(slot_start(tt, shift, ks + 1) == slot_start(tt, shift, ks) + slot_count(
                tt,
                shift,
                ks,
            ));
            assert forall|jv: int|
                0 <= jv < slot_count(tt, shift, ks) implies r.slot_tuples(ks)[jv] == tt.filter(
                slot_pred(shift, ks),
            )[jv] by {
                assert(r.stored_tuples()[slot_start(tt, shift, ks) + jv] == tt.filter(
                    slot_pred(shift, ks),
                )[jv]);
            }
            assert(r.slot_tuples(ks) =~= tt.filter(slot_pred(shift, ks)));
            assert forall|iu: int|
                0 <= iu < tt.len() && key_pred(key)(#[trigger] tt[iu]) implies slot_pred(
                shift,
                ks,
            )(tt[iu]) by {
                assert(tt[iu][0] == key as u64);
            }
            lemma_filter_filter(tt, slot_pred(shift, ks), key_pred(key));
        }
        assert forall|key: u32| #[trigger]
            r.bloom_pass(key) == ((slot_bloom(
                mm,
                r.spec_tags(),
                r.spec_shift(),
                slot_of(key, r.spec_shift()),
            ) & r.spec_tags()[tag_index_of(key)]) == r.spec_tags()[tag_index_of(key)]) by {
            lemma_tag_index_bound(key);
            lemma_slot_bound(fib_hash(key), shift);
            let ks = slot_of(key, shift);
            assert(r.directory@[ks + 1].spec_bloom() == dir1[ks + 1].spec_bloom());
            assert(dir1[ks + 1].spec_bloom() == slot_bloom(tt, tags@, shift, ks));
        }
        if tt.len() == 0 {
            assert(dir1 == dir_init);
            assert forall|key: u32| !(#[trigger] r.bloom_pass(key)) by {
                lemma_tag_index_bound(key);
                lemma_slot_bound(fib_hash(key), shift);
                let ks = slot_of(key, shift);
                assert(r.directory@[ks + 1].spec_bloom() == dir1[ks + 1].spec_bloom());
                assert(dir_init[ks + 1].spec_bloom() == 0);
                let tag = tags@[tag_index_of(key)];
                lemma_bloom_check_extremes(tag);
                assert(popcount(tag) == 4);
            }
        }
        assert forall|key: u32|
            mm.filter(key_pred(key)).len() > 0 implies #[trigger] r.bloom_pass(key) by {
            lemma_filter_elements(tt, key_pred(key), 0);
            Seq::lemma_filter_pred(tt, key_pred(key), 0);
            let j0 = choose|j0: int| 0 <= j0 < tt.len() && tt[j0] == tt.filter(key_pred(key))[0];
            assert(tag_covered(r.directory@, tags@, tt[j0], shift));
            assert(tt[j0][0] == key as u64);
            lemma_slot_bound(fib_hash(key), shift);
        }
    }
    r
}


/// The Bloom filter has no false negatives: whenever probing a well-formed
/// table for a key can yield a tuple, the Bloom check passes for that key.
/// (The converse need not hold: the filter may pass for absent keys.)
pub proof fn lemma_bloom_no_false_negative(t: UnchainedHashTable, key: u32)
    requires
        t.wf(),
        t.probe_spec(key).len() > 0,
    ensures
        t.bloom_pass(key),
{
    let ks = t.key_slot(key);
    let stride = t.spec_stride() as int;
    lemma_slot_bound(fib_hash(key), t.spec_shift());
    let lo_off = t.directory@[ks].spec_offset() as int;
    let hi_off = t.directory@[ks + 1].spec_offset() as int;
    let nn = t.table_size();
    assert(hi_off <= t.directory@[nn].spec_offset());
    assert((hi_off / stride) * stride == hi_off) by (nonlinear_arith)
        requires
            stride >= 8,
            hi_off % stride == 0,
    ;
    assert((lo_off / stride) * stride == lo_off) by (nonlinear_arith)
        requires
            stride >= 8,
            lo_off % stride == 0,
    ;
    assert(t.slot_hi(ks) <= t.stored_tuples().len()) by (nonlinear_arith)
        requires
            t.slot_hi(ks) == hi_off / stride,
            (hi_off / stride) * stride == hi_off,
            hi_off <= 8 * t.tuple_storage@.len(),
            stride == 8 * t.w(),
            t.w() >= 1,
            t.stored_tuples().len() == t.tuple_storage@.len() as int / t.w(),
            t.tuple_storage@.len() as int % t.w() == 0,
            t.slot_hi(ks) >= 0,
    ;
    assert(0 <= t.slot_lo(ks)) by (nonlinear_arith)
        requires
            lo_off >= 0,
            stride >= 8,
            t.slot_lo(ks) == lo_off / stride,
    ;
    assert(t.slot_lo(ks) <= t.slot_hi(ks)) by (nonlinear_arith)
        requires
            lo_off <= hi_off,
            stride >= 8,
            t.slot_lo(ks) == lo_off / stride,
            t.slot_hi(ks) == hi_off / stride,
    ;
    Seq::lemma_filter_pred(t.slot_tuples(ks), key_pred(key), 0);
    lemma_filter_elements(t.slot_tuples(ks), key_pred(key), 0);
    let j = choose|j: int|
        0 <= j < t.slot_tuples(ks).len() && t.slot_tuples(ks)[j] == t.probe_spec(key)[0];
    assert(t.slot_tuples(ks)[j] == t.stored_tuples()[t.slot_lo(ks) + j]);
    assert(t.tuple_ok(ks, t.slot_lo(ks) + j));
}


/// The tuples of one collector's first `m` partitions, partition by
/// partition.
pub open spec fn collector_tuples(c: LocalCollector, m: int) -> Seq<Seq<u64>>
    decreases m,
{
    if m <= 0 {
        Seq::empty()
    } else {
        collector_tuples(c, m - 1) + c.part_tuples(m - 1)
    }
}

/// All tuples of a set of collectors read collector by collector, each one
/// partition by partition.
pub open spec fn all_collector_tuples(cs: Seq<LocalCollector>, parts: int) -> Seq<Seq<u64>>
    decreases cs.len(),
{
    if cs.len() == 0 {
        Seq::empty()
    } else {
        all_collector_tuples(cs.drop_last(), parts) + collector_tuples(cs.last(), parts)
    }
}

/// Dropping the last collector leaves every row over the remaining ones
/// unchanged.
proof fn lemma_row_drop_last(cs: Seq<LocalCollector>, op: int, k: int)
    requires
        cs.len() > 0,
        0 <= k <= cs.len() - 1,
    ensures
        row_tuples(cs, op, k) == row_tuples(cs.drop_last(), op, k),
    decreases k,
{
    if k > 0 {
        lemma_row_drop_last(cs, op, k - 1);
        assert(cs.drop_last()[k - 1] == cs[k - 1]);
    }
}

/// With no collectors there are no merged tuples.
proof fn lemma_merged_no_collectors(cs: Seq<LocalCollector>, m: int)
    requires
        cs.len() == 0,
    ensures
        merged_upto(cs, m) == Seq::<Seq<u64>>::empty(),
    decreases m,
{
    if m > 0 {
        lemma_merged_no_collectors(cs, m - 1);
        assert(merged_upto(cs, m) =~= Seq::<Seq<u64>>::empty());
    }
}

/// Peeling the last collector out of the partition-major merge: its tuples
/// form one summand of the merged multiset, for any tuple predicate.
proof fn lemma_merged_peel(cs: Seq<LocalCollector>, pred: spec_fn(Seq<u64>) -> bool, m: int)
    requires
        cs.len() > 0,
    ensures
        merged_upto(cs, m).filter(pred).to_multiset() == merged_upto(
            cs.drop_last(),
            m,
        ).filter(pred).to_multiset().add(
            collector_tuples(cs.last(), m).filter(pred).to_multiset(),
        ),
    decreases m,
{
    broadcast use vstd::multiset::group_multiset_axioms;
    broadcast use vstd::seq_lib::group_to_multiset_ensures;

    let cs2 = cs.drop_last();
    if m <= 0 {
        reveal(Seq::filter);
        assert(Seq::<Seq<u64>>::empty().filter(pred).len() == 0);
        assert(merged_upto(cs, m).filter(pred).to_multiset() =~= merged_upto(
            cs2,
            m,
        ).filter(pred).to_multiset().add(
            collector_tuples(cs.last(), m).filter(pred).to_multiset(),
        ));
    } else {
        lemma_merged_peel(cs, pred, m - 1);
        let row_all = row_tuples(cs, m - 1, cs.len() as int);
        let row_rest = row_tuples(cs, m - 1, cs.len() - 1);
        assert(row_all == row_rest + cs[cs.len() - 1].part_tuples(m - 1));
        lemma_row_drop_last(cs, m - 1, cs.len() - 1);
        Seq::filter_distributes_over_add(merged_upto(cs, m - 1), row_all, pred);
        Seq::filter_distributes_over_add(
            row_rest,
            cs.last().part_tuples(m - 1),
            pred,
        );
        Seq::filter_distributes_over_add(merged_upto(cs2, m - 1), row_rest, pred);
        Seq::filter_distributes_over_add(
            collector_tuples(cs.last(), m - 1),
            cs.last().part_tuples(m - 1),
            pred,
        );
        lemma_multiset_commutative(
            merged_upto(cs, m - 1).filter(pred),
            row_all.filter(pred),
        );
        lemma_multiset_commutative(row_rest.filter(pred), cs.last().part_tuples(m - 1).filter(pred));
        lemma_multiset_commutative(merged_upto(cs2, m - 1).filter(pred), row_rest.filter(pred));
        lemma_multiset_commutative(
            collector_tuples(cs.last(), m - 1).filter(pred),
            cs.last().part_tuples(m - 1).filter(pred),
        );
        assert(merged_upto(cs, m).filter(pred).to_multiset() =~= merged_upto(
            cs2,
            m,
        ).filter(pred).to_multiset().add(
            collector_tuples(cs.last(), m).filter(pred).to_multiset(),
        ));
    }
}

/// The partition-major order of the build holds exactly the tuples of the
/// collectors read one after another: for any tuple predicate (a key, for
/// instance) both orders select the same multiset. Together with the
/// contract of [`build`], probing a table built from several collectors is
/// equivalent to probing one built from any other split of the same
/// inserts.
pub proof fn lemma_merged_collector_equivalence(
    cs: Seq<LocalCollector>,
    pred: spec_fn(Seq<u64>) -> bool,
    parts: int,
)
    ensures
        merged_tuples(cs, parts).filter(pred).to_multiset() == all_collector_tuples(
            cs,
            parts,
        ).filter(pred).to_multiset(),
    decreases cs.len(),
{
    broadcast use vstd::multiset::group_multiset_axioms;
    broadcast use vstd::seq_lib::group_to_multiset_ensures;

    if cs.len() == 0 {
        lemma_merged_no_collectors(cs, parts);
        reveal(Seq::filter);
    } else {
        lemma_merged_peel(cs, pred, parts);
        lemma_merged_collector_equivalence(cs.drop_last(), pred, parts);
        Seq::filter_distributes_over_add(
            all_collector_tuples(cs.drop_last(), parts),
            collector_tuples(cs.last(), parts),
            pred,
        );
        lemma_multiset_commutative(
            all_collector_tuples(cs.drop_last(), parts).filter(pred),
            collector_tuples(cs.last(), parts).filter(pred),
        );
    }
}


/// Bitwise OR on tags is commutative and associative.
proof fn lemma_or_alg(a: u16, b: u16, c: u16)
    by (bit_vector)
    ensures
        (a | b) == (b | a),
        ((a | b) | c) == (a | (b | c)),
{
}

/// Removing one tuple factors its tag contribution out of the slot bitmap.
proof fn lemma_slot_bloom_remove(
    ts: Seq<Seq<u64>>,
    tags: Seq<u16>,
    shift: u32,
    s: int,
    i: int,
)
    requires
        0 <= i < ts.len(),
    ensures
        slot_bloom(ts, tags, shift, s) == (slot_bloom(ts.remove(i), tags, shift, s)
            | tag_contrib(ts[i], tags, shift, s)),
    decreases ts.len(),
{
    if i == ts.len() - 1 {
        assert(ts.remove(i) =~= ts.drop_last());
        lemma_or_alg(
            slot_bloom(ts.drop_last(), tags, shift, s),
            tag_contrib(ts.last(), tags, shift, s),
            0,
        );
    } else {
        let sub = ts.drop_last();
        lemma_slot_bloom_remove(sub, tags, shift, s, i);
        assert(ts.remove(i).drop_last() =~= sub.remove(i));
        assert(ts.remove(i).last() == ts.last());
        assert(ts[i] == sub[i]);
        lemma_or_alg(
            slot_bloom(sub.remove(i), tags, shift, s),
            tag_contrib(ts[i], tags, shift, s),
            tag_contrib(ts.last(), tags, shift, s),
        );
        lemma_or_alg(
            slot_bloom(sub.remove(i), tags, shift, s),
            tag_contrib(ts.last(), tags, shift, s),
            tag_contrib(ts[i], tags, shift, s),
        );
        lemma_or_alg(
            tag_contrib(ts[i], tags, shift, s),
            tag_contrib(ts.last(), tags, shift, s),
            0,
        );
    }
}

/// Two tuple sequences holding the same multiset produce identical Bloom
/// bitmaps in every slot. Together with the exact Bloom contract of
/// [`build`] and [`lemma_merged_collector_equivalence`], any two builds of
/// the same inserted tuples agree on the Bloom verdict of every key, not
/// only on probe results.
pub proof fn lemma_slot_bloom_multiset(
    a: Seq<Seq<u64>>,
    b: Seq<Seq<u64>>,
    tags: Seq<u16>,
    shift: u32,
    s: int,
)
    requires
        a.to_multiset() == b.to_multiset(),
    ensures
        slot_bloom(a, tags, shift, s) == slot_bloom(b, tags, shift, s),
    decreases a.len(),
{
    broadcast use vstd::seq_lib::group_to_multiset_ensures;
    broadcast use vstd::multiset::group_multiset_axioms;

    if a.len() == 0 {
        assert(b.to_multiset().len() == 0);
    } else {
        let x = a.last();
        assert(a.drop_last().push(x) =~= a);
        assert(a.to_multiset() == a.drop_last().to_multiset().insert(x));
        assert(b.to_multiset().count(x) > 0);
        assert(b.contains(x));
        let i = choose|i: int| 0 <= i < b.len() && b[i] == x;
        assert(b.remove(i).to_multiset() =~= b.to_multiset().remove(x));
        assert(a.drop_last().to_multiset() =~= a.to_multiset().remove(x));
        lemma_slot_bloom_multiset(a.drop_last(), b.remove(i), tags, shift, s);
        lemma_slot_bloom_remove(b, tags, shift, s, i);
    }
}

/// Filtering by a predicate that holds everywhere changes nothing.
proof fn lemma_filter_all<A>(s: Seq<A>, pred: spec_fn(A) -> bool)
    requires
        forall|i: int| 0 <= i < s.len() ==> pred(#[trigger] s[i]),
    ensures
        s.filter(pred) == s,
    decreases s.len(),
{
    reveal(Seq::filter);
    if s.len() > 0 {
        lemma_filter_all(s.drop_last(), pred);
        assert(s.drop_last().push(s.last()) =~= s);
    } else {
        assert(s.filter(pred) =~= s);
    }
}

/// The predicate that admits every tuple.
pub open spec fn any_tuple() -> spec_fn(Seq<u64>) -> bool {
    |t: Seq<u64>| true
}

/// The partition-major merge and the collector-by-collector reading hold
/// the same tuples outright, not only under each filter.
pub proof fn lemma_merged_multiset(cs: Seq<LocalCollector>, parts: int)
    ensures
        merged_tuples(cs, parts).to_multiset() == all_collector_tuples(cs, parts).to_multiset(),
{
    lemma_merged_collector_equivalence(cs, any_tuple(), parts);
    lemma_filter_all(merged_tuples(cs, parts), any_tuple());
    lemma_filter_all(all_collector_tuples(cs, parts), any_tuple());
}


} // verus!
