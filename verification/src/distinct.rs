//! The distinct values of a column, for the filter drop-down: each value with
//! the number of rows that show it, in dictionary order. Exactly counted are
//! the first `EXACT_COUNT_CAP` distinct values met; past that a caller
//! estimates the total instead, and the list shows at most
//! `MAX_DISTINCT_VALUES` values.
use vstd::prelude::*;
use crate::chars::{chars_of, string_from};
use crate::filter::{line_field_value, line_value};
use crate::text_order::{compare_text, lemma_text_total, lemma_text_trans, text_lt};

verus! {

/// Up to this many distinct values are tallied exactly.
pub const EXACT_COUNT_CAP: usize = 5000;

/// The most values the drop-down lists.
pub const MAX_DISTINCT_VALUES: usize = 1000;

/// The tally of a column: the values to list (in dictionary order) with their
/// counts, whether the list was cut, whether the exact tally hit its cap, and
/// how many distinct values were tallied.
pub struct DistinctTally {
    pub values: Vec<(String, u64)>,
    pub truncated: bool,
    pub hit_cap: bool,
    pub distinct: usize,
}

/// The values that the data lines show in column `col`, in line order.
pub open spec fn row_values(lines: Seq<String>, delim: u8, col: int, ds: int) -> Seq<Seq<char>> {
    if lines.len() <= ds {
        Seq::empty()
    } else {
        Seq::new((lines.len() - ds) as nat, |i: int| line_value(lines[ds + i]@, delim, col))
    }
}

/// The distinct values among the first `k` of `vals` that are tallied: the
/// first `EXACT_COUNT_CAP` distinct ones, in order of first appearance.
pub open spec fn kept_values(vals: Seq<Seq<char>>, k: int) -> Seq<Seq<char>>
    decreases k,
{
    if k <= 0 {
        Seq::empty()
    } else {
        let p = kept_values(vals, k - 1);
        if p.contains(vals[k - 1]) || p.len() >= EXACT_COUNT_CAP {
            p
        } else {
            p.push(vals[k - 1])
        }
    }
}

/// How often `v` occurs among the first `k` of `vals`.
pub open spec fn occurrences(vals: Seq<Seq<char>>, k: int, v: Seq<char>) -> nat
    decreases k,
{
    if k <= 0 {
        0
    } else {
        occurrences(vals, k - 1, v) + if vals[k - 1] == v {
            1nat
        } else {
            0nat
        }
    }
}

/// Whether `keys` is in strictly ascending dictionary order.
pub open spec fn strictly_sorted(keys: Seq<Seq<char>>) -> bool {
    forall|i: int, j: int| 0 <= i < j < keys.len() ==> text_lt(keys[i], keys[j])
}

/// The texts of a list of character vectors.
pub open spec fn key_texts(v: Seq<Vec<char>>) -> Seq<Seq<char>> {
    v.map_values(|x: Vec<char>| x@)
}

proof fn lemma_occurrences_bound(vals: Seq<Seq<char>>, k: int, v: Seq<char>)
    requires
        0 <= k,
    ensures
        occurrences(vals, k, v) <= k,
    decreases k,
{
    if k > 0 {
        lemma_occurrences_bound(vals, k - 1, v);
    }
}

proof fn lemma_occurrences_none(vals: Seq<Seq<char>>, k: int, v: Seq<char>)
    requires
        0 <= k,
        forall|j: int| 0 <= j < k ==> vals[j] != v,
    ensures
        occurrences(vals, k, v) == 0,
    decreases k,
{
    if k > 0 {
        lemma_occurrences_none(vals, k - 1, v);
    }
}

proof fn lemma_kept_len(vals: Seq<Seq<char>>, k: int)
    ensures
        kept_values(vals, k).len() <= EXACT_COUNT_CAP,
    decreases k,
{
    if k > 0 {
        lemma_kept_len(vals, k - 1);
    }
}

/// Where `v` stands in the strictly sorted `keys`: found at `r.1`, or to be
/// inserted there.
fn find_key(keys: &Vec<Vec<char>>, v: &[char]) -> (r: (bool, usize))
    requires
        strictly_sorted(key_texts(keys@)),
    ensures
        r.1 <= keys@.len(),
        r.0 ==> r.1 < keys@.len() && keys@[r.1 as int]@ == v@,
        !r.0 ==> (forall|i: int| 0 <= i < r.1 ==> text_lt(keys@[i]@, v@)) && (forall|j: int|
            r.1 <= j < keys@.len() ==> text_lt(v@, keys@[j]@)),
{
    let mut lo: usize = 0;
    let mut hi: usize = keys.len();
    while lo < hi
        invariant
            lo <= hi <= keys@.len(),
            strictly_sorted(key_texts(keys@)),
            forall|i: int| 0 <= i < lo ==> text_lt(keys@[i]@, v@),
            forall|j: int| hi <= j < keys@.len() ==> text_lt(v@, keys@[j]@),
        decreases hi - lo,
    {
        let mid = lo + (hi - lo) / 2;
        let c = compare_text(&keys[mid], v);
        if c == 0 {
            return (true, mid);
        } else if c < 0 {
            assert forall|i: int| 0 <= i < mid + 1 implies text_lt(keys@[i]@, v@) by {
                if lo <= i < mid {
                    assert(key_texts(keys@)[i] == keys@[i]@);
                    assert(key_texts(keys@)[mid as int] == keys@[mid as int]@);
                    lemma_text_trans(keys@[i]@, keys@[mid as int]@, v@);
                }
            }
            lo = mid + 1;
        } else {
            assert forall|j: int| mid <= j < keys@.len() implies text_lt(v@, keys@[j]@) by {
                if mid < j < hi {
                    assert(key_texts(keys@)[j] == keys@[j]@);
                    assert(key_texts(keys@)[mid as int] == keys@[mid as int]@);
                    lemma_text_trans(v@, keys@[mid as int]@, keys@[j]@);
                }
            }
            hi = mid;
        }
    }
    (false, lo)
}

/// Tallies the values that the data lines (`data_start..`) show in column
/// `col`: the first `EXACT_COUNT_CAP` distinct values met are counted exactly
/// (`hit_cap` when that many were met), and the smallest
/// `MAX_DISTINCT_VALUES` of them are listed in strictly ascending dictionary
/// order, each with the number of rows that show it; `truncated` says that
/// the list or the tally is cut.
pub fn distinct_tally(lines: &[String], delim: u8, col: usize, data_start: usize) -> (r:
    DistinctTally)
    ensures
        ({
            let vals = row_values(lines@, delim, col as int, data_start as int);
            let kept = kept_values(vals, vals.len() as int);
            let shown = r.values@.map_values(|e: (String, u64)| e.0@);
            &&& r.distinct == kept.len()
            &&& r.hit_cap == (kept.len() >= EXACT_COUNT_CAP)
            &&& r.truncated == (r.hit_cap || kept.len() > MAX_DISTINCT_VALUES)
            &&& r.values@.len() == if kept.len() < MAX_DISTINCT_VALUES {
                kept.len()
            } else {
                MAX_DISTINCT_VALUES as nat
            }
            &&& strictly_sorted(shown)
            &&& forall|i: int|
                0 <= i < r.values@.len() ==> kept.contains(#[trigger] r.values@[i].0@)
                    && r.values@[i].1 == occurrences(vals, vals.len() as int, r.values@[i].0@)
            &&& forall|x: Seq<char>|
                #[trigger] kept.contains(x) && !shown.contains(x) ==> r.values@.len()
                    == MAX_DISTINCT_VALUES && text_lt(shown.last(), x)
        }),
{
    let ghost vals = row_values(lines@, delim, col as int, data_start as int);
    let mut keys: Vec<Vec<char>> = Vec::new();
    let mut counts: Vec<u64> = Vec::new();
    let n: usize = if lines.len() <= data_start {
        0
    } else {
        lines.len() - data_start
    };
    let line_count = lines.len();
    let mut k: usize = 0;
    while k < n
        invariant
            line_count == lines@.len(),
            k <= n == vals.len(),
            vals == row_values(lines@, delim, col as int, data_start as int),
            n > 0 ==> data_start + n == lines@.len(),
            keys@.len() == counts@.len() == kept_values(vals, k as int).len(),
            forall|x: Seq<char>|
                key_texts(keys@).contains(x) <==> kept_values(vals, k as int).contains(x),
            strictly_sorted(key_texts(keys@)),
            forall|i: int|
                0 <= i < counts@.len() ==> counts@[i] == occurrences(
                    vals,
                    k as int,
                    #[trigger] keys@[i]@,
                ),
            forall|j: int|
                0 <= j < k && !kept_values(vals, k as int).contains(#[trigger] vals[j])
                    ==> kept_values(vals, k as int).len() >= EXACT_COUNT_CAP,
        decreases n - k,
    {
        assert(data_start + k < lines@.len());
        let value = line_field_value(lines[data_start + k].as_str(), delim, col);
        let v = chars_of(value.as_str());
        assert(v@ == vals[k as int]);
        let ghost kept = kept_values(vals, k as int);
        let ghost old_keys = key_texts(keys@);
        proof {
            lemma_kept_len(vals, k as int);
            assert(kept_values(vals, k + 1) == if kept.contains(vals[k as int]) || kept.len()
                >= EXACT_COUNT_CAP {
                kept
            } else {
                kept.push(vals[k as int])
            });
        }
        let (found, pos) = find_key(&keys, &v);
        if found {
            proof {
                lemma_occurrences_bound(vals, k as int, v@);
                assert(old_keys[pos as int] == v@);
                assert(kept.contains(v@));
            }
            let c = counts[pos];
            counts.set(pos, c + 1);
            proof {
                assert forall|i: int| 0 <= i < counts@.len() implies counts@[i] == occurrences(
                    vals,
                    k + 1,
                    #[trigger] keys@[i]@,
                ) by {
                    if i != pos {
                        assert(old_keys[i] == keys@[i]@);
                        lemma_text_total(old_keys[i], old_keys[pos as int]);
                        if i < pos {
                            assert(text_lt(old_keys[i], old_keys[pos as int]));
                        } else {
                            assert(text_lt(old_keys[pos as int], old_keys[i]));
                            lemma_text_total(old_keys[pos as int], old_keys[i]);
                        }
                    }
                }
            }
        } else if keys.len() < EXACT_COUNT_CAP {
            proof {
                assert(!kept.contains(v@)) by {
                    if kept.contains(v@) {
                        let i = choose|i: int| 0 <= i < old_keys.len() && old_keys[i] == v@;
                        if i < pos {
                            lemma_text_total(old_keys[i], v@);
                        } else {
                            lemma_text_total(v@, old_keys[i]);
                        }
                    }
                }
                assert forall|j: int| 0 <= j < k implies vals[j] != v@ by {
                    assert(kept.contains(vals[j]));
                }
                lemma_occurrences_none(vals, k as int, v@);
            }
            keys.insert(pos, v);
            counts.insert(pos, 1);
            let ghost new_kept = kept.push(vals[k as int]);
            proof {
                assert(key_texts(keys@) =~= old_keys.insert(pos as int, v@));
                assert forall|x: Seq<char>|
                    key_texts(keys@).contains(x) <==> new_kept.contains(x) by {
                    if key_texts(keys@).contains(x) {
                        let i = choose|i: int| 0 <= i < key_texts(keys@).len() && key_texts(keys@)[i] == x;
                        if i == pos {
                            assert(new_kept[kept.len() as int] == x);
                        } else {
                            let oi = if i < pos { i } else { i - 1 };
                            assert(old_keys[oi] == x);
                            assert(old_keys.contains(x));
                            assert(kept.contains(x));
                            let i2 = choose|i2: int| 0 <= i2 < kept.len() && kept[i2] == x;
                            assert(new_kept[i2] == x);
                        }
                    }
                    if new_kept.contains(x) {
                        let i = choose|i: int| 0 <= i < new_kept.len() && new_kept[i] == x;
                        if i < kept.len() {
                            assert(kept.contains(x));
                            let i2 = choose|i2: int| 0 <= i2 < old_keys.len() && old_keys[i2] == x;
                            if i2 < pos {
                                assert(key_texts(keys@)[i2] == x);
                            } else {
                                assert(key_texts(keys@)[i2 + 1] == x);
                            }
                        } else {
                            assert(key_texts(keys@)[pos as int] == x);
                        }
                    }
                }
                assert forall|a: int, b: int| 0 <= a < b < key_texts(keys@).len() implies text_lt(
                    key_texts(keys@)[a],
                    key_texts(keys@)[b],
                ) by {
                    let nk = key_texts(keys@);
                    if b < pos {
                        assert(nk[a] == old_keys[a] && nk[b] == old_keys[b]);
                    } else if b == pos {
                        assert(nk[a] == old_keys[a]);
                    } else if a == pos {
                        assert(nk[b] == old_keys[b - 1]);
                    } else if a < pos {
                        assert(nk[a] == old_keys[a] && nk[b] == old_keys[b - 1]);
                        lemma_text_trans(old_keys[a], v@, old_keys[b - 1]);
                    } else {
                        assert(nk[a] == old_keys[a - 1] && nk[b] == old_keys[b - 1]);
                    }
                }
                assert forall|i: int| 0 <= i < counts@.len() implies counts@[i] == occurrences(
                    vals,
                    k + 1,
                    #[trigger] keys@[i]@,
                ) by {
                    if i != pos {
                        let oi = if i < pos { i } else { i - 1 };
                        assert(keys@[i]@ == old_keys[oi]);
                        assert(old_keys.contains(old_keys[oi]));
                        assert(old_keys[oi] != v@);
                    }
                }
                assert forall|j: int|
                    0 <= j < k + 1 && !new_kept.contains(#[trigger] vals[j]) implies new_kept.len()
                    >= EXACT_COUNT_CAP by {
                    if j < k {
                        assert(kept.contains(vals[j]));
                        let i = choose|i: int| 0 <= i < kept.len() && kept[i] == vals[j];
                        assert(new_kept[i] == vals[j]);
                    } else {
                        assert(new_kept[kept.len() as int] == vals[j]);
                    }
                }
            }
        } else {
            proof {
                assert(!kept.contains(v@)) by {
                    if kept.contains(v@) {
                        let i = choose|i: int| 0 <= i < old_keys.len() && old_keys[i] == v@;
                        if i < pos {
                            lemma_text_total(old_keys[i], v@);
                        } else {
                            lemma_text_total(v@, old_keys[i]);
                        }
                    }
                }
                assert forall|i: int| 0 <= i < counts@.len() implies counts@[i] == occurrences(
                    vals,
                    k + 1,
                    #[trigger] keys@[i]@,
                ) by {
                    assert(old_keys[i] == keys@[i]@);
                    assert(old_keys.contains(old_keys[i]));
                }
            }
        }
        k += 1;
    }
    let ghost kept = kept_values(vals, n as int);
    let total = keys.len();
    let hit_cap = total >= EXACT_COUNT_CAP;
    let truncated = hit_cap || total > MAX_DISTINCT_VALUES;
    let take = if total < MAX_DISTINCT_VALUES {
        total
    } else {
        MAX_DISTINCT_VALUES
    };
    let mut values: Vec<(String, u64)> = Vec::new();
    let mut i: usize = 0;
    while i < take
        invariant
            i <= take <= keys@.len() == counts@.len(),
            values@.len() == i,
            forall|j: int|
                0 <= j < i ==> (#[trigger] values@[j]).0@ == keys@[j]@ && values@[j].1
                    == counts@[j],
        decreases take - i,
    {
        let s = string_from(&keys[i]);
        values.push((s, counts[i]));
        i += 1;
    }
    proof {
        let nk = key_texts(keys@);
        let shown = values@.map_values(|e: (String, u64)| e.0@);
        assert(shown =~= nk.take(take as int));
        assert forall|a: int, b: int| 0 <= a < b < shown.len() implies text_lt(shown[a], shown[b]) by {
            assert(shown[a] == nk[a] && shown[b] == nk[b]);
        }
        assert forall|j: int| 0 <= j < values@.len() implies kept.contains(
            #[trigger] values@[j].0@,
        ) && values@[j].1 == occurrences(vals, vals.len() as int, values@[j].0@) by {
            assert(nk[j] == keys@[j]@);
            assert(nk.contains(keys@[j]@));
        }
        assert forall|x: Seq<char>|
            #[trigger] kept.contains(x) && !shown.contains(x) implies values@.len()
                == MAX_DISTINCT_VALUES && text_lt(shown.last(), x) by {
            assert(nk.contains(x));
            let p = choose|p: int| 0 <= p < nk.len() && nk[p] == x;
            if p < take {
                assert(shown[p] == x);
            } else {
                assert(shown.last() == nk[take - 1]);
            }
        }
    }
    DistinctTally { values, truncated, hit_cap, distinct: total }
}


/// The number of distinct values of a column: exact while the tally stays
/// under `EXACT_COUNT_CAP`, an estimate beyond.
#[derive(Debug, Clone, Copy, PartialEq, Eq, Structural)]
pub enum DistinctCount {
    Exact(usize),
    Approx(u64),
}

/// The values to list with their counts, whether the list was cut, and the
/// number of distinct values.
pub struct DistinctResult {
    pub values: Vec<(String, u64)>,
    pub truncated: bool,
    pub count: DistinctCount,
}

/// Completes a tally: the count is the exact one unless the tally hit its
/// cap, and then the estimate `estimate` (of the whole column) stands.
pub fn distinct_result(tally: DistinctTally, estimate: u64) -> (r: DistinctResult)
    ensures
        r.values@ == tally.values@,
        r.truncated == tally.truncated,
        r.count == (if tally.hit_cap {
            DistinctCount::Approx(estimate)
        } else {
            DistinctCount::Exact(tally.distinct)
        }),
{
    let count = if tally.hit_cap {
        DistinctCount::Approx(estimate)
    } else {
        DistinctCount::Exact(tally.distinct)
    };
    DistinctResult { values: tally.values, truncated: tally.truncated, count }
}

/// Bits of a hash that pick the register.
pub const HLL_P: u64 = 14;

/// Number of registers of a sketch (`2^HLL_P`).
pub const HLL_M: usize = 16384;

/// The register that a hash updates: its top `HLL_P` bits.
pub open spec fn hll_bucket(hash: u64) -> int {
    (hash >> 50u64) as int
}

/// The rank that a hash offers its register: one more than the number of
/// leading zeros of the bits below the top `HLL_P`.
pub open spec fn hll_rank(hash: u64) -> int {
    vstd::std_specs::bits::u64_leading_zeros(hash << 14u64) + 1
}

/// The registers after taking in a hash: its register keeps the larger of
/// what it held and the rank that the hash offers.
pub open spec fn sketch_insert(regs: Seq<u8>, hash: u64) -> Seq<u8> {
    if hll_rank(hash) > regs[hll_bucket(hash)] {
        regs.update(hll_bucket(hash), hll_rank(hash) as u8)
    } else {
        regs
    }
}

proof fn lemma_hash_slot(hash: u64)
    ensures
        0 <= hll_bucket(hash) < HLL_M,
        1 <= hll_rank(hash) <= 65,
{
    assert(hash >> 50u64 < 16384u64) by (bit_vector);
    vstd::std_specs::bits::axiom_u64_leading_zeros(hash << 14u64);
}

/// Taking in the same hash twice leaves the registers as taking it in once.
pub proof fn lemma_sketch_insert_idempotent(regs: Seq<u8>, hash: u64)
    requires
        regs.len() == HLL_M,
    ensures
        sketch_insert(sketch_insert(regs, hash), hash) == sketch_insert(regs, hash),
{
    lemma_hash_slot(hash);
}

/// The registers do not depend on the order in which hashes are taken in.
pub proof fn lemma_sketch_insert_commutes(regs: Seq<u8>, h1: u64, h2: u64)
    requires
        regs.len() == HLL_M,
    ensures
        sketch_insert(sketch_insert(regs, h1), h2) == sketch_insert(sketch_insert(regs, h2), h1),
{
    lemma_hash_slot(h1);
    lemma_hash_slot(h2);
    assert(sketch_insert(sketch_insert(regs, h1), h2) =~= sketch_insert(sketch_insert(regs, h2), h1));
}

/// A HyperLogLog sketch: one byte per register, each the largest rank that
/// a hash of its bucket offered.
pub struct HllSketch {
    registers: Vec<u8>,
}

impl View for HllSketch {
    type V = Seq<u8>;

    closed spec fn view(&self) -> Seq<u8> {
        self.registers@
    }
}

impl HllSketch {
    #[verifier::type_invariant]
    spec fn registers_wf(self) -> bool {
        self.registers@.len() == HLL_M
    }

    /// A sketch that has seen nothing: every register 0.
    pub fn new() -> (r: Self)
        ensures
            r@ == Seq::new(HLL_M as nat, |i: int| 0u8),
    {
        let mut registers: Vec<u8> = Vec::new();
        let mut i: usize = 0;
        while i < HLL_M
            invariant
                i <= HLL_M,
                registers@ == Seq::new(i as nat, |j: int| 0u8),
            decreases HLL_M - i,
        {
            registers.push(0u8);
            assert(registers@ =~= Seq::new((i + 1) as nat, |j: int| 0u8));
            i += 1;
        }
        HllSketch { registers }
    }

    /// The registers, in bucket order.
    pub fn registers(&self) -> (r: &[u8])
        ensures
            r@ == self@,
            r@.len() == HLL_M,
    {
        proof {
            use_type_invariant(self);
        }
        self.registers.as_slice()
    }

    /// Raises register `idx` to `rank` where it held less.
    fn raise(&mut self, idx: usize, rank: u8)
        requires
            idx < old(self)@.len(),
        ensures
            final(self)@ == (if rank > old(self)@[idx as int] {
                old(self)@.update(idx as int, rank)
            } else {
                old(self)@
            }),
        no_unwind
    {
        proof {
            use_type_invariant(&*self);
        }
        if rank > self.registers[idx] {
            self.registers[idx] = rank;
        }
    }

    /// Takes in the hash of one value: its register keeps the larger of what
    /// it held and the rank that the hash offers.
    pub fn insert_hash(&mut self, hash: u64)
        ensures
            old(self)@.len() == HLL_M,
            final(self)@ == sketch_insert(old(self)@, hash),
    {
        proof {
            use_type_invariant(&*self);
        }
        assert(hash >> 50u64 < 16384u64) by (bit_vector);
        let idx = (hash >> 50u64) as usize;
        let rest = hash << 14u64;
        let zeros = rest.leading_zeros();
        proof {
            vstd::std_specs::bits::axiom_u64_leading_zeros(rest);
        }
        let rank = (zeros + 1) as u8;
        self.raise(idx, rank);
    }
}

} // verus!
