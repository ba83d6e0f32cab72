//! The term-weight table and the corpus-derived weight formula.
//!
//! Weights are inverse-document-frequency values held in fixed point, in
//! thousandths: a weight of `1.0` is `1000`.  The natural logarithm of the
//! formula `ln((N+1)/(df+1)) + 1` is approximated in integer arithmetic as
//! the binary logarithm scaled by `693` (thousandths of `ln 2`), with linear
//! interpolation inside each octave.  Every weight is floored at `100`
//! (that is, `0.1`).

use vstd::arithmetic::div_mod::{
    lemma_div_is_ordered, lemma_div_multiples_vanish, lemma_fundamental_div_mod,
};
use vstd::arithmetic::mul::lemma_mul_inequality;
use vstd::arithmetic::power2::{lemma_pow2_strictly_increases, lemma2_to64, pow2};
use vstd::prelude::*;

verus! {

/// Lowest admissible weight, in thousandths: the `0.1` floor.
pub const MIN_WEIGHT_MILLI: u64 = 100;

/// Weight used for a token absent from the table, in thousandths: `1.0`.
pub const DEFAULT_WEIGHT_MILLI: u64 = 1000;

/// Largest weight a table may hold, in thousandths.
pub const MAX_WEIGHT_MILLI: u64 = 1_000_000;

/// The views of an association list's entries.
pub open spec fn entry_views(entries: Seq<(String, u64)>) -> Seq<(Seq<char>, u64)> {
    Seq::new(entries.len(), |i: int| (entries[i].0@, entries[i].1))
}

/// The mapping an association list denotes (later entries override earlier
/// ones, which never happens under distinct keys).
pub open spec fn entries_map(s: Seq<(Seq<char>, u64)>) -> Map<Seq<char>, u64>
    decreases s.len(),
{
    if s.len() == 0 {
        Map::<Seq<char>, u64>::empty()
    } else {
        entries_map(s.drop_last()).insert(s.last().0, s.last().1)
    }
}

/// Keys of the association list are pairwise distinct.
pub open spec fn distinct_keys(s: Seq<(Seq<char>, u64)>) -> bool {
    forall|i: int, j: int| 0 <= i < j < s.len() ==> s[i].0 != s[j].0
}

/// Under distinct keys, the denoted map holds exactly the listed pairs.
pub proof fn lemma_entries_map_props(s: Seq<(Seq<char>, u64)>)
    requires
        distinct_keys(s),
    ensures
        forall|t: Seq<char>|
            #[trigger] entries_map(s).contains_key(t) <==> exists|i: int|
                0 <= i < s.len() && s[i].0 == t,
        forall|i: int| 0 <= i < s.len() ==> entries_map(s)[#[trigger] s[i].0] == s[i].1,
    decreases s.len(),
{
    if s.len() > 0 {
        let prefix = s.drop_last();
        lemma_entries_map_props(prefix);
        assert forall|t: Seq<char>| #[trigger]
            entries_map(s).contains_key(t) <==> exists|i: int| 0 <= i < s.len() && s[i].0 == t by {
            if entries_map(s).contains_key(t) {
                if t == s.last().0 {
                    assert(s[s.len() - 1].0 == t);
                } else {
                    assert(entries_map(prefix).contains_key(t));
                    let i = choose|i: int| 0 <= i < prefix.len() && prefix[i].0 == t;
                    assert(s[i].0 == t);
                }
            }
            if exists|i: int| 0 <= i < s.len() && s[i].0 == t {
                let i = choose|i: int| 0 <= i < s.len() && s[i].0 == t;
                if i < s.len() - 1 {
                    assert(prefix[i].0 == t);
                    assert(entries_map(prefix).contains_key(t));
                }
            }
        }
        assert forall|i: int| 0 <= i < s.len() implies entries_map(s)[#[trigger] s[i].0]
            == s[i].1 by {
            if i < s.len() - 1 {
                assert(prefix[i].0 == s[i].0 && prefix[i].1 == s[i].1);
                assert(s[i].0 != s.last().0);
            }
        }
    }
}

/// The token-to-weight table built from the reference corpus.  An empty
/// table is the explicit "no weighting" state, not an error.
pub struct TermWeightTable {
    entries: Vec<(String, u64)>,
}

impl TermWeightTable {
    /// The entries as (token view, weight) pairs.
    pub closed spec fn entry_seq(&self) -> Seq<(Seq<char>, u64)> {
        entry_views(self.entries@)
    }

    /// The token-to-weight mapping this table holds.
    pub closed spec fn map_view(&self) -> Map<Seq<char>, u64> {
        entries_map(self.entry_seq())
    }

    /// Well-formed: tokens are distinct and every weight lies between the
    /// `0.1` floor and the fixed-point maximum.
    pub closed spec fn wf(&self) -> bool {
        &&& distinct_keys(self.entry_seq())
        &&& forall|i: int|
            0 <= i < self.entry_seq().len() ==> MIN_WEIGHT_MILLI <= (
            #[trigger] self.entry_seq()[i]).1 <= MAX_WEIGHT_MILLI
    }

    /// Every weight a well-formed table holds respects the bounds.
    pub proof fn lemma_weights_bounded(&self)
        requires
            self.wf(),
        ensures
            forall|t: Seq<char>|
                #[trigger] self.map_view().contains_key(t) ==> MIN_WEIGHT_MILLI
                    <= self.map_view()[t] <= MAX_WEIGHT_MILLI,
    {
        lemma_entries_map_props(self.entry_seq());
        assert forall|t: Seq<char>| #[trigger]
            self.map_view().contains_key(t) implies MIN_WEIGHT_MILLI <= self.map_view()[t]
            <= MAX_WEIGHT_MILLI by {
            let i = choose|i: int|
                0 <= i < self.entry_seq().len() && self.entry_seq()[i].0 == t;
            assert(self.map_view()[t] == self.entry_seq()[i].1);
        }
    }

    /// An empty table.
    pub fn new() -> (r: Self)
        ensures
            r.wf(),
            r.map_view() == Map::<Seq<char>, u64>::empty(),
    {
        let r = TermWeightTable { entries: Vec::new() };
        proof {
            assert(r.entry_seq() =~= Seq::<(Seq<char>, u64)>::empty());
        }
        r
    }

    /// Whether the table maps no token at all.
    pub fn is_empty(&self) -> (r: bool)
        requires
            self.wf(),
        ensures
            r == (self.map_view() == Map::<Seq<char>, u64>::empty()),
    {
        let r = self.entries.len() == 0;
        proof {
            if self.entries.len() == 0 {
                assert(self.entry_seq() =~= Seq::<(Seq<char>, u64)>::empty());
            } else {
                lemma_entries_map_props(self.entry_seq());
                assert(self.entry_seq()[0].0 == self.entry_seq()[0].0);
                assert(self.map_view().contains_key(self.entry_seq()[0].0));
                assert(self.map_view() != Map::<Seq<char>, u64>::empty());
            }
        }
        r
    }

    /// Number of tokens mapped.
    pub fn len(&self) -> (r: usize)
        requires
            self.wf(),
        ensures
            r == self.map_view().dom().len(),
    {
        proof {
            lemma_entries_keys_len(self.entry_seq());
        }
        self.entries.len()
    }

    /// Add a weight for a token the table does not yet hold.
    pub fn insert(&mut self, token: String, weight: u64)
        requires
            old(self).wf(),
            !old(self).map_view().contains_key(token@),
            MIN_WEIGHT_MILLI <= weight <= MAX_WEIGHT_MILLI,
        ensures
            final(self).wf(),
            final(self).map_view() == old(self).map_view().insert(token@, weight),
    {
        proof {
            lemma_entries_map_props(self.entry_seq());
        }
        let ghost old_seq = self.entry_seq();
        let ghost tv = token@;
        self.entries.push((token, weight));
        proof {
            assert(self.entry_seq() =~= old_seq.push((tv, weight)));
            assert(self.entry_seq().drop_last() =~= old_seq);
            assert forall|i: int, j: int|
                0 <= i < j < self.entry_seq().len() implies self.entry_seq()[i].0
                != self.entry_seq()[j].0 by {
                if j == self.entry_seq().len() - 1 {
                    if old_seq[i].0 == tv {
                        assert(entries_map(old_seq).contains_key(tv));
                    }
                }
            }
        }
    }

    /// Look the token's weight up; `None` when the table does not hold it.
    pub fn get(&self, token: &String) -> (r: Option<u64>)
        requires
            self.wf(),
        ensures
            r == (if self.map_view().contains_key(token@) {
                Some(self.map_view()[token@])
            } else {
                None::<u64>
            }),
    {
        proof {
            lemma_entries_map_props(self.entry_seq());
        }
        let mut i: usize = 0;
        while i < self.entries.len()
            invariant
                i <= self.entries.len(),
                self.wf(),
                forall|j: int| 0 <= j < i ==> (#[trigger] self.entry_seq()[j]).0 != token@,
            decreases self.entries.len() - i,
        {
            if self.entries[i].0.eq(token) {
                proof {
                    assert(self.entry_seq()[i as int].0 == token@);
                    lemma_entries_map_props(self.entry_seq());
                }
                return Some(self.entries[i].1);
            }
            proof {
                assert(self.entry_seq()[i as int].0 == self.entries@[i as int].0@);
            }
            i = i + 1;
        }
        proof {
            if self.map_view().contains_key(token@) {
                let j = choose|j: int|
                    0 <= j < self.entry_seq().len() && self.entry_seq()[j].0 == token@;
                assert(false);
            }
        }
        None
    }

    /// The weight used for a token when scoring: the table's entry, or the
    /// default `1.0` when the table does not hold the token.
    pub fn weight_for(&self, token: &String) -> (r: u64)
        requires
            self.wf(),
        ensures
            r == weight_of(self.map_view(), token@),
    {
        match self.get(token) {
            Some(w) => w,
            None => DEFAULT_WEIGHT_MILLI,
        }
    }
}

/// Distinct keys denote a map with as many keys as entries.
proof fn lemma_entries_keys_len(s: Seq<(Seq<char>, u64)>)
    requires
        distinct_keys(s),
    ensures
        entries_map(s).dom().finite(),
        entries_map(s).dom().len() == s.len(),
    decreases s.len(),
{
    if s.len() == 0 {
        assert(entries_map(s).dom() =~= Set::<Seq<char>>::empty());
    } else {
        let prefix = s.drop_last();
        lemma_entries_keys_len(prefix);
        lemma_entries_map_props(prefix);
        assert(!entries_map(prefix).contains_key(s.last().0));
        assert(entries_map(s).dom() =~= entries_map(prefix).dom().insert(s.last().0));
    }
}

/// The weight a mapping gives a token: the mapped weight, default `1.0`.
pub open spec fn weight_of(m: Map<Seq<char>, u64>, t: Seq<char>) -> u64 {
    if m.contains_key(t) {
        m[t]
    } else {
        DEFAULT_WEIGHT_MILLI
    }
}

/// The largest `k` with `b * 2^k <= a` (for `1 <= b <= a`).
pub open spec fn log2_floor(a: int, b: int) -> int
    decreases a - b when 1 <= b <= a
{
    if 2 * b <= a {
        1 + log2_floor(a, 2 * b)
    } else {
        0
    }
}

/// `log2_floor` is nonnegative and maximal: `b * 2^k <= a < b * 2^(k+1)`.
pub proof fn lemma_log2_floor_bounds(a: int, b: int)
    requires
        1 <= b <= a,
    ensures
        0 <= log2_floor(a, b),
        b * (pow2(log2_floor(a, b) as nat) as int) <= a,
        a < 2 * (b * (pow2(log2_floor(a, b) as nat) as int)),
    decreases a - b,
{
    if 2 * b <= a {
        lemma_log2_floor_bounds(a, 2 * b);
        let k = log2_floor(a, 2 * b);
        assert(k >= 0);
        assert(log2_floor(a, b) == 1 + k);
        assert(pow2((k + 1) as nat) == 2 * pow2(k as nat)) by {
            vstd::arithmetic::power2::lemma_pow2_unfold((k + 1) as nat);
        }
        assert(b * (pow2((k + 1) as nat) as int) == (2 * b) * (pow2(k as nat) as int))
            by (nonlinear_arith)
            requires
                pow2((k + 1) as nat) == 2 * pow2(k as nat),
        ;
        assert((2 * b) * (pow2(k as nat) as int) <= a);
        assert(a < 2 * ((2 * b) * (pow2(k as nat) as int)));
        assert(pow2(log2_floor(a, b) as nat) == pow2((k + 1) as nat));
        assert(b * (pow2(log2_floor(a, b) as nat) as int) <= a);
        assert(a < 2 * (b * (pow2(log2_floor(a, b) as nat) as int)));
    } else {
        assert(log2_floor(a, b) == 0);
        assert(pow2(0) == 1) by {
            lemma2_to64();
        }
        assert(b * (pow2(0) as int) == b) by (nonlinear_arith)
            requires
                pow2(0) == 1,
        ;
    }
}

/// Fixed-point approximation of `1000 * ln(a/b)` for `1 <= b <= a`: the
/// binary logarithm scaled by `693`, linearly interpolated within the
/// octave.
pub open spec fn ln_milli(a: int, b: int) -> int {
    let k = log2_floor(a, b);
    let s = a * 1024 / (b * (pow2(k as nat) as int));
    693 * k + (s - 1024) * 693 / 1024
}

/// The corpus weight of a token seen in `df` of `docs` documents:
/// `ln((docs+1)/(df+1)) + 1` in thousandths, floored at `0.1`.
pub open spec fn idf_weight_spec(docs: int, df: int) -> int {
    let w = 1000 + ln_milli(docs + 1, df + 1);
    if w < MIN_WEIGHT_MILLI as int {
        MIN_WEIGHT_MILLI as int
    } else {
        w
    }
}

/// The interpolation term lies in `[1024, 2048)` and the approximation is
/// nonnegative and bounded.
pub proof fn lemma_ln_milli_bounds(a: int, b: int)
    requires
        1 <= b <= a,
    ensures
        0 <= ln_milli(a, b) <= 693 * log2_floor(a, b) + 692,
        0 <= log2_floor(a, b),
{
    lemma_log2_floor_bounds(a, b);
    let k = log2_floor(a, b);
    let d = b * (pow2(k as nat) as int);
    let s = a * 1024 / d;
    assert(d >= 1) by {
        vstd::arithmetic::power2::lemma_pow2_pos(k as nat);
        lemma_mul_inequality(1, b, pow2(k as nat) as int);
    }
    assert(d * 1024 <= a * 1024) by (nonlinear_arith)
        requires
            d <= a,
    ;
    lemma_div_is_ordered(d * 1024, a * 1024, d);
    lemma_div_multiples_vanish(1024, d);
    assert(s >= 1024);
    lemma_fundamental_div_mod(a * 1024, d);
    assert(a * 1024 < 2048 * d) by (nonlinear_arith)
        requires
            a < 2 * d,
    ;
    assert(s < 2048) by (nonlinear_arith)
        requires
            a * 1024 == d * s + (a * 1024) % d,
            0 <= (a * 1024) % d,
            a * 1024 < 2048 * d,
            d >= 1,
    ;
    assert((s - 1024) * 693 / 1024 >= 0) by (nonlinear_arith)
        requires
            s >= 1024,
    ;
    assert((s - 1024) * 693 <= 1023 * 693) by (nonlinear_arith)
        requires
            s < 2048,
    ;
    lemma_div_is_ordered((s - 1024) * 693, 1023int * 693, 1024);
    assert(1023 * 693 / 1024 == 692);
}

/// Corpus weights stay within the fixed-point range of the table.
pub proof fn lemma_idf_weight_bounds(docs: int, df: int)
    requires
        1 <= df <= docs,
        docs < 0x1_0000_0000_0000_0000,
    ensures
        1000 <= idf_weight_spec(docs, df),
        idf_weight_spec(docs, df) <= MAX_WEIGHT_MILLI as int,
{
    lemma_ln_milli_bounds(docs + 1, df + 1);
    let k = log2_floor(docs + 1, df + 1);
    lemma_log2_floor_bounds(docs + 1, df + 1);
    assert(k <= 64) by {
        if k >= 65 {
            assert(pow2(64) == 0x1_0000_0000_0000_0000) by {
                lemma2_to64();
                vstd::arithmetic::power2::lemma2_to64_rest();
            }
            if k > 64 {
                lemma_pow2_strictly_increases(64, k as nat);
            }
            assert(pow2(k as nat) >= 0x1_0000_0000_0000_0000);
            assert((df + 1) * pow2(k as nat) >= 2 * 0x1_0000_0000_0000_0000) by (nonlinear_arith)
                requires
                    df + 1 >= 2,
                    pow2(k as nat) >= 0x1_0000_0000_0000_0000,
            ;
        }
    }
}

/// A token present in every document of a corpus weighs strictly less than
/// a token present in exactly one document, and no weight falls below the
/// `0.1` floor.
pub proof fn lemma_common_token_weighs_less(docs: int)
    requires
        docs >= 2,
    ensures
        idf_weight_spec(docs, docs) == 1000,
        idf_weight_spec(docs, 1) > idf_weight_spec(docs, docs),
        forall|df: int| 1 <= df <= docs ==> #[trigger] idf_weight_spec(docs, df) >= 1000,
{
    let a = docs + 1;
    assert forall|df: int| 1 <= df <= docs implies #[trigger] idf_weight_spec(docs, df)
        >= 1000 by {
        lemma_ln_milli_bounds(a, df + 1);
    }
    // A token in every document: the ratio is 1, the weight exactly 1.0.
    assert(log2_floor(a, a) == 0);
    assert(pow2(0) == 1) by {
        lemma2_to64();
    }
    assert(a * 1024 / (a * 1) == 1024) by {
        lemma_div_multiples_vanish(1024, a);
        assert(a * 1024 == 1024 * a || a * 1024 == a * 1024);
        assert(a * 1 == a);
        assert(a * 1024 / a == 1024);
    }
    assert(ln_milli(a, a) == 0);
    // A token in exactly one document: the ratio is at least 3/2.
    if a >= 4 {
        assert(2 * 2 <= a);
        assert(log2_floor(a, 2) >= 1) by {
            lemma_log2_floor_bounds(a, 4);
        }
        lemma_ln_milli_bounds(a, 2);
        let k = log2_floor(a, 2);
        let s = a * 1024 / (2 * (pow2(k as nat) as int));
        assert((s - 1024) * 693 / 1024 >= 0) by {
            lemma_log2_floor_bounds(a, 2);
            let d = 2 * (pow2(k as nat) as int);
            assert(d >= 1) by {
                vstd::arithmetic::power2::lemma_pow2_pos(k as nat);
            }
            assert(d * 1024 <= a * 1024) by (nonlinear_arith)
                requires
                    d <= a,
            ;
            lemma_div_is_ordered(d * 1024, a * 1024, d);
            lemma_div_multiples_vanish(1024, d);
        }
        assert(ln_milli(a, 2) >= 693);
    } else {
        // docs == 2: the ratio is 3/2 and the interpolation gives 346.
        assert(a == 3);
        assert(log2_floor(3, 2) == 0);
        assert(3072int / 2 == 1536) by (nonlinear_arith);
        assert(3 * 1024 == 3072 && 2 * 1 == 2);
        assert(512int * 693 / 1024 == 346) by (nonlinear_arith);
        assert(ln_milli(3, 2) == 346);
    }
}

/// Compute the corpus weight for a token seen in `df` of `docs` documents.
pub fn idf_weight_milli(docs: usize, df: usize) -> (r: u64)
    requires
        1 <= df <= docs,
    ensures
        r == idf_weight_spec(docs as int, df as int),
        MIN_WEIGHT_MILLI <= r <= MAX_WEIGHT_MILLI,
{
    let a: u128 = docs as u128 + 1;
    let ghost a_int = docs as int + 1;
    let ghost b_int = df as int + 1;
    let mut bb: u128 = df as u128 + 1;
    let mut k: u64 = 0;
    proof {
        assert(pow2(0) == 1) by {
            lemma2_to64();
        }
        lemma_idf_weight_bounds(docs as int, df as int);
    }
    while 2 * bb <= a
        invariant
            a == docs as u128 + 1,
            a == a_int,
            a_int == docs as int + 1,
            b_int == df as int + 1,
            1 <= df <= docs,
            1 <= bb <= a,
            bb == b_int * (pow2(k as nat) as int),
            log2_floor(a_int, b_int) == k + log2_floor(a_int, bb as int),
            k <= 64,
        decreases a - bb,
    {
        proof {
            assert(pow2((k + 1) as nat) == 2 * pow2(k as nat)) by {
                vstd::arithmetic::power2::lemma_pow2_unfold((k + 1) as nat);
            }
            assert(2 * (b_int * (pow2(k as nat) as int)) == b_int * (pow2((k + 1) as nat) as int))
                by (nonlinear_arith)
                requires
                    pow2((k + 1) as nat) == 2 * pow2(k as nat),
            ;
            assert(log2_floor(a_int, bb as int) == 1 + log2_floor(a_int, 2 * bb as int));
            assert(k < 64) by {
                if k == 64 {
                    assert(pow2(64) == 0x1_0000_0000_0000_0000) by {
                        lemma2_to64();
                        vstd::arithmetic::power2::lemma2_to64_rest();
                    }
                    assert(bb >= 2 * 0x1_0000_0000_0000_0000) by (nonlinear_arith)
                        requires
                            bb == b_int * (pow2(64) as int),
                            b_int >= 2,
                            pow2(64) == 0x1_0000_0000_0000_0000,
                    ;
                }
            }
        }
        bb = 2 * bb;
        k = k + 1;
    }
    let ghost d_int = b_int * (pow2(k as nat) as int);
    proof {
        assert(log2_floor(a_int, bb as int) == 0);
        assert(log2_floor(a_int, b_int) == k);
        lemma_ln_milli_bounds(a_int, b_int);
        assert(bb == d_int);
    }
    let s: u128 = a * 1024 / bb;
    proof {
        assert(a * 1024 == a_int * 1024);
        assert(s == a_int * 1024 / d_int);
        assert(d_int >= 1) by {
            vstd::arithmetic::power2::lemma_pow2_pos(k as nat);
            lemma_mul_inequality(1, b_int, pow2(k as nat) as int);
        }
        assert(d_int * 1024 <= a_int * 1024) by (nonlinear_arith)
            requires
                d_int <= a_int,
        ;
        lemma_div_is_ordered(d_int * 1024, a_int * 1024, d_int);
        lemma_div_multiples_vanish(1024, d_int);
        assert(s >= 1024);
        lemma_fundamental_div_mod(a_int * 1024, d_int);
        lemma_log2_floor_bounds(a_int, b_int);
        assert(a_int * 1024 < 2048 * d_int) by (nonlinear_arith)
            requires
                a_int < 2 * d_int,
        ;
        assert(s < 2048) by (nonlinear_arith)
            requires
                a_int * 1024 == d_int * (a_int * 1024 / d_int) + (a_int * 1024) % d_int,
                s == a_int * 1024 / d_int,
                0 <= (a_int * 1024) % d_int,
                a_int * 1024 < 2048 * d_int,
                d_int >= 1,
        ;
    }
    let f: u128 = (s - 1024) * 693 / 1024;
    let w: u128 = 1000 + 693 * (k as u128) + f;
    proof {
        assert(w == idf_weight_spec(docs as int, df as int));
    }
    w as u64
}

} // verus!
