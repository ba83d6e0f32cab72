//! Local skill matching.
//!
//! Scores a skill set against a document's text.  Scores are percentages in
//! fixed point: thousandths of a percent, so a full match is 100_000.
//!
//! Two modes exist.  The unweighted mode deduplicates the skill tokens and
//! scores by plain set overlap.  The weighted mode (see
//! [`crate::matching::compute_weighted_match`]) walks the skill token list
//! as given, repeats included, and weights each token by the term-weight
//! table.  This asymmetry in duplicate handling is deliberate and preserved.

use vstd::arithmetic::div_mod::{lemma_div_is_ordered, lemma_div_multiples_vanish};
use vstd::prelude::*;

use crate::text::{normalize_spec, normalize_token, tokenize, tokenize_spec};
use crate::weights::{weight_of, TermWeightTable, MAX_WEIGHT_MILLI};

verus! {

/// The normalized forms of the given skill strings, empty results dropped,
/// order and repeats kept.
pub open spec fn norm_tokens(skills: Seq<Seq<char>>) -> Seq<Seq<char>>
    decreases skills.len(),
{
    if skills.len() == 0 {
        Seq::<Seq<char>>::empty()
    } else {
        let rest = norm_tokens(skills.drop_last());
        let t = normalize_spec(skills.last());
        if t.len() > 0 {
            rest.push(t)
        } else {
            rest
        }
    }
}

/// First-occurrence deduplication.
pub open spec fn dedup_seq(s: Seq<Seq<char>>) -> Seq<Seq<char>>
    decreases s.len(),
{
    if s.len() == 0 {
        Seq::<Seq<char>>::empty()
    } else {
        let prefix = dedup_seq(s.drop_last());
        if s.drop_last().contains(s.last()) {
            prefix
        } else {
            prefix.push(s.last())
        }
    }
}

/// The distinct normalized skill tokens of a skill list, in first-occurrence
/// order.
pub open spec fn distinct_skill_tokens(skills: Seq<Seq<char>>) -> Seq<Seq<char>> {
    dedup_seq(norm_tokens(skills))
}

/// Deduplication keeps exactly the original elements.
pub proof fn lemma_dedup_contains(s: Seq<Seq<char>>)
    ensures
        forall|t: Seq<char>| dedup_seq(s).contains(t) == s.contains(t),
    decreases s.len(),
{
    if s.len() > 0 {
        lemma_dedup_contains(s.drop_last());
        let prefix = dedup_seq(s.drop_last());
        assert forall|t: Seq<char>| dedup_seq(s).contains(t) == s.contains(t) by {
            if s.contains(t) {
                let i = choose|i: int| 0 <= i < s.len() && s[i] == t;
                if i < s.len() - 1 {
                    assert(s.drop_last()[i] == t);
                    assert(s.drop_last().contains(t));
                    assert(prefix.contains(t));
                    if !s.drop_last().contains(s.last()) {
                        let j = choose|j: int| 0 <= j < prefix.len() && prefix[j] == t;
                        assert(dedup_seq(s)[j] == t);
                    }
                } else {
                    if s.drop_last().contains(s.last()) {
                        assert(prefix.contains(t));
                    } else {
                        assert(dedup_seq(s)[dedup_seq(s).len() - 1] == t);
                    }
                }
            }
            if dedup_seq(s).contains(t) {
                let j = choose|j: int| 0 <= j < dedup_seq(s).len() && dedup_seq(s)[j] == t;
                if s.drop_last().contains(s.last()) {
                    assert(s.drop_last().contains(t));
                    let i = choose|i: int| 0 <= i < s.drop_last().len() && s.drop_last()[i] == t;
                    assert(s[i] == t);
                } else {
                    if j < prefix.len() {
                        assert(prefix.contains(t));
                        assert(s.drop_last().contains(t));
                        let i = choose|i: int|
                            0 <= i < s.drop_last().len() && s.drop_last()[i] == t;
                        assert(s[i] == t);
                    } else {
                        assert(t == s.last());
                        assert(s[s.len() - 1] == t);
                    }
                }
            }
        }
    }
}

/// Deduplication leaves no duplicates.
pub proof fn lemma_dedup_distinct(s: Seq<Seq<char>>)
    ensures
        dedup_seq(s).no_duplicates(),
    decreases s.len(),
{
    if s.len() > 0 {
        lemma_dedup_distinct(s.drop_last());
        lemma_dedup_contains(s.drop_last());
        let prefix = dedup_seq(s.drop_last());
        if !s.drop_last().contains(s.last()) {
            assert(!prefix.contains(s.last()));
            assert forall|i: int, j: int|
                0 <= i < j < dedup_seq(s).len() implies dedup_seq(s)[i] != dedup_seq(s)[j] by {
                if j < prefix.len() {
                } else {
                    assert(dedup_seq(s)[j] == s.last());
                    assert(dedup_seq(s)[i] == prefix[i]);
                    if prefix[i] == s.last() {
                        assert(prefix.contains(s.last()));
                    }
                }
            }
        }
    }
}

/// The tokens of the skill list that occur in the document, in order.
pub open spec fn matched_tokens(tokens: Seq<Seq<char>>, job: Seq<Seq<char>>) -> Seq<Seq<char>>
    decreases tokens.len(),
{
    if tokens.len() == 0 {
        Seq::<Seq<char>>::empty()
    } else {
        let rest = matched_tokens(tokens.drop_last(), job);
        if job.contains(tokens.last()) {
            rest.push(tokens.last())
        } else {
            rest
        }
    }
}

/// The tokens of the skill list that do not occur in the document, in order.
pub open spec fn missing_tokens(tokens: Seq<Seq<char>>, job: Seq<Seq<char>>) -> Seq<Seq<char>>
    decreases tokens.len(),
{
    if tokens.len() == 0 {
        Seq::<Seq<char>>::empty()
    } else {
        let rest = missing_tokens(tokens.drop_last(), job);
        if job.contains(tokens.last()) {
            rest
        } else {
            rest.push(tokens.last())
        }
    }
}

/// The unweighted score: the matched fraction of the distinct skill tokens,
/// in thousandths of a percent.
pub open spec fn unweighted_score_spec(users: Seq<Seq<char>>, job: Seq<Seq<char>>) -> int {
    if users.len() == 0 {
        0
    } else {
        (matched_tokens(users, job).len() as int) * 100_000 / (users.len() as int)
    }
}

/// Sum of the weights of all tokens of the list, repeats counted.
pub open spec fn total_weight(m: Map<Seq<char>, u64>, tokens: Seq<Seq<char>>) -> int
    decreases tokens.len(),
{
    if tokens.len() == 0 {
        0
    } else {
        total_weight(m, tokens.drop_last()) + weight_of(m, tokens.last())
    }
}

/// Sum of the weights of the tokens of the list that occur in the document.
pub open spec fn matched_weight(m: Map<Seq<char>, u64>, tokens: Seq<Seq<char>>, job: Seq<
    Seq<char>,
>) -> int
    decreases tokens.len(),
{
    if tokens.len() == 0 {
        0
    } else {
        matched_weight(m, tokens.drop_last(), job) + (if job.contains(tokens.last()) {
            weight_of(m, tokens.last()) as int
        } else {
            0
        })
    }
}

/// The weighted score: the matched share of the total token weight, in
/// thousandths of a percent.  The token list is walked as given, repeats
/// included.
pub open spec fn weighted_score_spec(
    m: Map<Seq<char>, u64>,
    tokens: Seq<Seq<char>>,
    job: Seq<Seq<char>>,
) -> int {
    if tokens.len() == 0 {
        0
    } else if total_weight(m, tokens) > 0 {
        matched_weight(m, tokens, job) * 100_000 / total_weight(m, tokens)
    } else {
        0
    }
}

/// The matched weight never exceeds the total weight, and both are
/// nonnegative.
pub proof fn lemma_weight_sums(m: Map<Seq<char>, u64>, tokens: Seq<Seq<char>>, job: Seq<Seq<char>>)
    ensures
        0 <= matched_weight(m, tokens, job) <= total_weight(m, tokens),
    decreases tokens.len(),
{
    if tokens.len() > 0 {
        lemma_weight_sums(m, tokens.drop_last(), job);
    }
}

/// Weighted and unweighted scores always lie between 0 and 100 percent
/// (100_000 in thousandths of a percent).
pub proof fn lemma_scores_in_range(
    m: Map<Seq<char>, u64>,
    users: Seq<Seq<char>>,
    tokens: Seq<Seq<char>>,
    job: Seq<Seq<char>>,
)
    ensures
        0 <= unweighted_score_spec(users, job) <= 100_000,
        0 <= weighted_score_spec(m, tokens, job) <= 100_000,
{
    if users.len() > 0 {
        lemma_match_counts(users, job);
        let mc = matched_tokens(users, job).len() as int;
        let n = users.len() as int;
        vstd::arithmetic::div_mod::lemma_div_pos_is_pos(mc * 100_000, n);
        lemma_div_is_ordered(mc * 100_000, n * 100_000, n);
        lemma_div_multiples_vanish(100_000, n);
    }
    if tokens.len() > 0 && total_weight(m, tokens) > 0 {
        lemma_weight_sums(m, tokens, job);
        let mw = matched_weight(m, tokens, job);
        let tw = total_weight(m, tokens);
        vstd::arithmetic::div_mod::lemma_div_pos_is_pos(mw * 100_000, tw);
        assert(mw * 100_000 <= tw * 100_000) by (nonlinear_arith)
            requires
                mw <= tw,
        ;
        lemma_div_is_ordered(mw * 100_000, tw * 100_000, tw);
        lemma_div_multiples_vanish(100_000, tw);
    }
}

/// The unweighted score reaches 100 percent exactly when every distinct
/// skill token occurs in the document, and zero exactly when none does
/// (the zero direction holds up to 100_000 distinct tokens: beyond that,
/// one match in a vast skill set truncates to zero in fixed point).
pub proof fn lemma_unweighted_score_extremes(users: Seq<Seq<char>>, job: Seq<Seq<char>>)
    requires
        0 < users.len() <= 100_000,
    ensures
        (unweighted_score_spec(users, job) == 100_000) <==> matched_tokens(users, job).len()
            == users.len(),
        (unweighted_score_spec(users, job) == 0) <==> matched_tokens(users, job).len() == 0,
{
    lemma_match_counts(users, job);
    let m = matched_tokens(users, job).len() as int;
    let n = users.len() as int;
    let score = unweighted_score_spec(users, job);
    if m == n {
        lemma_div_multiples_vanish(100_000, n);
        assert(score == 100_000);
    }
    if m < n {
        vstd::arithmetic::div_mod::lemma_fundamental_div_mod(m * 100_000, n);
        assert(score < 100_000) by (nonlinear_arith)
            requires
                m * 100_000 == n * (m * 100_000 / n) + (m * 100_000) % n,
                0 <= (m * 100_000) % n,
                score == m * 100_000 / n,
                m < n,
                0 < n,
        ;
    }
    if m == 0 {
        assert(score == 0) by {
            vstd::arithmetic::div_mod::lemma_div_of0(n);
        }
    }
    if m >= 1 {
        assert(100_000 <= m * 100_000) by (nonlinear_arith)
            requires
                m >= 1,
        ;
        lemma_div_is_ordered(100_000, m * 100_000, n);
        vstd::arithmetic::div_mod::lemma_div_non_zero(100_000, n);
        assert(score >= 1);
    }
}

/// Growing the document's token set cannot shrink the matched weight.
pub proof fn lemma_matched_weight_monotone(
    m: Map<Seq<char>, u64>,
    tokens: Seq<Seq<char>>,
    job1: Seq<Seq<char>>,
    job2: Seq<Seq<char>>,
)
    requires
        forall|t: Seq<char>| job1.contains(t) ==> job2.contains(t),
    ensures
        matched_weight(m, tokens, job1) <= matched_weight(m, tokens, job2),
        matched_tokens(tokens, job1).len() <= matched_tokens(tokens, job2).len(),
    decreases tokens.len(),
{
    if tokens.len() > 0 {
        lemma_matched_weight_monotone(m, tokens.drop_last(), job1, job2);
    }
}

/// Adding tokens to the document — in particular a token equal to a
/// currently missing skill token — never decreases either score.
pub proof fn lemma_score_monotone_in_document(
    m: Map<Seq<char>, u64>,
    users: Seq<Seq<char>>,
    tokens: Seq<Seq<char>>,
    job1: Seq<Seq<char>>,
    job2: Seq<Seq<char>>,
)
    requires
        forall|t: Seq<char>| job1.contains(t) ==> job2.contains(t),
    ensures
        unweighted_score_spec(users, job1) <= unweighted_score_spec(users, job2),
        weighted_score_spec(m, tokens, job1) <= weighted_score_spec(m, tokens, job2),
{
    lemma_matched_weight_monotone(m, users, job1, job2);
    lemma_matched_weight_monotone(m, tokens, job1, job2);
    if users.len() > 0 {
        let m1 = matched_tokens(users, job1).len() as int;
        let m2 = matched_tokens(users, job2).len() as int;
        let n = users.len() as int;
        assert(m1 * 100_000 <= m2 * 100_000) by (nonlinear_arith)
            requires
                m1 <= m2,
        ;
        lemma_div_is_ordered(m1 * 100_000, m2 * 100_000, n);
    }
    if tokens.len() > 0 && total_weight(m, tokens) > 0 {
        let w1 = matched_weight(m, tokens, job1);
        let w2 = matched_weight(m, tokens, job2);
        let tw = total_weight(m, tokens);
        assert(w1 * 100_000 <= w2 * 100_000) by (nonlinear_arith)
            requires
                w1 <= w2,
        ;
        lemma_div_is_ordered(w1 * 100_000, w2 * 100_000, tw);
    }
}

/// Matched and missing token counts partition the token list.
pub proof fn lemma_match_counts(tokens: Seq<Seq<char>>, job: Seq<Seq<char>>)
    ensures
        matched_tokens(tokens, job).len() + missing_tokens(tokens, job).len() == tokens.len(),
    decreases tokens.len(),
{
    if tokens.len() > 0 {
        lemma_match_counts(tokens.drop_last(), job);
    }
}

/// Every matched token is a token of the list present in the document, and
/// every missing token is one absent from it.
pub proof fn lemma_match_membership(tokens: Seq<Seq<char>>, job: Seq<Seq<char>>)
    ensures
        forall|t: Seq<char>|
            #[trigger] matched_tokens(tokens, job).contains(t) == (tokens.contains(t)
                && job.contains(t)),
        forall|t: Seq<char>|
            #[trigger] missing_tokens(tokens, job).contains(t) == (tokens.contains(t)
                && !job.contains(t)),
    decreases tokens.len(),
{
    if tokens.len() > 0 {
        lemma_match_membership(tokens.drop_last(), job);
        let ma = matched_tokens(tokens, job);
        let mi = missing_tokens(tokens, job);
        let ma0 = matched_tokens(tokens.drop_last(), job);
        let mi0 = missing_tokens(tokens.drop_last(), job);
        assert forall|t: Seq<char>| #[trigger]
            ma.contains(t) == (tokens.contains(t) && job.contains(t)) by {
            if ma.contains(t) {
                let j = choose|j: int| 0 <= j < ma.len() && ma[j] == t;
                if job.contains(tokens.last()) && j == ma.len() - 1 {
                    assert(t == tokens.last());
                    assert(tokens[tokens.len() - 1] == t);
                } else {
                    assert(ma0.contains(t));
                    let i = choose|i: int|
                        0 <= i < tokens.drop_last().len() && tokens.drop_last()[i] == t;
                    assert(tokens[i] == t);
                }
            }
            if tokens.contains(t) && job.contains(t) {
                let i = choose|i: int| 0 <= i < tokens.len() && tokens[i] == t;
                if i < tokens.len() - 1 {
                    assert(tokens.drop_last()[i] == t);
                    assert(ma0.contains(t));
                    let j = choose|j: int| 0 <= j < ma0.len() && ma0[j] == t;
                    if job.contains(tokens.last()) {
                        assert(ma[j] == t);
                    } else {
                        assert(ma[j] == t);
                    }
                } else {
                    assert(t == tokens.last());
                    assert(ma[ma.len() - 1] == t);
                }
            }
        }
        assert forall|t: Seq<char>| #[trigger]
            mi.contains(t) == (tokens.contains(t) && !job.contains(t)) by {
            if mi.contains(t) {
                let j = choose|j: int| 0 <= j < mi.len() && mi[j] == t;
                if !job.contains(tokens.last()) && j == mi.len() - 1 {
                    assert(t == tokens.last());
                    assert(tokens[tokens.len() - 1] == t);
                } else {
                    assert(mi0.contains(t));
                    let i = choose|i: int|
                        0 <= i < tokens.drop_last().len() && tokens.drop_last()[i] == t;
                    assert(tokens[i] == t);
                }
            }
            if tokens.contains(t) && !job.contains(t) {
                let i = choose|i: int| 0 <= i < tokens.len() && tokens[i] == t;
                if i < tokens.len() - 1 {
                    assert(tokens.drop_last()[i] == t);
                    assert(mi0.contains(t));
                    let j = choose|j: int| 0 <= j < mi0.len() && mi0[j] == t;
                    assert(mi[j] == t);
                } else {
                    assert(t == tokens.last());
                    assert(mi[mi.len() - 1] == t);
                }
            }
        }
    }
}

/// In unweighted mode the matched and missing sets partition the distinct
/// skill tokens: their union is the distinct token set and their
/// intersection is empty.
pub proof fn lemma_unweighted_partition(skills: Seq<Seq<char>>, job: Seq<Seq<char>>)
    ensures
        matched_tokens(distinct_skill_tokens(skills), job).to_set().union(
            missing_tokens(distinct_skill_tokens(skills), job).to_set(),
        ) == distinct_skill_tokens(skills).to_set(),
        matched_tokens(distinct_skill_tokens(skills), job).to_set().intersect(
            missing_tokens(distinct_skill_tokens(skills), job).to_set(),
        ) == Set::<Seq<char>>::empty(),
{
    let users = distinct_skill_tokens(skills);
    let ma = matched_tokens(users, job);
    let mi = missing_tokens(users, job);
    lemma_match_membership(users, job);
    assert forall|t: Seq<char>| #[trigger]
        ma.to_set().union(mi.to_set()).contains(t) == users.to_set().contains(t) by {
        assert(ma.to_set().contains(t) == ma.contains(t));
        assert(mi.to_set().contains(t) == mi.contains(t));
        assert(users.to_set().contains(t) == users.contains(t));
    }
    assert(ma.to_set().union(mi.to_set()) =~= users.to_set());
    assert forall|t: Seq<char>| !(#[trigger] ma.to_set().intersect(mi.to_set()).contains(t)) by {
        assert(ma.to_set().contains(t) == ma.contains(t));
        assert(mi.to_set().contains(t) == mi.contains(t));
    }
    assert(ma.to_set().intersect(mi.to_set()) =~= Set::<Seq<char>>::empty());
}

/// Whether a string with this view occurs in the vector.
fn contains_string(v: &Vec<String>, x: &String) -> (r: bool)
    ensures
        r == v.deep_view().contains(x@),
{
    let mut i: usize = 0;
    while i < v.len()
        invariant
            i <= v.len(),
            forall|j: int| 0 <= j < i ==> v.deep_view()[j] != x@,
        decreases v.len() - i,
    {
        if v[i].eq(x) {
            proof {
                assert(v.deep_view()[i as int] == x@);
            }
            return true;
        }
        i = i + 1;
    }
    false
}

/// Normalize the skill strings, drop empty results, keep order and repeats.
fn normalized_skill_list(user_skills: &Vec<String>) -> (r: Vec<String>)
    ensures
        r.deep_view() == norm_tokens(user_skills.deep_view()),
{
    let mut out: Vec<String> = Vec::new();
    let mut k: usize = 0;
    proof {
        assert(user_skills.deep_view().subrange(0, 0) =~= Seq::<Seq<char>>::empty());
        assert(out.deep_view() =~= Seq::<Seq<char>>::empty());
    }
    while k < user_skills.len()
        invariant
            k <= user_skills.len(),
            out.deep_view() == norm_tokens(user_skills.deep_view().subrange(0, k as int)),
        decreases user_skills.len() - k,
    {
        let ghost prefix = user_skills.deep_view().subrange(0, k as int);
        let ghost next = user_skills.deep_view().subrange(0, k + 1);
        proof {
            assert(next.drop_last() =~= prefix);
            assert(next.last() == user_skills.deep_view()[k as int]);
            assert(user_skills.deep_view()[k as int] == user_skills@[k as int]@);
        }
        let t = normalize_token(user_skills[k].as_str());
        if !t.as_str().is_empty() {
            let ghost old_out = out.deep_view();
            let ghost t_view = t@;
            out.push(t);
            proof {
                assert(out.deep_view() =~= old_out.push(t_view));
            }
        }
        k = k + 1;
    }
    proof {
        let dv = user_skills.deep_view();
        assert(dv.subrange(0, dv.len() as int) =~= dv);
    }
    out
}

/// Deduplicate a token list, keeping first occurrences in order.
pub fn dedup_strings(tokens: Vec<String>) -> (r: Vec<String>)
    ensures
        r.deep_view() == dedup_seq(tokens.deep_view()),
{
    let mut out: Vec<String> = Vec::new();
    let mut k: usize = 0;
    proof {
        assert(tokens.deep_view().subrange(0, 0) =~= Seq::<Seq<char>>::empty());
        assert(out.deep_view() =~= Seq::<Seq<char>>::empty());
    }
    while k < tokens.len()
        invariant
            k <= tokens.len(),
            out.deep_view() == dedup_seq(tokens.deep_view().subrange(0, k as int)),
        decreases tokens.len() - k,
    {
        let ghost prefix = tokens.deep_view().subrange(0, k as int);
        let ghost next = tokens.deep_view().subrange(0, k + 1);
        proof {
            assert(next.drop_last() =~= prefix);
            assert(next.last() == tokens.deep_view()[k as int]);
            assert(tokens.deep_view()[k as int] == tokens@[k as int]@);
            lemma_dedup_contains(prefix);
        }
        let t = tokens[k].clone();
        if !contains_string(&out, &t) {
            let ghost old_out = out.deep_view();
            let ghost t_view = t@;
            out.push(t);
            proof {
                assert(out.deep_view() =~= old_out.push(t_view));
            }
        }
        k = k + 1;
    }
    proof {
        let dv = tokens.deep_view();
        assert(dv.subrange(0, dv.len() as int) =~= dv);
    }
    out
}

/// Walk the token list and classify each token as matched or missing
/// against the document tokens.
fn classify_tokens(tokens: &Vec<String>, job_tokens: &Vec<String>) -> (r: (Vec<String>, Vec<
    String,
>))
    ensures
        r.0.deep_view() == matched_tokens(tokens.deep_view(), job_tokens.deep_view()),
        r.1.deep_view() == missing_tokens(tokens.deep_view(), job_tokens.deep_view()),
{
    let ghost job = job_tokens.deep_view();
    let mut matched: Vec<String> = Vec::new();
    let mut missing: Vec<String> = Vec::new();
    let mut k: usize = 0;
    proof {
        assert(tokens.deep_view().subrange(0, 0) =~= Seq::<Seq<char>>::empty());
        assert(matched.deep_view() =~= Seq::<Seq<char>>::empty());
        assert(missing.deep_view() =~= Seq::<Seq<char>>::empty());
    }
    while k < tokens.len()
        invariant
            k <= tokens.len(),
            job == job_tokens.deep_view(),
            matched.deep_view() == matched_tokens(tokens.deep_view().subrange(0, k as int), job),
            missing.deep_view() == missing_tokens(tokens.deep_view().subrange(0, k as int), job),
        decreases tokens.len() - k,
    {
        let ghost prefix = tokens.deep_view().subrange(0, k as int);
        let ghost next = tokens.deep_view().subrange(0, k + 1);
        proof {
            assert(next.drop_last() =~= prefix);
            assert(next.last() == tokens.deep_view()[k as int]);
            assert(tokens.deep_view()[k as int] == tokens@[k as int]@);
        }
        let t = tokens[k].clone();
        if contains_string(job_tokens, &t) {
            let ghost old_m = matched.deep_view();
            let ghost t_view = t@;
            matched.push(t);
            proof {
                assert(matched.deep_view() =~= old_m.push(t_view));
            }
        } else {
            let ghost old_m = missing.deep_view();
            let ghost t_view = t@;
            missing.push(t);
            proof {
                assert(missing.deep_view() =~= old_m.push(t_view));
            }
        }
        k = k + 1;
    }
    proof {
        let dv = tokens.deep_view();
        assert(dv.subrange(0, dv.len() as int) =~= dv);
    }
    (matched, missing)
}

/// Unweighted skill match: deduplicate the normalized skill tokens and
/// score by set overlap with the document's token set.  Returns the score
/// in thousandths of a percent together with the matched and the missing
/// tokens.  An empty (post-normalization) skill set scores zero with no
/// tokens classified.
pub fn compute_match(user_skills: &Vec<String>, job_text: &str) -> (r: (u64, Vec<String>, Vec<
    String,
>))
    ensures
        ({
            let users = distinct_skill_tokens(user_skills.deep_view());
            let job = tokenize_spec(job_text@);
            &&& r.1.deep_view() == matched_tokens(users, job)
            &&& r.2.deep_view() == missing_tokens(users, job)
            &&& r.0 == unweighted_score_spec(users, job)
            &&& r.0 <= 100_000
        }),
{
    let norm = normalized_skill_list(user_skills);
    let user_set = dedup_strings(norm);
    let ghost users = distinct_skill_tokens(user_skills.deep_view());
    let ghost job = tokenize_spec(job_text@);
    if user_set.len() == 0 {
        proof {
            assert(users.len() == 0);
            assert(matched_tokens(users, job) =~= Seq::<Seq<char>>::empty());
            assert(missing_tokens(users, job) =~= Seq::<Seq<char>>::empty());
        }
        let r1: Vec<String> = Vec::new();
        let r2: Vec<String> = Vec::new();
        proof {
            assert(r1.deep_view() =~= Seq::<Seq<char>>::empty());
            assert(r2.deep_view() =~= Seq::<Seq<char>>::empty());
        }
        return (0, r1, r2);
    }
    let job_tokens = tokenize(job_text);
    let (matched, missing) = classify_tokens(&user_set, &job_tokens);
    let total = user_set.len();
    let mcount = matched.len();
    proof {
        lemma_match_counts(users, job);
        assert(mcount <= total);
        lemma_div_is_ordered(mcount as int * 100_000, total as int * 100_000, total as int);
        lemma_div_multiples_vanish(100_000, total as int);
    }
    let score_wide: u128 = (mcount as u128) * 100_000u128 / (total as u128);
    let score: u64 = score_wide as u64;
    (score, matched, missing)
}

/// Weighted skill match.  With an empty table this is exactly the
/// unweighted match.  Otherwise the normalized skill tokens are walked as
/// given — repeats included, without deduplication — and each token
/// contributes its table weight (default `1.0`) to the total; tokens found
/// in the document contribute to the matched sum.  The score is the matched
/// share of the total weight, in thousandths of a percent.
pub fn compute_weighted_match(user_skills: &Vec<String>, job_text: &str, idf: &TermWeightTable) -> (r: (
    u64,
    Vec<String>,
    Vec<String>,
))
    requires
        idf.wf(),
    ensures
        ({
            let m = idf.map_view();
            let tokens = norm_tokens(user_skills.deep_view());
            let users = distinct_skill_tokens(user_skills.deep_view());
            let job = tokenize_spec(job_text@);
            if m == Map::<Seq<char>, u64>::empty() {
                &&& r.1.deep_view() == matched_tokens(users, job)
                &&& r.2.deep_view() == missing_tokens(users, job)
                &&& r.0 == unweighted_score_spec(users, job)
            } else {
                &&& r.1.deep_view() == matched_tokens(tokens, job)
                &&& r.2.deep_view() == missing_tokens(tokens, job)
                &&& r.0 == weighted_score_spec(m, tokens, job)
            }
        }),
        r.0 <= 100_000,
{
    if idf.is_empty() {
        return compute_match(user_skills, job_text);
    }
    let ghost m = idf.map_view();
    let ghost job = tokenize_spec(job_text@);
    let tokens = normalized_skill_list(user_skills);
    let ghost tokens_view = norm_tokens(user_skills.deep_view());
    if tokens.len() == 0 {
        proof {
            assert(tokens_view.len() == 0);
            assert(matched_tokens(tokens_view, job) =~= Seq::<Seq<char>>::empty());
            assert(missing_tokens(tokens_view, job) =~= Seq::<Seq<char>>::empty());
        }
        let r1: Vec<String> = Vec::new();
        let r2: Vec<String> = Vec::new();
        proof {
            assert(r1.deep_view() =~= Seq::<Seq<char>>::empty());
            assert(r2.deep_view() =~= Seq::<Seq<char>>::empty());
        }
        return (0, r1, r2);
    }
    let job_tokens = tokenize(job_text);
    let (matched, missing) = classify_tokens(&tokens, &job_tokens);
    let mut match_sum: u128 = 0;
    let mut denom: u128 = 0;
    let mut k: usize = 0;
    proof {
        assert(tokens_view.subrange(0, 0) =~= Seq::<Seq<char>>::empty());
    }
    while k < tokens.len()
        invariant
            k <= tokens.len(),
            idf.wf(),
            m == idf.map_view(),
            job == job_tokens.deep_view(),
            tokens.deep_view() == tokens_view,
            match_sum == matched_weight(m, tokens_view.subrange(0, k as int), job),
            denom == total_weight(m, tokens_view.subrange(0, k as int)),
            match_sum <= denom <= (k as int) * (MAX_WEIGHT_MILLI as int),
        decreases tokens.len() - k,
    {
        let ghost prefix = tokens_view.subrange(0, k as int);
        let ghost next = tokens_view.subrange(0, k + 1);
        proof {
            assert(next.drop_last() =~= prefix);
            assert(next.last() == tokens_view[k as int]);
            assert(tokens_view[k as int] == tokens@[k as int]@);
            idf.lemma_weights_bounded();
        }
        let w = idf.weight_for(&tokens[k]);
        proof {
            assert(w <= MAX_WEIGHT_MILLI);
        }
        denom = denom + w as u128;
        if contains_string(&job_tokens, &tokens[k]) {
            match_sum = match_sum + w as u128;
        }
        k = k + 1;
    }
    proof {
        assert(tokens_view.subrange(0, tokens_view.len() as int) =~= tokens_view);
        lemma_weight_sums(m, tokens_view, job);
        lemma_scores_in_range(m, Seq::<Seq<char>>::empty(), tokens_view, job);
    }
    let score: u64 = if denom > 0 {
        (match_sum * 100_000u128 / denom) as u64
    } else {
        0
    };
    (score, matched, missing)
}

} // verus!
