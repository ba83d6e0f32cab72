//! The recommendation pipeline.
//!
//! Scores a candidate's profile against a batch of jobs.  Each job has an
//! oracle outcome supplied by the caller (the oracle is an external HTTP
//! service; issuing the calls is the surrounding program's task).  When
//! every outcome in the batch is unavailable the whole batch falls back to
//! the cheap local formula; otherwise jobs whose calls failed are simply
//! omitted.  Results below the threshold (a score of 30 percent, strict)
//! are discarded, the rest are ranked by score descending — stably, so
//! ties keep candidate order — and truncated to the caller's limit.

use vstd::prelude::*;

use crate::fallback::{
    analyze_experience_match, analyze_skills_match, cheap_match_score, cheap_score_spec,
    experience_explanation, experience_level_details, experience_score_milli,
    experience_year_details, extract_job_requirements, found_keywords, generate_recommendations,
    recommendations_spec, requirements_spec, skills_score_milli, tech_keywords_spec, MatchScore,
};
use crate::matching::{
    compute_weighted_match, distinct_skill_tokens, matched_tokens, missing_tokens, norm_tokens,
    unweighted_score_spec, weighted_score_spec,
};
use crate::models::{duplicate_strings, Job, JobRecommendation};
use crate::ranking::{sort_desc, sort_pairs_desc};
use crate::text::{dec_spec, lower_of, tokenize_spec, u64_to_string};
use crate::weights::TermWeightTable;

verus! {

/// What replacing every HTML-tag-shaped run with a space leaves of a text.
pub uninterp spec fn html_stripped(s: Seq<char>) -> Seq<char>;

/// Relies on `regex::Regex::replace_all` with the pattern `<[^>]+>`: each
/// tag-shaped run becomes a single space; the result depends on the input
/// text alone.
#[verifier::external_body]
pub(crate) fn strip_html(input: &str) -> (r: String)
    ensures
        r@ == html_stripped(input@),
{
    let re = regex::Regex::new("<[^>]+>").unwrap();
    re.replace_all(input, " ").to_string()
}

/// The fields of an oracle reply as decoded at the service boundary; every
/// field may be absent.  The score arrives in thousandths of a percent,
/// rounded from the wire value by the caller, and may be out of range.
pub struct RawOracleReply {
    pub match_score_milli: Option<i64>,
    pub required_skills: Option<Vec<String>>,
    pub resume_skills: Option<Vec<String>>,
    pub skill_overlap: Option<u64>,
    pub missing_skills: Option<Vec<String>>,
    pub recommendations: Option<String>,
    pub experience_match_milli: Option<i64>,
}

/// A fully defaulted, clamped oracle result.
pub struct OracleScore {
    /// Match score in thousandths of a percent, clamped to `[0, 100_000]`.
    pub match_score_milli: u64,
    pub required_skills: Vec<String>,
    pub resume_skills: Vec<String>,
    /// Skill-overlap count, clamped so that it fits an `i32`.
    pub skill_overlap: u64,
    pub missing_skills: Vec<String>,
    pub recommendations: String,
    /// Experience sub-score in thousandths, clamped to `[0, 1000]`.
    pub experience_match_milli: u64,
}

/// The outcome of one oracle call: a timeout, transport failure or
/// malformed reply all collapse to `Unavailable`.
pub enum OracleOutcome {
    Unavailable,
    Scored(OracleScore),
}

/// The ranges a defaulted oracle result respects.
pub open spec fn outcome_wf(o: OracleOutcome) -> bool {
    match o {
        OracleOutcome::Unavailable => true,
        OracleOutcome::Scored(s) => s.match_score_milli <= 100_000 && s.skill_overlap
            <= 0x7FFF_FFFFu64 && s.experience_match_milli <= 1000,
    }
}

/// Clamp an arriving value into `[0, hi]`.
pub open spec fn clamp_milli(x: int, hi: int) -> int {
    if x < 0 {
        0
    } else if x > hi {
        hi
    } else {
        x
    }
}

/// Interpret one oracle reply: a failed transport or unparsable body is
/// `Unavailable`; otherwise absent fields take their defaults — zero for
/// numbers, the empty list for lists, a generic message for the
/// recommendation text (the experience sub-score defaults to one half) —
/// and numeric fields are clamped to their ranges.
pub fn interpret_oracle_reply(ok: bool, reply: Option<RawOracleReply>) -> (r: OracleOutcome)
    ensures
        outcome_wf(r),
        !ok || reply is None ==> r is Unavailable,
        ok && reply is Some ==> ({
            let raw = reply->0;
            &&& r is Scored
            &&& ({
                let s = r->0;
                &&& s.match_score_milli == clamp_milli(
                    (if raw.match_score_milli is Some {
                        raw.match_score_milli->0 as int
                    } else {
                        0int
                    }),
                    100_000,
                )
                &&& s.skill_overlap == clamp_milli(
                    (if raw.skill_overlap is Some {
                        raw.skill_overlap->0 as int
                    } else {
                        0int
                    }),
                    0x7FFF_FFFF,
                )
                &&& s.experience_match_milli == clamp_milli(
                    (if raw.experience_match_milli is Some {
                        raw.experience_match_milli->0 as int
                    } else {
                        500int
                    }),
                    1000,
                )
                &&& s.required_skills.deep_view() == (if raw.required_skills is Some {
                    raw.required_skills->0.deep_view()
                } else {
                    Seq::<Seq<char>>::empty()
                })
                &&& s.resume_skills.deep_view() == (if raw.resume_skills is Some {
                    raw.resume_skills->0.deep_view()
                } else {
                    Seq::<Seq<char>>::empty()
                })
                &&& s.missing_skills.deep_view() == (if raw.missing_skills is Some {
                    raw.missing_skills->0.deep_view()
                } else {
                    Seq::<Seq<char>>::empty()
                })
                &&& s.recommendations@ == (if raw.recommendations is Some {
                    raw.recommendations->0@
                } else {
                    "Continue developing relevant skills"@
                })
            })
        }),
{
    if !ok {
        return OracleOutcome::Unavailable;
    }
    match reply {
        None => OracleOutcome::Unavailable,
        Some(raw) => {
            let match_score_milli: u64 = match raw.match_score_milli {
                Some(v) => if v < 0 {
                    0
                } else if v > 100_000 {
                    100_000
                } else {
                    v as u64
                },
                None => 0,
            };
            let skill_overlap: u64 = match raw.skill_overlap {
                Some(v) => if v > 0x7FFF_FFFF {
                    0x7FFF_FFFF
                } else {
                    v
                },
                None => 0,
            };
            let experience_match_milli: u64 = match raw.experience_match_milli {
                Some(v) => if v < 0 {
                    0
                } else if v > 1000 {
                    1000
                } else {
                    v as u64
                },
                None => 500,
            };
            let required_skills = match raw.required_skills {
                Some(v) => v,
                None => Vec::new(),
            };
            let resume_skills = match raw.resume_skills {
                Some(v) => v,
                None => Vec::new(),
            };
            let missing_skills = match raw.missing_skills {
                Some(v) => v,
                None => Vec::new(),
            };
            let recommendations = match raw.recommendations {
                Some(v) => v,
                None => String::from_str("Continue developing relevant skills"),
            };
            proof {
                if reply->0.required_skills is None {
                    assert(required_skills.deep_view() =~= Seq::<Seq<char>>::empty());
                }
                if reply->0.resume_skills is None {
                    assert(resume_skills.deep_view() =~= Seq::<Seq<char>>::empty());
                }
                if reply->0.missing_skills is None {
                    assert(missing_skills.deep_view() =~= Seq::<Seq<char>>::empty());
                }
            }
            let r = OracleOutcome::Scored(
                OracleScore {
                    match_score_milli,
                    required_skills,
                    resume_skills,
                    skill_overlap,
                    missing_skills,
                    recommendations,
                    experience_match_milli,
                },
            );
            r
        },
    }
}

/// An empty profile: no skill strings at all and no resume text.
pub open spec fn profile_empty(skills: Seq<Seq<char>>, resume: Seq<char>) -> bool {
    skills.len() == 0 && resume.len() == 0
}

/// Whether the pipeline has anything to hand the oracle: with an empty
/// profile no oracle call is issued at all.
pub fn oracle_calls_needed(skills: &Vec<String>, resume_text: &String) -> (r: bool)
    ensures
        r == !profile_empty(skills.deep_view(), resume_text@),
{
    skills.len() > 0 || !resume_text.as_str().is_empty()
}

/// Every outcome of the batch is `Unavailable`.
pub open spec fn all_unavailable(outs: Seq<OracleOutcome>) -> bool {
    forall|i: int| 0 <= i < outs.len() ==> outs[i] is Unavailable
}

/// Round thousandths of a percent to whole percent.
pub open spec fn percent_of_milli(m: int) -> int {
    (m + 500) / 1000
}

/// The (percent score, candidate index) pairs of the jobs the oracle
/// scored strictly above the 30-percent threshold, in candidate order.
pub open spec fn oracle_pairs(outs: Seq<OracleOutcome>, upto: int) -> Seq<(u64, usize)>
    decreases upto,
{
    if upto <= 0 {
        Seq::<(u64, usize)>::empty()
    } else {
        let rest = oracle_pairs(outs, upto - 1);
        match outs[upto - 1] {
            OracleOutcome::Scored(s) => if s.match_score_milli > 30_000 {
                rest.push(
                    (percent_of_milli(s.match_score_milli as int) as u64, (upto - 1) as usize),
                )
            } else {
                rest
            },
            OracleOutcome::Unavailable => rest,
        }
    }
}

/// The (percent score, candidate index) pairs of the cheap batch formula,
/// in candidate order.  Every cheap score is at least 50, so every job
/// clears the 30-percent threshold.
pub open spec fn cheap_pairs(jobs: Seq<Job>, resume: Seq<char>, upto: int) -> Seq<(u64, usize)>
    decreases upto,
{
    if upto <= 0 {
        Seq::<(u64, usize)>::empty()
    } else {
        let sc = cheap_score_spec(
            lower_of(resume),
            lower_of(html_stripped(jobs[upto - 1].description@)),
            lower_of(jobs[upto - 1].title@),
        );
        cheap_pairs(jobs, resume, upto - 1).push((sc as u64, (upto - 1) as usize))
    }
}

/// The eligible scored candidates of the batch: oracle results above the
/// threshold, or the whole batch under the cheap formula when every oracle
/// call failed.
pub open spec fn selected_pairs(
    jobs: Seq<Job>,
    outs: Seq<OracleOutcome>,
    resume: Seq<char>,
) -> Seq<(u64, usize)> {
    if all_unavailable(outs) {
        cheap_pairs(jobs, resume, jobs.len() as int)
    } else {
        oracle_pairs(outs, outs.len() as int)
    }
}

/// The ranked, truncated (score, index) list the recommendation holds.
pub open spec fn recommend_pairs(
    skills: Seq<Seq<char>>,
    resume: Seq<char>,
    jobs: Seq<Job>,
    outs: Seq<OracleOutcome>,
    limit: int,
) -> Seq<(u64, usize)> {
    if profile_empty(skills, resume) {
        Seq::<(u64, usize)>::empty()
    } else {
        let sorted = sort_desc(selected_pairs(jobs, outs, resume));
        sorted.take(if limit < sorted.len() {
            limit
        } else {
            sorted.len() as int
        })
    }
}

/// Every pair of `oracle_pairs` points at a scored outcome above the
/// threshold and carries its rounded percent.
pub proof fn lemma_oracle_pairs_elems(outs: Seq<OracleOutcome>, upto: int)
    requires
        upto <= outs.len(),
        upto <= usize::MAX,
    ensures
        forall|e: (u64, usize)|
            #[trigger] oracle_pairs(outs, upto).contains(e) ==> 0 <= e.1 < upto
                && outs[e.1 as int] is Scored && outs[e.1 as int]->0.match_score_milli > 30_000
                && e.0 == percent_of_milli(outs[e.1 as int]->0.match_score_milli as int),
        forall|i: int, j: int|
            0 <= i < j < oracle_pairs(outs, upto).len() ==> (#[trigger] oracle_pairs(outs, upto)[i]).1
                < (#[trigger] oracle_pairs(outs, upto)[j]).1,
    decreases upto,
{
    if upto > 0 {
        lemma_oracle_pairs_elems(outs, upto - 1);
        let rest = oracle_pairs(outs, upto - 1);
        let cur = oracle_pairs(outs, upto);
        let pushed = cur.len() > rest.len();
        if pushed {
            let x = cur.last();
            assert(x.1 == upto - 1);
            assert(outs[upto - 1] is Scored);
        }
        assert forall|e: (u64, usize)| #[trigger] cur.contains(e) implies 0 <= e.1 < upto
            && outs[e.1 as int] is Scored && outs[e.1 as int]->0.match_score_milli > 30_000 && e.0
            == percent_of_milli(outs[e.1 as int]->0.match_score_milli as int) by {
            let k = choose|k: int| 0 <= k < cur.len() && cur[k] == e;
            if pushed && k == cur.len() - 1 {
                assert(e == cur.last());
            } else {
                assert(cur[k] == rest[k]);
                assert(rest.contains(e));
            }
        }
        assert forall|i: int, j: int| 0 <= i < j < cur.len() implies (#[trigger] cur[i]).1 < (
        #[trigger] cur[j]).1 by {
            if pushed && j == cur.len() - 1 {
                assert(cur[i] == rest[i]);
                assert(rest.contains(rest[i]));
                assert(rest[i].1 < upto - 1);
                assert(cur[j].1 == upto - 1);
            } else {
                assert(cur[i] == rest[i]);
                assert(cur[j] == rest[j]);
            }
        }
    }
}

/// Every pair of `cheap_pairs` carries the cheap score of its job, and the
/// pairs list the candidates zero to `upto` in order.
pub proof fn lemma_cheap_pairs_elems(jobs: Seq<Job>, resume: Seq<char>, upto: int)
    requires
        upto <= jobs.len(),
        upto <= usize::MAX,
    ensures
        cheap_pairs(jobs, resume, upto).len() == (if upto < 0 {
            0int
        } else {
            upto
        }),
        forall|k: int|
            0 <= k < upto ==> #[trigger] cheap_pairs(jobs, resume, upto)[k] == (
            cheap_score_spec(
                lower_of(resume),
                lower_of(html_stripped(jobs[k].description@)),
                lower_of(jobs[k].title@),
            ) as u64, k as usize),
    decreases upto,
{
    if upto > 0 {
        lemma_cheap_pairs_elems(jobs, resume, upto - 1);
    }
}

/// How one output entry relates to its job and its oracle outcome.
pub open spec fn oracle_rec_ok(rec: JobRecommendation, job: Job, out: OracleOutcome, score: u64) -> bool {
    &&& rec.job == job
    &&& rec.match_percentage == score as i32
    &&& out is Scored
    &&& rec.skills_matched == out->0.skill_overlap as i32
    &&& rec.missing_skills.deep_view() == out->0.missing_skills.deep_view()
}

/// How one cheap-formula output entry relates to its job.
pub open spec fn cheap_rec_ok(rec: JobRecommendation, job: Job, score: u64) -> bool {
    &&& rec.job == job
    &&& rec.match_percentage == score as i32
    &&& rec.skills_matched == 0
    &&& rec.missing_skills.deep_view() == Seq::<Seq<char>>::empty()
}

/// Produce the ranked recommendation list for a batch of jobs and their
/// oracle outcomes.
///
/// With an empty profile (no skills, no resume text) the result is empty
/// and no oracle call was needed in the first place.  When every outcome
/// is `Unavailable` the batch is scored by the cheap local formula — base
/// 50, +5 per keyword shared between resume and description, +10 for a
/// title hit, capped at 100 — so the result is then nonempty whenever
/// there are jobs and a positive limit.  Otherwise each scored job above
/// 30 percent enters with its rounded percent; failed calls are omitted.
/// The list is sorted by score descending, stably in candidate order, and
/// truncated to `limit`.
#[allow(unused_variables)]
pub fn recommend(
    skills: &Vec<String>,
    experience_years: i32,
    resume_text: &String,
    jobs: &Vec<Job>,
    outcomes: &Vec<OracleOutcome>,
    limit: usize,
) -> (r: Vec<JobRecommendation>)
    requires
        outcomes@.len() == jobs@.len(),
        forall|i: int| 0 <= i < outcomes@.len() ==> outcome_wf(#[trigger] outcomes@[i]),
    ensures
        ({
            let top = recommend_pairs(
                skills.deep_view(),
                resume_text@,
                jobs@,
                outcomes@,
                limit as int,
            );
            &&& r@.len() == top.len()
            &&& (all_unavailable(outcomes@) ==> forall|k: int|
                0 <= k < top.len() ==> cheap_rec_ok(
                    #[trigger] r@[k],
                    jobs@[top[k].1 as int],
                    top[k].0,
                ))
            &&& (!all_unavailable(outcomes@) ==> forall|k: int|
                0 <= k < top.len() ==> oracle_rec_ok(
                    #[trigger] r@[k],
                    jobs@[top[k].1 as int],
                    outcomes@[top[k].1 as int],
                    top[k].0,
                ))
        }),
        forall|k: int| 0 <= k < r@.len() ==> 0 <= (#[trigger] r@[k]).match_percentage <= 100,
        !profile_empty(skills.deep_view(), resume_text@) && all_unavailable(outcomes@)
            && jobs@.len() > 0 && limit > 0 ==> r@.len() > 0,
{
    let ghost skills_dv = skills.deep_view();
    let ghost resume = resume_text@;
    if skills.len() == 0 && resume_text.as_str().is_empty() {
        let r: Vec<JobRecommendation> = Vec::new();
        return r;
    }
    let mut all_un = true;
    let mut c: usize = 0;
    while c < outcomes.len()
        invariant
            c <= outcomes@.len(),
            all_un == (forall|i: int| 0 <= i < c ==> outcomes@[i] is Unavailable),
        decreases outcomes@.len() - c,
    {
        match &outcomes[c] {
            OracleOutcome::Unavailable => {},
            OracleOutcome::Scored(_) => {
                all_un = false;
            },
        }
        c = c + 1;
    }
    let mut pairs: Vec<(u64, usize)> = Vec::new();
    if all_un {
        let mut i: usize = 0;
        proof {
            assert(pairs@ =~= cheap_pairs(jobs@, resume, 0));
        }
        while i < jobs.len()
            invariant
                i <= jobs@.len(),
                resume == resume_text@,
                pairs@ == cheap_pairs(jobs@, resume, i as int),
            decreases jobs@.len() - i,
        {
            let stripped = strip_html(jobs[i].description.as_str());
            let sc = cheap_match_score(
                resume_text.as_str(),
                stripped.as_str(),
                jobs[i].title.as_str(),
            );
            pairs.push((sc, i));
            i = i + 1;
        }
    } else {
        let mut i: usize = 0;
        proof {
            assert(pairs@ =~= oracle_pairs(outcomes@, 0));
        }
        while i < outcomes.len()
            invariant
                i <= outcomes@.len(),
                pairs@ == oracle_pairs(outcomes@, i as int),
                forall|q: int| 0 <= q < outcomes@.len() ==> outcome_wf(#[trigger] outcomes@[q]),
            decreases outcomes@.len() - i,
        {
            match &outcomes[i] {
                OracleOutcome::Scored(s) => {
                    if s.match_score_milli > 30_000 {
                        let pct = (s.match_score_milli + 500) / 1000;
                        pairs.push((pct, i));
                    }
                },
                OracleOutcome::Unavailable => {},
            }
            i = i + 1;
        }
    }
    let n_jobs = jobs.len();
    let n_outs = outcomes.len();
    let sorted = sort_pairs_desc(&pairs);
    proof {
        assert(jobs@.len() == n_jobs && outcomes@.len() == n_outs);
        crate::ranking::lemma_sort_desc_props(pairs@);
        if all_un {
            lemma_cheap_pairs_elems(jobs@, resume, jobs@.len() as int);
        } else {
            lemma_oracle_pairs_elems(outcomes@, outcomes@.len() as int);
        }
    }
    let take_n: usize = if limit < sorted.len() {
        limit
    } else {
        sorted.len()
    };
    let ghost top = recommend_pairs(skills_dv, resume, jobs@, outcomes@, limit as int);
    proof {
        assert(top == sorted@.take(take_n as int));
    }
    let mut out: Vec<JobRecommendation> = Vec::new();
    let mut k: usize = 0;
    while k < take_n
        invariant
            k <= take_n,
            take_n <= sorted@.len(),
            top == sorted@.take(take_n as int),
            sorted@ == sort_desc(pairs@),
            pairs@ == selected_pairs(jobs@, outcomes@, resume),
            resume == resume_text@,
            outcomes@.len() == jobs@.len(),
            all_un == all_unavailable(outcomes@),
            jobs@.len() == n_jobs,
            outcomes@.len() == n_outs,
            forall|q: int| 0 <= q < outcomes@.len() ==> outcome_wf(#[trigger] outcomes@[q]),
            out@.len() == k,
            all_un ==> forall|q: int|
                0 <= q < k ==> cheap_rec_ok(#[trigger] out@[q], jobs@[top[q].1 as int], top[q].0),
            !all_un ==> forall|q: int|
                0 <= q < k ==> oracle_rec_ok(
                    #[trigger] out@[q],
                    jobs@[top[q].1 as int],
                    outcomes@[top[q].1 as int],
                    top[q].0,
                ),
            forall|q: int| 0 <= q < k ==> 0 <= (#[trigger] out@[q]).match_percentage <= 100,
        decreases take_n - k,
    {
        let (score, idx) = sorted[k];
        proof {
            assert(jobs@.len() == n_jobs && outcomes@.len() == n_outs);
            assert(sorted@.contains(sorted@[k as int]));
            if all_un {
                lemma_cheap_pairs_elems(jobs@, resume, jobs@.len() as int);
                crate::ranking::lemma_sort_desc_props(pairs@);
                assert(pairs@.contains(sorted@[k as int]));
                let w = choose|w: int| 0 <= w < pairs@.len() && pairs@[w] == sorted@[k as int];
                assert(pairs@[w] == (
                    cheap_score_spec(
                        lower_of(resume),
                        lower_of(html_stripped(jobs@[w].description@)),
                        lower_of(jobs@[w].title@),
                    ) as u64, w as usize));
                assert(idx < jobs@.len());
            } else {
                lemma_oracle_pairs_elems(outcomes@, outcomes@.len() as int);
                crate::ranking::lemma_sort_desc_props(pairs@);
                assert(pairs@.contains(sorted@[k as int]));
                assert(idx < jobs@.len());
                assert(outcomes@[idx as int] is Scored);
                assert(outcome_wf(outcomes@[idx as int]));
                assert(score == percent_of_milli(
                    outcomes@[idx as int]->0.match_score_milli as int,
                ));
                assert(score <= 100);
            }
            assert(top[k as int] == sorted@[k as int]);
        }
        let rec = if all_un {
            JobRecommendation {
                job: jobs[idx].duplicate(),
                match_percentage: score as i32,
                skills_matched: 0,
                missing_skills: Vec::new(),
            }
        } else {
            match &outcomes[idx] {
                OracleOutcome::Scored(s) => JobRecommendation {
                    job: jobs[idx].duplicate(),
                    match_percentage: score as i32,
                    skills_matched: s.skill_overlap as i32,
                    missing_skills: duplicate_strings(&s.missing_skills),
                },
                OracleOutcome::Unavailable => {
                    proof {
                        assert(false);
                    }
                    JobRecommendation {
                        job: jobs[idx].duplicate(),
                        match_percentage: 0,
                        skills_matched: 0,
                        missing_skills: Vec::new(),
                    }
                },
            }
        };
        proof {
            if all_un {
                assert(rec.missing_skills.deep_view() =~= Seq::<Seq<char>>::empty());
                assert(score <= 100) by {
                    assert(jobs@.len() == n_jobs);
                    lemma_cheap_pairs_elems(jobs@, resume, jobs@.len() as int);
                    crate::ranking::lemma_sort_desc_props(pairs@);
                    assert(pairs@.contains(sorted@[k as int]));
                    let w = choose|w: int|
                        0 <= w < pairs@.len() && pairs@[w] == sorted@[k as int];
                    assert(pairs@[w].0 == cheap_score_spec(
                        lower_of(resume),
                        lower_of(html_stripped(jobs@[w].description@)),
                        lower_of(jobs@[w].title@),
                    ) as u64);
                }
            }
        }
        out.push(rec);
        k = k + 1;
    }
    proof {
        if !profile_empty(skills_dv, resume) && all_unavailable(outcomes@) && jobs@.len() > 0
            && limit > 0 {
            assert(jobs@.len() == n_jobs);
            lemma_cheap_pairs_elems(jobs@, resume, jobs@.len() as int);
            crate::ranking::lemma_sort_desc_props(pairs@);
            assert(sorted@.len() == jobs@.len());
            assert(top.len() > 0);
        }
    }
    out
}


/// A full single-job analysis: an overall score in thousandths of a
/// percent and a per-facet breakdown.  The oracle path reports no location
/// facet; the fallback path reports a fixed location placeholder.  The
/// oracle's single recommendation text is carried as a one-line list.
pub struct MatchAnalysis {
    pub overall_milli: u64,
    pub skills: MatchScore,
    pub experience: MatchScore,
    pub location: Option<MatchScore>,
    pub recommendations: Vec<String>,
    pub job_requirements: Vec<String>,
    pub missing_skills: Vec<String>,
    pub match_explanation: String,
    pub service_status: String,
    pub from_oracle: bool,
}

/// How a fallback analysis relates to the job's description and title.
pub open spec fn fallback_analysis_matches(r: MatchAnalysis, desc: Seq<char>, title: Seq<char>) -> bool {
    let d = lower_of(desc);
    let t = lower_of(title);
    let found = found_keywords(tech_keywords_spec(), d, t);
    let sk = skills_score_milli(found.len() as int);
    let ex = experience_score_milli(d);
    let overall_unit = (sk + ex + 800) / 3;
    &&& r.overall_milli == overall_unit * 100
    &&& r.skills.score_milli == sk
    &&& r.skills.details.deep_view() == found
    &&& r.skills.explanation@ == "Found "@ + dec_spec(found.len() as int)
        + " relevant technical skills"@
    &&& r.experience.score_milli == ex
    &&& r.experience.explanation@ == experience_explanation(d)
    &&& r.experience.details.deep_view() == experience_level_details(d)
        + experience_year_details(d)
    &&& r.location is Some
    &&& r.location->0.score_milli == 800
    &&& r.location->0.explanation@ == "Location compatibility assumed"@
    &&& r.location->0.details.deep_view() == seq!["Remote work supported"@]
    &&& r.recommendations.deep_view() == recommendations_spec(overall_unit, t)
    &&& r.job_requirements.deep_view() == requirements_spec(d)
    &&& r.missing_skills.deep_view() == Seq::<Seq<char>>::empty()
    &&& r.match_explanation@ == "Based on basic analysis of job requirements for "@ + title
        + ", this position has a "@ + dec_spec(overall_unit / 10)
        + "% compatibility match. Note: ML service unavailable."@
    &&& r.service_status@ == "Fallback analysis (ML service unavailable)"@
    &&& r.from_oracle == false
}

/// How an oracle-backed analysis relates to the oracle result and the job.
pub open spec fn oracle_analysis_matches(
    r: MatchAnalysis,
    s: OracleScore,
    title: Seq<char>,
    company: Seq<char>,
) -> bool {
    let req_len = s.required_skills.deep_view().len() as int;
    let denom = if req_len == 0 {
        1int
    } else {
        req_len
    };
    &&& r.overall_milli == s.match_score_milli
    &&& r.skills.score_milli == s.skill_overlap * 1000 / denom
    &&& r.skills.explanation@ == "Found "@ + dec_spec(s.skill_overlap as int)
        + " matching skills out of "@ + dec_spec(req_len) + " required"@
    &&& r.skills.details.deep_view() == s.resume_skills.deep_view()
    &&& r.experience.score_milli == s.experience_match_milli
    &&& r.experience.explanation@ == "Experience level matches job requirements"@
    &&& r.experience.details.deep_view() == seq!["Based on job description analysis"@]
    &&& r.location is None
    &&& r.recommendations.deep_view() == seq![s.recommendations@]
    &&& r.job_requirements.deep_view() == s.required_skills.deep_view()
    &&& r.missing_skills.deep_view() == s.missing_skills.deep_view()
    &&& r.match_explanation@ == "Based on ML analysis of job requirements for "@ + title
        + " at "@ + company + ", this position has a "@ + dec_spec(
        s.match_score_milli as int / 1000,
    ) + "% compatibility match."@
    &&& r.service_status@ == "ML service active"@
    &&& r.from_oracle == true
}

/// The rich single-job fallback analysis: skill, experience and a fixed
/// location placeholder sub-score, averaged.
pub fn create_fallback_analysis(description: &str, title: &str) -> (r: MatchAnalysis)
    ensures
        fallback_analysis_matches(r, description@, title@),
        r.overall_milli <= 100_000,
{
    let skills = analyze_skills_match(description, title);
    let experience = analyze_experience_match(description);
    let overall_unit = (skills.score_milli + experience.score_milli + 800) / 3;
    let recommendations = generate_recommendations(overall_unit, title);
    let job_requirements = extract_job_requirements(description);
    let mut location_details: Vec<String> = Vec::new();
    location_details.push(String::from_str("Remote work supported"));
    let location = MatchScore {
        score_milli: 800,
        explanation: String::from_str("Location compatibility assumed"),
        details: location_details,
    };
    let pct = u64_to_string(overall_unit / 10);
    let mut expl = String::from_str("Based on basic analysis of job requirements for ");
    expl.append(title);
    expl.append(", this position has a ");
    expl.append(pct.as_str());
    expl.append("% compatibility match. Note: ML service unavailable.");
    let missing_skills: Vec<String> = Vec::new();
    proof {
        assert(missing_skills.deep_view() =~= Seq::<Seq<char>>::empty());
        assert(location.details.deep_view() =~= seq!["Remote work supported"@]);
    }
    MatchAnalysis {
        overall_milli: overall_unit * 100,
        skills,
        experience,
        location: Some(location),
        recommendations,
        job_requirements,
        missing_skills,
        match_explanation: expl,
        service_status: String::from_str("Fallback analysis (ML service unavailable)"),
        from_oracle: false,
    }
}

/// Shape an oracle result into the analysis breakdown.
pub fn analyze_oracle_match(s: &OracleScore, title: &str, company: &str) -> (r: MatchAnalysis)
    requires
        s.skill_overlap <= 0x7FFF_FFFFu64,
        s.match_score_milli <= 100_000,
    ensures
        oracle_analysis_matches(r, *s, title@, company@),
        r.overall_milli <= 100_000,
{
    let req_len = s.required_skills.len();
    let denom: u64 = if req_len == 0 {
        1
    } else {
        req_len as u64
    };
    let skills_score = s.skill_overlap * 1000 / denom;
    let overlap_str = u64_to_string(s.skill_overlap);
    let len_str = u64_to_string(req_len as u64);
    let mut sk_expl = String::from_str("Found ");
    sk_expl.append(overlap_str.as_str());
    sk_expl.append(" matching skills out of ");
    sk_expl.append(len_str.as_str());
    sk_expl.append(" required");
    let skills = MatchScore {
        score_milli: skills_score,
        explanation: sk_expl,
        details: duplicate_strings(&s.resume_skills),
    };
    let mut ex_details: Vec<String> = Vec::new();
    ex_details.push(String::from_str("Based on job description analysis"));
    let experience = MatchScore {
        score_milli: s.experience_match_milli,
        explanation: String::from_str("Experience level matches job requirements"),
        details: ex_details,
    };
    let mut recommendations: Vec<String> = Vec::new();
    recommendations.push(s.recommendations.clone());
    let pct = u64_to_string(s.match_score_milli / 1000);
    let mut expl = String::from_str("Based on ML analysis of job requirements for ");
    expl.append(title);
    expl.append(" at ");
    expl.append(company);
    expl.append(", this position has a ");
    expl.append(pct.as_str());
    expl.append("% compatibility match.");
    proof {
        assert(experience.details.deep_view() =~= seq!["Based on job description analysis"@]);
        assert(recommendations.deep_view() =~= seq![s.recommendations@]);
        assert(s.required_skills.deep_view().len() == s.required_skills@.len());
    }
    MatchAnalysis {
        overall_milli: s.match_score_milli,
        skills,
        experience,
        location: None,
        recommendations,
        job_requirements: duplicate_strings(&s.required_skills),
        missing_skills: duplicate_strings(&s.missing_skills),
        match_explanation: expl,
        service_status: String::from_str("ML service active"),
        from_oracle: true,
    }
}

/// Analyze a single job against a profile.  With an empty profile the
/// fallback analysis is used directly (the oracle is never consulted);
/// otherwise the oracle's result is shaped into the breakdown, and an
/// unavailable oracle falls back to the local analysis.
pub fn detail_match(
    skills: &Vec<String>,
    resume_text: &String,
    job: &Job,
    oracle: &OracleOutcome,
) -> (r: MatchAnalysis)
    requires
        outcome_wf(*oracle),
    ensures
        profile_empty(skills.deep_view(), resume_text@) ==> fallback_analysis_matches(
            r,
            job.description@,
            job.title@,
        ),
        !profile_empty(skills.deep_view(), resume_text@) && oracle is Scored
            ==> oracle_analysis_matches(r, oracle->0, job.title@, job.company@),
        !profile_empty(skills.deep_view(), resume_text@) && oracle is Unavailable
            ==> fallback_analysis_matches(r, job.description@, job.title@),
        r.overall_milli <= 100_000,
{
    if skills.len() == 0 && resume_text.as_str().is_empty() {
        return create_fallback_analysis(job.description.as_str(), job.title.as_str());
    }
    match oracle {
        OracleOutcome::Scored(s) => analyze_oracle_match(
            s,
            job.title.as_str(),
            job.company.as_str(),
        ),
        OracleOutcome::Unavailable => create_fallback_analysis(
            job.description.as_str(),
            job.title.as_str(),
        ),
    }
}


/// One entry of the weighted (term-weight-table) recommendation list.
pub struct WeightedRecommendation {
    pub job: Job,
    pub match_score: i32,
    pub explanation: String,
    pub matching_skills: Vec<String>,
    pub missing_skills: Vec<String>,
}

/// The text a job is scored on: its title and description.
pub open spec fn job_text_spec(job: Job) -> Seq<char> {
    job.title@ + "\n"@ + job.description@
}

/// The skill tokens a scoring pass walks: the distinct normalized tokens
/// in unweighted mode, the full normalized list in weighted mode.
pub open spec fn effective_tokens(m: Map<Seq<char>, u64>, skills: Seq<Seq<char>>) -> Seq<Seq<char>> {
    if m == Map::<Seq<char>, u64>::empty() {
        distinct_skill_tokens(skills)
    } else {
        norm_tokens(skills)
    }
}

/// The match score of one job against the skill set, in thousandths of a
/// percent.
pub open spec fn job_match_milli(m: Map<Seq<char>, u64>, skills: Seq<Seq<char>>, job: Job) -> int {
    let toks = tokenize_spec(job_text_spec(job));
    if m == Map::<Seq<char>, u64>::empty() {
        unweighted_score_spec(distinct_skill_tokens(skills), toks)
    } else {
        weighted_score_spec(m, norm_tokens(skills), toks)
    }
}

/// The (score, candidate index) pairs of the jobs whose weighted match
/// lies strictly above the 30-percent threshold, in candidate order.
pub open spec fn weighted_pairs(
    m: Map<Seq<char>, u64>,
    skills: Seq<Seq<char>>,
    jobs: Seq<Job>,
    upto: int,
) -> Seq<(u64, usize)>
    decreases upto,
{
    if upto <= 0 {
        Seq::<(u64, usize)>::empty()
    } else {
        let rest = weighted_pairs(m, skills, jobs, upto - 1);
        let sc = job_match_milli(m, skills, jobs[upto - 1]);
        if sc > 30_000 {
            rest.push((sc as u64, (upto - 1) as usize))
        } else {
            rest
        }
    }
}

/// Every weighted pair points at a job with that positive score, and the
/// pairs are in candidate order.
pub proof fn lemma_weighted_pairs_elems(
    m: Map<Seq<char>, u64>,
    skills: Seq<Seq<char>>,
    jobs: Seq<Job>,
    upto: int,
)
    requires
        upto <= jobs.len(),
        upto <= usize::MAX,
    ensures
        forall|e: (u64, usize)|
            #[trigger] weighted_pairs(m, skills, jobs, upto).contains(e) ==> 0 <= e.1 < upto
                && job_match_milli(m, skills, jobs[e.1 as int]) == e.0 && e.0 > 30_000,
        forall|i: int, j: int|
            0 <= i < j < weighted_pairs(m, skills, jobs, upto).len() ==> (
            #[trigger] weighted_pairs(m, skills, jobs, upto)[i]).1 < (#[trigger] weighted_pairs(
                m,
                skills,
                jobs,
                upto,
            )[j]).1,
    decreases upto,
{
    if upto > 0 {
        lemma_weighted_pairs_elems(m, skills, jobs, upto - 1);
        let rest = weighted_pairs(m, skills, jobs, upto - 1);
        let cur = weighted_pairs(m, skills, jobs, upto);
        let pushed = cur.len() > rest.len();
        assert forall|e: (u64, usize)| #[trigger] cur.contains(e) implies 0 <= e.1 < upto
            && job_match_milli(m, skills, jobs[e.1 as int]) == e.0 && e.0 > 30_000 by {
            let k = choose|k: int| 0 <= k < cur.len() && cur[k] == e;
            if pushed && k == cur.len() - 1 {
                assert(e == cur.last());
                let toks = tokenize_spec(job_text_spec(jobs[upto - 1]));
                crate::matching::lemma_scores_in_range(
                    m,
                    distinct_skill_tokens(skills),
                    norm_tokens(skills),
                    toks,
                );
                assert(0 <= job_match_milli(m, skills, jobs[upto - 1]) <= 100_000);
            } else {
                assert(cur[k] == rest[k]);
                assert(rest.contains(e));
            }
        }
        assert forall|i: int, j: int| 0 <= i < j < cur.len() implies (#[trigger] cur[i]).1 < (
        #[trigger] cur[j]).1 by {
            if pushed && j == cur.len() - 1 {
                assert(cur[i] == rest[i]);
                assert(rest.contains(rest[i]));
            } else {
                assert(cur[i] == rest[i]);
                assert(cur[j] == rest[j]);
            }
        }
    }
}

/// How one weighted recommendation relates to its job and score.
pub open spec fn weighted_rec_ok(
    rec: WeightedRecommendation,
    m: Map<Seq<char>, u64>,
    skills: Seq<Seq<char>>,
    job: Job,
    score: u64,
) -> bool {
    let toks = tokenize_spec(job_text_spec(job));
    &&& rec.job == job
    &&& rec.match_score == (score / 1000) as i32
    &&& rec.explanation@ == "Weighted skill overlap using dataset IDF model"@
    &&& rec.matching_skills.deep_view() == matched_tokens(effective_tokens(m, skills), toks)
    &&& rec.missing_skills.deep_view() == missing_tokens(effective_tokens(m, skills), toks)
}

/// Build the text a job is scored on.
fn job_text(job: &Job) -> (r: String)
    ensures
        r@ == job_text_spec(*job),
{
    let mut text = job.title.clone();
    text.append("\n");
    text.append(job.description.as_str());
    text
}

/// Rank a batch of jobs for a user by the local weighted match: every job
/// scoring strictly above the 30-percent threshold enters with its score,
/// the list is sorted by score descending (stably, in candidate order)
/// and truncated to `limit`.
pub fn rank_jobs_weighted(
    user_skills: &Vec<String>,
    jobs: &Vec<Job>,
    idf: &TermWeightTable,
    limit: usize,
) -> (r: Vec<WeightedRecommendation>)
    requires
        idf.wf(),
    ensures
        ({
            let m = idf.map_view();
            let skills = user_skills.deep_view();
            let sorted = sort_desc(weighted_pairs(m, skills, jobs@, jobs@.len() as int));
            let top = sorted.take(
                if limit < sorted.len() {
                    limit as int
                } else {
                    sorted.len() as int
                },
            );
            &&& r@.len() == top.len()
            &&& forall|k: int|
                0 <= k < top.len() ==> weighted_rec_ok(
                    #[trigger] r@[k],
                    m,
                    skills,
                    jobs@[top[k].1 as int],
                    top[k].0,
                )
        }),
{
    let ghost m = idf.map_view();
    let ghost skills = user_skills.deep_view();
    let n_jobs = jobs.len();
    let mut pairs: Vec<(u64, usize)> = Vec::new();
    let mut i: usize = 0;
    proof {
        assert(pairs@ =~= weighted_pairs(m, skills, jobs@, 0));
    }
    while i < n_jobs
        invariant
            i <= n_jobs,
            n_jobs == jobs@.len(),
            m == idf.map_view(),
            idf.wf(),
            skills == user_skills.deep_view(),
            pairs@ == weighted_pairs(m, skills, jobs@, i as int),
        decreases n_jobs - i,
    {
        let text = job_text(&jobs[i]);
        let scored = compute_weighted_match(user_skills, text.as_str(), idf);
        let sc = scored.0;
        proof {
            assert(sc == job_match_milli(m, skills, jobs@[i as int]));
        }
        if sc > 30_000 {
            pairs.push((sc, i));
        }
        i = i + 1;
    }
    let sorted = sort_pairs_desc(&pairs);
    proof {
        crate::ranking::lemma_sort_desc_props(pairs@);
        lemma_weighted_pairs_elems(m, skills, jobs@, jobs@.len() as int);
    }
    let take_n: usize = if limit < sorted.len() {
        limit
    } else {
        sorted.len()
    };
    let ghost top = sort_desc(weighted_pairs(m, skills, jobs@, jobs@.len() as int)).take(
        if (limit as int) < sort_desc(weighted_pairs(m, skills, jobs@, jobs@.len() as int)).len() {
            limit as int
        } else {
            sort_desc(weighted_pairs(m, skills, jobs@, jobs@.len() as int)).len() as int
        },
    );
    proof {
        assert(top == sorted@.take(take_n as int));
    }
    let mut out: Vec<WeightedRecommendation> = Vec::new();
    let mut k: usize = 0;
    while k < take_n
        invariant
            k <= take_n,
            take_n <= sorted@.len(),
            n_jobs == jobs@.len(),
            m == idf.map_view(),
            idf.wf(),
            skills == user_skills.deep_view(),
            top == sorted@.take(take_n as int),
            sorted@ == sort_desc(pairs@),
            pairs@ == weighted_pairs(m, skills, jobs@, jobs@.len() as int),
            out@.len() == k,
            forall|q: int|
                0 <= q < k ==> weighted_rec_ok(
                    #[trigger] out@[q],
                    m,
                    skills,
                    jobs@[top[q].1 as int],
                    top[q].0,
                ),
        decreases take_n - k,
    {
        let (score, idx) = sorted[k];
        proof {
            assert(sorted@.contains(sorted@[k as int]));
            crate::ranking::lemma_sort_desc_props(pairs@);
            lemma_weighted_pairs_elems(m, skills, jobs@, jobs@.len() as int);
            assert(pairs@.contains(sorted@[k as int]));
            assert(idx < jobs@.len());
            assert(top[k as int] == sorted@[k as int]);
        }
        let text = job_text(&jobs[idx]);
        let scored = compute_weighted_match(user_skills, text.as_str(), idf);
        let rec = WeightedRecommendation {
            job: jobs[idx].duplicate(),
            match_score: (score / 1000) as i32,
            explanation: String::from_str("Weighted skill overlap using dataset IDF model"),
            matching_skills: scored.1,
            missing_skills: scored.2,
        };
        out.push(rec);
        k = k + 1;
    }
    out
}


/// Score a batch by the cheap formula when the oracle yielded nothing:
/// every job enters with its cheap score (always at least 50, so always
/// above the threshold), ranked descending, stably, and capped at the ten
/// best.
pub fn generate_fallback_recommendations(jobs: &Vec<Job>, resume_text: &String) -> (r: Vec<
    JobRecommendation,
>)
    ensures
        ({
            let sorted = sort_desc(cheap_pairs(jobs@, resume_text@, jobs@.len() as int));
            let top = sorted.take(
                if sorted.len() > 10 {
                    10int
                } else {
                    sorted.len() as int
                },
            );
            &&& r@.len() == top.len()
            &&& forall|k: int|
                0 <= k < top.len() ==> cheap_rec_ok(
                    #[trigger] r@[k],
                    jobs@[top[k].1 as int],
                    top[k].0,
                )
        }),
{
    let ghost resume = resume_text@;
    let n_jobs = jobs.len();
    let mut pairs: Vec<(u64, usize)> = Vec::new();
    let mut i: usize = 0;
    proof {
        assert(pairs@ =~= cheap_pairs(jobs@, resume, 0));
    }
    while i < n_jobs
        invariant
            i <= n_jobs,
            n_jobs == jobs@.len(),
            resume == resume_text@,
            pairs@ == cheap_pairs(jobs@, resume, i as int),
        decreases n_jobs - i,
    {
        let stripped = strip_html(jobs[i].description.as_str());
        let sc = cheap_match_score(
            resume_text.as_str(),
            stripped.as_str(),
            jobs[i].title.as_str(),
        );
        pairs.push((sc, i));
        i = i + 1;
    }
    let sorted = sort_pairs_desc(&pairs);
    proof {
        crate::ranking::lemma_sort_desc_props(pairs@);
        lemma_cheap_pairs_elems(jobs@, resume, jobs@.len() as int);
    }
    let take_n: usize = if sorted.len() > 10 {
        10
    } else {
        sorted.len()
    };
    let ghost top = sort_desc(cheap_pairs(jobs@, resume, jobs@.len() as int)).take(
        if sort_desc(cheap_pairs(jobs@, resume, jobs@.len() as int)).len() > 10 {
            10int
        } else {
            sort_desc(cheap_pairs(jobs@, resume, jobs@.len() as int)).len() as int
        },
    );
    proof {
        assert(top == sorted@.take(take_n as int));
    }
    let mut out: Vec<JobRecommendation> = Vec::new();
    let mut k: usize = 0;
    while k < take_n
        invariant
            k <= take_n,
            take_n <= sorted@.len(),
            n_jobs == jobs@.len(),
            resume == resume_text@,
            top == sorted@.take(take_n as int),
            sorted@ == sort_desc(pairs@),
            pairs@ == cheap_pairs(jobs@, resume, jobs@.len() as int),
            out@.len() == k,
            forall|q: int|
                0 <= q < k ==> cheap_rec_ok(#[trigger] out@[q], jobs@[top[q].1 as int], top[q].0),
        decreases take_n - k,
    {
        let (score, idx) = sorted[k];
        proof {
            assert(jobs@.len() == n_jobs);
            assert(sorted@.contains(sorted@[k as int]));
            lemma_cheap_pairs_elems(jobs@, resume, jobs@.len() as int);
            crate::ranking::lemma_sort_desc_props(pairs@);
            assert(pairs@.contains(sorted@[k as int]));
            let w = choose|w: int| 0 <= w < pairs@.len() && pairs@[w] == sorted@[k as int];
            assert(pairs@[w] == (
                cheap_score_spec(
                    lower_of(resume),
                    lower_of(html_stripped(jobs@[w].description@)),
                    lower_of(jobs@[w].title@),
                ) as u64, w as usize));
            assert(idx < jobs@.len());
            assert(score <= 100);
            assert(top[k as int] == sorted@[k as int]);
        }
        let rec = JobRecommendation {
            job: jobs[idx].duplicate(),
            match_percentage: score as i32,
            skills_matched: 0,
            missing_skills: Vec::new(),
        };
        proof {
            assert(rec.missing_skills.deep_view() =~= Seq::<Seq<char>>::empty());
        }
        out.push(rec);
        k = k + 1;
    }
    out
}

} // verus!
