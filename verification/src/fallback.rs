//! Deterministic local fallback scoring.
//!
//! Two distinct formulas, kept separate on purpose because user-visible
//! explanation text differs by path: the rich single-job breakdown (skill,
//! experience and location sub-scores averaged) and the cheap batch
//! formula (base 50, +5 per shared keyword, +10 for a title hit, capped at
//! 100).  Sub-scores are held in thousandths: `1.0` is `1000`.

use vstd::prelude::*;

use crate::text::{dec_spec, is_substring, lower_of, str_contains, to_lowercase_text,
    u64_to_string};

verus! {

/// One sub-score of the rich fallback breakdown, in thousandths.
pub struct MatchScore {
    pub score_milli: u64,
    pub explanation: String,
    pub details: Vec<String>,
}

/// The fixed technology keyword vocabulary.
pub open spec fn tech_keywords_spec() -> Seq<Seq<char>> {
    seq![
        "rust"@,
        "python"@,
        "javascript"@,
        "typescript"@,
        "react"@,
        "node.js"@,
        "docker"@,
        "kubernetes"@,
        "aws"@,
        "gcp"@,
        "sql"@,
        "mongodb"@,
        "redis"@,
        "git"@,
        "linux"@,
        "java"@,
        "c++"@,
        "go"@,
        "html"@,
        "css"@,
        "angular"@,
        "vue"@,
        "express"@,
    ]
}

/// The fixed technology keyword vocabulary.
pub fn tech_keywords() -> (r: Vec<&'static str>)
    ensures
        r.deep_view() == tech_keywords_spec(),
{
    let r = vec![
        "rust",
        "python",
        "javascript",
        "typescript",
        "react",
        "node.js",
        "docker",
        "kubernetes",
        "aws",
        "gcp",
        "sql",
        "mongodb",
        "redis",
        "git",
        "linux",
        "java",
        "c++",
        "go",
        "html",
        "css",
        "angular",
        "vue",
        "express",
    ];
    proof {
        assert(r.deep_view() =~= tech_keywords_spec());
    }
    r
}

/// The keywords of the (prefix of the) vocabulary found in the job's
/// description or title, in vocabulary order.
pub open spec fn found_keywords(kws: Seq<Seq<char>>, desc: Seq<char>, title: Seq<char>) -> Seq<
    Seq<char>,
>
    decreases kws.len(),
{
    if kws.len() == 0 {
        Seq::<Seq<char>>::empty()
    } else {
        let rest = found_keywords(kws.drop_last(), desc, title);
        if is_substring(kws.last(), desc) || is_substring(kws.last(), title) {
            rest.push(kws.last())
        } else {
            rest
        }
    }
}

/// The keywords of the (prefix of the) vocabulary present in both texts,
/// in vocabulary order.
pub open spec fn shared_keywords(kws: Seq<Seq<char>>, a: Seq<char>, b: Seq<char>) -> Seq<Seq<char>>
    decreases kws.len(),
{
    if kws.len() == 0 {
        Seq::<Seq<char>>::empty()
    } else {
        let rest = shared_keywords(kws.drop_last(), a, b);
        if is_substring(kws.last(), a) && is_substring(kws.last(), b) {
            rest.push(kws.last())
        } else {
            rest
        }
    }
}

/// Skill sub-score: 0.5 base plus 0.1 per recognized keyword, capped at 1.0.
pub open spec fn skills_score_milli(found: int) -> int {
    if 500 + 100 * found > 1000 {
        1000
    } else {
        500 + 100 * found
    }
}

/// Skill sub-score of the rich fallback: each technology keyword found in
/// the job title or description raises the 0.5 base by 0.1, capped at 1.0.
pub fn analyze_skills_match(description: &str, title: &str) -> (r: MatchScore)
    ensures
        ({
            let found = found_keywords(
                tech_keywords_spec(),
                lower_of(description@),
                lower_of(title@),
            );
            &&& r.details.deep_view() == found
            &&& r.score_milli == skills_score_milli(found.len() as int)
            &&& r.explanation@ == "Found "@ + dec_spec(found.len() as int)
                + " relevant technical skills"@
        }),
{
    let desc_lower = to_lowercase_text(description);
    let title_lower = to_lowercase_text(title);
    let kws = tech_keywords();
    let ghost kws_view = tech_keywords_spec();
    let ghost d = lower_of(description@);
    let ghost t = lower_of(title@);
    let mut details: Vec<String> = Vec::new();
    let mut k: usize = 0;
    proof {
        assert(details.deep_view() =~= Seq::<Seq<char>>::empty());
        assert(kws_view.subrange(0, 0) =~= Seq::<Seq<char>>::empty());
    }
    while k < kws.len()
        invariant
            k <= kws.len(),
            kws.deep_view() == kws_view,
            kws_view.len() == 23,
            desc_lower@ == d,
            title_lower@ == t,
            details.deep_view() == found_keywords(kws_view.subrange(0, k as int), d, t),
            details.deep_view().len() <= k,
        decreases kws.len() - k,
    {
        let ghost prefix = kws_view.subrange(0, k as int);
        let ghost next = kws_view.subrange(0, k + 1);
        proof {
            assert(next.drop_last() =~= prefix);
            assert(next.last() == kws_view[k as int]);
            assert(kws_view[k as int] == kws@[k as int]@);
        }
        let kw = kws[k];
        if str_contains(desc_lower.as_str(), kw) || str_contains(title_lower.as_str(), kw) {
            let ghost old_d = details.deep_view();
            details.push(String::from_str(kw));
            proof {
                assert(details.deep_view() =~= old_d.push(kws_view[k as int]));
            }
        }
        k = k + 1;
    }
    proof {
        assert(kws_view.subrange(0, kws_view.len() as int) =~= kws_view);
    }
    let found = details.len();
    let score_milli: u64 = if 500 + 100 * (found as u64) > 1000 {
        1000
    } else {
        500 + 100 * (found as u64)
    };
    let num = u64_to_string(found as u64);
    let mut explanation = String::from_str("Found ");
    explanation.append(num.as_str());
    explanation.append(" relevant technical skills");
    MatchScore { score_milli, explanation, details }
}

/// Experience sub-score of a description (already lowercased): senior or
/// lead 0.8; else junior or entry 0.9; else mid or intermediate 0.7; else
/// the 0.6 default.
pub open spec fn experience_score_milli(d: Seq<char>) -> int {
    if is_substring("senior"@, d) || is_substring("lead"@, d) {
        800
    } else if is_substring("junior"@, d) || is_substring("entry"@, d) {
        900
    } else if is_substring("mid"@, d) || is_substring("intermediate"@, d) {
        700
    } else {
        600
    }
}

/// The explanation text that goes with the experience sub-score.
pub open spec fn experience_explanation(d: Seq<char>) -> Seq<char> {
    if is_substring("senior"@, d) || is_substring("lead"@, d) {
        "Senior level position identified"@
    } else if is_substring("junior"@, d) || is_substring("entry"@, d) {
        "Entry level position identified"@
    } else if is_substring("mid"@, d) || is_substring("intermediate"@, d) {
        "Mid-level position identified"@
    } else {
        "Experience requirements analysis"@
    }
}

/// The level detail lines of the experience sub-score.
pub open spec fn experience_level_details(d: Seq<char>) -> Seq<Seq<char>> {
    if is_substring("senior"@, d) || is_substring("lead"@, d) {
        seq!["Requires senior-level experience"@]
    } else if is_substring("junior"@, d) || is_substring("entry"@, d) {
        seq!["Suitable for junior developers"@]
    } else if is_substring("mid"@, d) || is_substring("intermediate"@, d) {
        seq!["Requires intermediate experience"@]
    } else {
        Seq::<Seq<char>>::empty()
    }
}

/// The year-requirement detail lines of the experience sub-score.
pub open spec fn experience_year_details(d: Seq<char>) -> Seq<Seq<char>> {
    if is_substring("5+ years"@, d) || is_substring("5 years"@, d) {
        seq!["Requires 5+ years experience"@]
    } else if is_substring("3+ years"@, d) || is_substring("3 years"@, d) {
        seq!["Requires 3+ years experience"@]
    } else {
        Seq::<Seq<char>>::empty()
    }
}

/// Experience sub-score of the rich fallback, from level words found in
/// the description, checked in priority order, plus year-requirement
/// details.
pub fn analyze_experience_match(description: &str) -> (r: MatchScore)
    ensures
        ({
            let d = lower_of(description@);
            &&& r.score_milli == experience_score_milli(d)
            &&& r.explanation@ == experience_explanation(d)
            &&& r.details.deep_view() == experience_level_details(d) + experience_year_details(d)
        }),
{
    let desc_lower = to_lowercase_text(description);
    let ghost d = lower_of(description@);
    let mut score: u64 = 600;
    let mut explanation = String::from_str("Experience requirements analysis");
    let mut details: Vec<String> = Vec::new();
    if str_contains(desc_lower.as_str(), "senior") || str_contains(desc_lower.as_str(), "lead") {
        score = 800;
        explanation = String::from_str("Senior level position identified");
        details.push(String::from_str("Requires senior-level experience"));
    } else if str_contains(desc_lower.as_str(), "junior") || str_contains(
        desc_lower.as_str(),
        "entry",
    ) {
        score = 900;
        explanation = String::from_str("Entry level position identified");
        details.push(String::from_str("Suitable for junior developers"));
    } else if str_contains(desc_lower.as_str(), "mid") || str_contains(
        desc_lower.as_str(),
        "intermediate",
    ) {
        score = 700;
        explanation = String::from_str("Mid-level position identified");
        details.push(String::from_str("Requires intermediate experience"));
    }
    proof {
        assert(details.deep_view() =~= experience_level_details(d));
    }
    let ghost level_details = details.deep_view();
    if str_contains(desc_lower.as_str(), "5+ years") || str_contains(
        desc_lower.as_str(),
        "5 years",
    ) {
        details.push(String::from_str("Requires 5+ years experience"));
        proof {
            assert(details.deep_view() =~= level_details + experience_year_details(d));
        }
    } else if str_contains(desc_lower.as_str(), "3+ years") || str_contains(
        desc_lower.as_str(),
        "3 years",
    ) {
        details.push(String::from_str("Requires 3+ years experience"));
        proof {
            assert(details.deep_view() =~= level_details + experience_year_details(d));
        }
    } else {
        proof {
            assert(details.deep_view() =~= level_details + experience_year_details(d));
        }
    }
    MatchScore { score_milli: score, explanation, details }
}

/// Location sub-score: remote 1.0, any other given location 0.7, absent 0.8.
pub open spec fn location_score_milli(location: Option<Seq<char>>) -> int {
    match location {
        Some(l) => if is_substring("remote"@, lower_of(l)) {
            1000
        } else {
            700
        },
        None => 800,
    }
}

/// Location sub-score of the rich fallback.
pub fn analyze_location_match(location: &Option<String>) -> (r: MatchScore)
    ensures
        ({
            let lv = match *location {
                Some(l) => Some(l@),
                None => None,
            };
            &&& r.score_milli == location_score_milli(lv)
            &&& match *location {
                Some(l) => if is_substring("remote"@, lower_of(l@)) {
                    r.explanation@ == "Remote position - perfect location match"@
                        && r.details.deep_view() =~= seq!["Remote work opportunity"@]
                } else {
                    r.explanation@ == "Location: "@ + l@ && r.details.deep_view() =~= seq![
                        "Based in "@ + l@,
                    ]
                },
                None => r.explanation@ == "Location not specified"@ && r.details.deep_view() =~= seq![
                    "Location requirements unclear"@,
                ],
            }
        }),
{
    match location {
        Some(loc) => {
            let loc_lower = to_lowercase_text(loc.as_str());
            if str_contains(loc_lower.as_str(), "remote") {
                let mut details: Vec<String> = Vec::new();
                details.push(String::from_str("Remote work opportunity"));
                MatchScore {
                    score_milli: 1000,
                    explanation: String::from_str("Remote position - perfect location match"),
                    details,
                }
            } else {
                let mut explanation = String::from_str("Location: ");
                explanation.append(loc.as_str());
                let mut based = String::from_str("Based in ");
                based.append(loc.as_str());
                let mut details: Vec<String> = Vec::new();
                details.push(based);
                MatchScore { score_milli: 700, explanation, details }
            }
        },
        None => {
            let mut details: Vec<String> = Vec::new();
            details.push(String::from_str("Location requirements unclear"));
            MatchScore {
                score_milli: 800,
                explanation: String::from_str("Location not specified"),
                details,
            }
        },
    }
}

/// The guidance lines offered for an overall score (in thousandths) and a
/// job title (already lowercased): two lines per score band, plus one more
/// for senior roles.
pub open spec fn recommendations_spec(overall_milli: int, title: Seq<char>) -> Seq<Seq<char>> {
    let base: Seq<Seq<char>> = if overall_milli < 500 {
        seq![
            "Consider developing more relevant technical skills"@,
            "Look for entry-level positions to gain experience"@,
        ]
    } else if overall_milli < 700 {
        seq![
            "Good foundation - focus on strengthening key skills"@,
            "Consider relevant certifications or training"@,
        ]
    } else {
        seq![
            "Strong match - highlight relevant experience"@,
            "Tailor your application to showcase matching skills"@,
        ]
    };
    if is_substring("senior"@, title) {
        base.push("Emphasize leadership and mentoring experience"@)
    } else {
        base
    }
}

/// Guidance lines for an overall score and a job title.
pub fn generate_recommendations(overall_milli: u64, title: &str) -> (r: Vec<String>)
    ensures
        r.deep_view() == recommendations_spec(overall_milli as int, lower_of(title@)),
{
    let mut recommendations: Vec<String> = Vec::new();
    if overall_milli < 500 {
        recommendations.push(String::from_str("Consider developing more relevant technical skills"));
        recommendations.push(String::from_str("Look for entry-level positions to gain experience"));
    } else if overall_milli < 700 {
        recommendations.push(
            String::from_str("Good foundation - focus on strengthening key skills"),
        );
        recommendations.push(String::from_str("Consider relevant certifications or training"));
    } else {
        recommendations.push(String::from_str("Strong match - highlight relevant experience"));
        recommendations.push(
            String::from_str("Tailor your application to showcase matching skills"),
        );
    }
    let title_lower = to_lowercase_text(title);
    if str_contains(title_lower.as_str(), "senior") {
        recommendations.push(
            String::from_str("Emphasize leadership and mentoring experience"),
        );
    }
    proof {
        assert(recommendations.deep_view() =~= recommendations_spec(
            overall_milli as int,
            lower_of(title@),
        ));
    }
    recommendations
}

/// The requirement-indicator words looked for in a description.
pub open spec fn requirement_patterns_spec() -> Seq<Seq<char>> {
    seq![
        "required"@,
        "must have"@,
        "essential"@,
        "mandatory"@,
        "minimum"@,
        "bachelor"@,
        "degree"@,
        "certification"@,
        "years of experience"@,
    ]
}

/// The requirement lines reported for the indicator words present in the
/// description (already lowercased), in their fixed order.
pub open spec fn requirements_found(pats: Seq<Seq<char>>, d: Seq<char>) -> Seq<Seq<char>>
    decreases pats.len(),
{
    if pats.len() == 0 {
        Seq::<Seq<char>>::empty()
    } else {
        let rest = requirements_found(pats.drop_last(), d);
        if is_substring(pats.last(), d) {
            rest.push("Contains requirement: "@ + pats.last())
        } else {
            rest
        }
    }
}

/// The requirement lines of a description; a fixed default line when no
/// indicator word occurs.
pub open spec fn requirements_spec(d: Seq<char>) -> Seq<Seq<char>> {
    let found = requirements_found(requirement_patterns_spec(), d);
    if found.len() == 0 {
        seq!["Standard software development requirements"@]
    } else {
        found
    }
}

/// Extract requirement indicators from a job description.
pub fn extract_job_requirements(description: &str) -> (r: Vec<String>)
    ensures
        r.deep_view() == requirements_spec(lower_of(description@)),
{
    let desc_lower = to_lowercase_text(description);
    let ghost d = lower_of(description@);
    let patterns = vec![
        "required",
        "must have",
        "essential",
        "mandatory",
        "minimum",
        "bachelor",
        "degree",
        "certification",
        "years of experience",
    ];
    let ghost pats = requirement_patterns_spec();
    proof {
        assert(patterns.deep_view() =~= pats);
    }
    let mut requirements: Vec<String> = Vec::new();
    let mut k: usize = 0;
    proof {
        assert(requirements.deep_view() =~= Seq::<Seq<char>>::empty());
        assert(pats.subrange(0, 0) =~= Seq::<Seq<char>>::empty());
    }
    while k < patterns.len()
        invariant
            k <= patterns.len(),
            patterns.deep_view() == pats,
            pats.len() == 9,
            desc_lower@ == d,
            requirements.deep_view() == requirements_found(pats.subrange(0, k as int), d),
        decreases patterns.len() - k,
    {
        let ghost prefix = pats.subrange(0, k as int);
        let ghost next = pats.subrange(0, k + 1);
        proof {
            assert(next.drop_last() =~= prefix);
            assert(next.last() == pats[k as int]);
            assert(pats[k as int] == patterns@[k as int]@);
        }
        let pat = patterns[k];
        if str_contains(desc_lower.as_str(), pat) {
            let mut line = String::from_str("Contains requirement: ");
            line.append(pat);
            let ghost old_r = requirements.deep_view();
            requirements.push(line);
            proof {
                assert(requirements.deep_view() =~= old_r.push("Contains requirement: "@ + pats[k as int]));
            }
        }
        k = k + 1;
    }
    proof {
        assert(pats.subrange(0, pats.len() as int) =~= pats);
    }
    if requirements.len() == 0 {
        requirements.push(String::from_str("Standard software development requirements"));
        proof {
            assert(requirements.deep_view() =~= seq!["Standard software development requirements"@]);
        }
    }
    requirements
}

/// The cheap batch score: base 50, +5 for every technology keyword present
/// in both the resume text and the (HTML-stripped) job description, +10
/// when the resume holds the job title as a substring, capped at 100.
/// Inputs are the lowercased texts; the result is an integer percentage.
pub open spec fn cheap_score_spec(resume: Seq<char>, desc: Seq<char>, title: Seq<char>) -> int {
    let shared = shared_keywords(tech_keywords_spec(), resume, desc).len() as int;
    let with_title = 50 + 5 * shared + (if is_substring(title, resume) {
        10int
    } else {
        0int
    });
    if with_title > 100 {
        100
    } else {
        with_title
    }
}

/// Cheap batch score of one job against a resume text.  `description`
/// must already have HTML stripped; lowercasing happens here.
pub fn cheap_match_score(resume_text: &str, description: &str, title: &str) -> (r: u64)
    ensures
        r == cheap_score_spec(lower_of(resume_text@), lower_of(description@), lower_of(title@)),
        50 <= r <= 100,
{
    let resume_lower = to_lowercase_text(resume_text);
    let desc_lower = to_lowercase_text(description);
    let title_lower = to_lowercase_text(title);
    let ghost rl = lower_of(resume_text@);
    let ghost dl = lower_of(description@);
    let kws = tech_keywords();
    let ghost kws_view = tech_keywords_spec();
    let mut shared: u64 = 0;
    let mut k: usize = 0;
    proof {
        assert(kws_view.subrange(0, 0) =~= Seq::<Seq<char>>::empty());
    }
    while k < kws.len()
        invariant
            k <= kws.len(),
            kws.deep_view() == kws_view,
            kws_view.len() == 23,
            resume_lower@ == rl,
            desc_lower@ == dl,
            shared == shared_keywords(kws_view.subrange(0, k as int), rl, dl).len(),
            shared <= k,
        decreases kws.len() - k,
    {
        let ghost prefix = kws_view.subrange(0, k as int);
        let ghost next = kws_view.subrange(0, k + 1);
        proof {
            assert(next.drop_last() =~= prefix);
            assert(next.last() == kws_view[k as int]);
            assert(kws_view[k as int] == kws@[k as int]@);
        }
        let kw = kws[k];
        if str_contains(resume_lower.as_str(), kw) && str_contains(desc_lower.as_str(), kw) {
            shared = shared + 1;
        }
        k = k + 1;
    }
    proof {
        assert(kws_view.subrange(0, kws_view.len() as int) =~= kws_view);
    }
    let mut score: u64 = 50 + 5 * shared;
    if str_contains(resume_lower.as_str(), title_lower.as_str()) {
        score = score + 10;
    }
    if score > 100 {
        score = 100;
    }
    score
}

} // verus!
