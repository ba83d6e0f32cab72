use joblens::models::Job;
use joblens::pipeline::{
    create_fallback_analysis, generate_fallback_recommendations, interpret_oracle_reply,
    oracle_calls_needed, recommend, OracleOutcome, OracleScore, RawOracleReply,
};

fn job(id: &str, title: &str, description: &str) -> Job {
    Job {
        id: id.to_string(),
        title: title.to_string(),
        company: "Acme".to_string(),
        company_logo: None,
        location: Some("Remote".to_string()),
        url: format!("https://example.com/{}", id),
        description: description.to_string(),
        created_at: "2024-01-01T00:00:00Z".to_string(),
        external_id: Some(id.to_string()),
        job_type: None,
        salary: None,
        category: None,
    }
}

fn scored(milli: u64) -> OracleOutcome {
    OracleOutcome::Scored(OracleScore {
        match_score_milli: milli,
        required_skills: Vec::new(),
        resume_skills: Vec::new(),
        skill_overlap: 0,
        missing_skills: Vec::new(),
        recommendations: "ok".to_string(),
        experience_match_milli: 500,
    })
}

fn skills(items: &[&str]) -> Vec<String> {
    items.iter().map(|s| s.to_string()).collect()
}

#[test]
fn ties_keep_candidate_order() {
    // A(80), B(80), C(90) in candidate order [A, B, C] must come out [C, A, B].
    let jobs = vec![job("A", "a", "da"), job("B", "b", "db"), job("C", "c", "dc")];
    let outcomes = vec![scored(80_000), scored(80_000), scored(90_000)];
    let r = recommend(&skills(&["python"]), 3, &String::new(), &jobs, &outcomes, 10);
    let ids: Vec<&str> = r.iter().map(|x| x.job.id.as_str()).collect();
    assert_eq!(ids, vec!["C", "A", "B"]);
    let scores: Vec<i32> = r.iter().map(|x| x.match_percentage).collect();
    assert_eq!(scores, vec![90, 80, 80]);
}

#[test]
fn truncation_keeps_the_highest_scores() {
    // 15 eligible jobs with limit 10 yield exactly the 10 highest.
    let mut jobs = Vec::new();
    let mut outcomes = Vec::new();
    for i in 0..15u64 {
        jobs.push(job(&format!("J{}", i), "t", "d"));
        outcomes.push(scored(40_000 + 1000 * i));
    }
    let r = recommend(&skills(&["python"]), 1, &String::new(), &jobs, &outcomes, 10);
    assert_eq!(r.len(), 10);
    let scores: Vec<i32> = r.iter().map(|x| x.match_percentage).collect();
    assert_eq!(scores, vec![54, 53, 52, 51, 50, 49, 48, 47, 46, 45]);
    let ids: Vec<&str> = r.iter().map(|x| x.job.id.as_str()).collect();
    assert_eq!(
        ids,
        vec!["J14", "J13", "J12", "J11", "J10", "J9", "J8", "J7", "J6", "J5"]
    );
}

#[test]
fn threshold_is_strict_at_30_percent() {
    let jobs = vec![job("A", "a", "da"), job("B", "b", "db")];
    let outcomes = vec![scored(30_000), scored(30_001)];
    let r = recommend(&skills(&["python"]), 0, &String::new(), &jobs, &outcomes, 10);
    assert_eq!(r.len(), 1);
    assert_eq!(r[0].job.id, "B");
    assert_eq!(r[0].match_percentage, 30);
}

#[test]
fn partial_failures_only_drop_their_own_jobs() {
    let jobs = vec![job("A", "a", "da"), job("B", "b", "db")];
    let outcomes = vec![OracleOutcome::Unavailable, scored(80_000)];
    let r = recommend(&skills(&["python"]), 0, &String::new(), &jobs, &outcomes, 10);
    assert_eq!(r.len(), 1);
    assert_eq!(r[0].job.id, "B");
}

#[test]
fn oracle_unavailable_batch_uses_cheap_formula() {
    // Every call timed out for a 3-job batch: the result must be nonempty
    // and scored by the cheap formula (base 50 + 5 per shared keyword).
    let resume = "experienced python and sql developer".to_string();
    let jobs = vec![
        job("A", "Data Engineer", "Develop python services"),
        job("B", "Backend Engineer", "Write sql and python code"),
        job("C", "Manager", "Lead meetings"),
    ];
    let outcomes = vec![
        OracleOutcome::Unavailable,
        OracleOutcome::Unavailable,
        OracleOutcome::Unavailable,
    ];
    let r = recommend(&skills(&["python"]), 2, &resume, &jobs, &outcomes, 10);
    assert_eq!(r.len(), 3);
    let ids: Vec<&str> = r.iter().map(|x| x.job.id.as_str()).collect();
    assert_eq!(ids, vec!["B", "A", "C"]);
    let scores: Vec<i32> = r.iter().map(|x| x.match_percentage).collect();
    assert_eq!(scores, vec![60, 55, 50]);
}

#[test]
fn cheap_formula_caps_at_100() {
    // 23 shared keywords would exceed 100; a title hit adds 10 more.
    let everything =
        "rust python javascript typescript react node.js docker kubernetes aws gcp sql \
         mongodb redis git linux java c++ go html css angular vue express engineer"
            .to_string();
    let jobs = vec![job("A", "engineer", &everything)];
    let outcomes = vec![OracleOutcome::Unavailable];
    let r = recommend(&skills(&["python"]), 0, &everything, &jobs, &outcomes, 10);
    assert_eq!(r.len(), 1);
    assert_eq!(r[0].match_percentage, 100);
}

#[test]
fn html_tags_hide_keywords_from_the_cheap_formula() {
    // The keyword occurs only inside an HTML tag, which stripping removes;
    // an unstripped description would still score the keyword.
    let resume = "python developer".to_string();
    let tagged = job("A", "zzz", "<img alt=python> frontend work");
    let plain = job("B", "zzz", "python frontend work");
    let r = generate_fallback_recommendations(&vec![tagged, plain], &resume);
    assert_eq!(r.len(), 2);
    assert_eq!(r[0].job.id, "B");
    assert_eq!(r[0].match_percentage, 55);
    assert_eq!(r[1].job.id, "A");
    assert_eq!(r[1].match_percentage, 50);
}

#[test]
fn empty_profile_yields_empty_list_without_oracle_calls() {
    let jobs = vec![job("A", "a", "da")];
    let outcomes = vec![OracleOutcome::Unavailable];
    let empty_skills: Vec<String> = Vec::new();
    assert!(!oracle_calls_needed(&empty_skills, &String::new()));
    let r = recommend(&empty_skills, 0, &String::new(), &jobs, &outcomes, 10);
    assert!(r.is_empty());
}

#[test]
fn resume_alone_still_drives_the_batch() {
    let resume = "python developer".to_string();
    assert!(oracle_calls_needed(&Vec::new(), &resume));
    let jobs = vec![job("A", "zzz", "python work")];
    let outcomes = vec![OracleOutcome::Unavailable];
    let r = recommend(&Vec::new(), 0, &resume, &jobs, &outcomes, 10);
    assert_eq!(r.len(), 1);
    assert_eq!(r[0].match_percentage, 55);
}

#[test]
fn transport_failure_is_unavailable() {
    let r = interpret_oracle_reply(false, None);
    assert!(matches!(r, OracleOutcome::Unavailable));
    let r2 = interpret_oracle_reply(
        false,
        Some(RawOracleReply {
            match_score_milli: Some(90_000),
            required_skills: None,
            resume_skills: None,
            skill_overlap: None,
            missing_skills: None,
            recommendations: None,
            experience_match_milli: None,
        }),
    );
    assert!(matches!(r2, OracleOutcome::Unavailable));
}

#[test]
fn unparsable_body_is_unavailable() {
    let r = interpret_oracle_reply(true, None);
    assert!(matches!(r, OracleOutcome::Unavailable));
}

#[test]
fn missing_fields_take_defaults() {
    let r = interpret_oracle_reply(
        true,
        Some(RawOracleReply {
            match_score_milli: None,
            required_skills: None,
            resume_skills: None,
            skill_overlap: None,
            missing_skills: None,
            recommendations: None,
            experience_match_milli: None,
        }),
    );
    match r {
        OracleOutcome::Scored(s) => {
            assert_eq!(s.match_score_milli, 0);
            assert_eq!(s.skill_overlap, 0);
            assert_eq!(s.experience_match_milli, 500);
            assert!(s.required_skills.is_empty());
            assert!(s.resume_skills.is_empty());
            assert!(s.missing_skills.is_empty());
            assert_eq!(s.recommendations, "Continue developing relevant skills");
        }
        OracleOutcome::Unavailable => panic!("expected a scored outcome"),
    }
}

#[test]
fn out_of_range_scores_are_clamped() {
    let r = interpret_oracle_reply(
        true,
        Some(RawOracleReply {
            match_score_milli: Some(250_000),
            required_skills: None,
            resume_skills: None,
            skill_overlap: Some(u64::MAX),
            missing_skills: None,
            recommendations: None,
            experience_match_milli: Some(-5),
        }),
    );
    match r {
        OracleOutcome::Scored(s) => {
            assert_eq!(s.match_score_milli, 100_000);
            assert_eq!(s.skill_overlap, 0x7FFF_FFFF);
            assert_eq!(s.experience_match_milli, 0);
        }
        OracleOutcome::Unavailable => panic!("expected a scored outcome"),
    }
}

#[test]
fn fallback_analysis_worked_example() {
    let r = create_fallback_analysis(
        "We need senior python and react engineers",
        "Senior Python Developer",
    );
    assert_eq!(r.skills.score_milli, 700);
    assert_eq!(r.skills.details, vec!["python", "react"]);
    assert_eq!(r.skills.explanation, "Found 2 relevant technical skills");
    assert_eq!(r.experience.score_milli, 800);
    assert_eq!(r.experience.explanation, "Senior level position identified");
    assert_eq!(
        r.experience.details,
        vec!["Requires senior-level experience"]
    );
    let loc = r.location.expect("fallback carries a location placeholder");
    assert_eq!(loc.score_milli, 800);
    assert_eq!(r.overall_milli, 76_600);
    assert_eq!(
        r.recommendations,
        vec![
            "Strong match - highlight relevant experience",
            "Tailor your application to showcase matching skills",
            "Emphasize leadership and mentoring experience",
        ]
    );
    assert_eq!(
        r.job_requirements,
        vec!["Standard software development requirements"]
    );
    assert_eq!(
        r.match_explanation,
        "Based on basic analysis of job requirements for Senior Python Developer, \
         this position has a 76% compatibility match. Note: ML service unavailable."
    );
    assert!(!r.from_oracle);
}
