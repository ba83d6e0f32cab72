use joblens::fallback::{
    analyze_experience_match, analyze_location_match, analyze_skills_match, cheap_match_score,
    extract_job_requirements, generate_recommendations, tech_keywords,
};
use joblens::models::Job;
use joblens::pipeline::{detail_match, OracleOutcome, OracleScore};

fn job(title: &str, description: &str, location: Option<&str>) -> Job {
    Job {
        id: "J1".to_string(),
        title: title.to_string(),
        company: "Acme".to_string(),
        company_logo: None,
        location: location.map(|l| l.to_string()),
        url: "https://example.com/J1".to_string(),
        description: description.to_string(),
        created_at: "2024-01-01T00:00:00Z".to_string(),
        external_id: None,
        job_type: None,
        salary: None,
        category: None,
    }
}

#[test]
fn keyword_vocabulary_is_fixed() {
    let kws = tech_keywords();
    assert_eq!(kws.len(), 23);
    assert_eq!(kws[0], "rust");
    assert_eq!(kws[22], "express");
}

#[test]
fn skills_sub_score_counts_keywords_capped() {
    let r = analyze_skills_match("python and react on docker with aws and sql and redis", "zzz");
    // Six keywords: 0.5 + 6 * 0.1 > 1.0, capped.
    assert_eq!(r.details, vec!["python", "react", "docker", "aws", "sql", "redis"]);
    assert_eq!(r.score_milli, 1000);
    assert_eq!(r.explanation, "Found 6 relevant technical skills");
    let none = analyze_skills_match("nothing relevant", "zzz");
    assert_eq!(none.score_milli, 500);
    assert!(none.details.is_empty());
}

#[test]
fn experience_levels_checked_in_priority_order() {
    assert_eq!(analyze_experience_match("SENIOR Role").score_milli, 800);
    assert_eq!(analyze_experience_match("senior role").score_milli, 800);
    assert_eq!(analyze_experience_match("lead a team").score_milli, 800);
    assert_eq!(analyze_experience_match("junior position").score_milli, 900);
    assert_eq!(analyze_experience_match("entry level").score_milli, 900);
    assert_eq!(analyze_experience_match("mid level work").score_milli, 700);
    assert_eq!(analyze_experience_match("plain work").score_milli, 600);
    // "senior" wins over "junior" when both occur.
    assert_eq!(
        analyze_experience_match("senior mentors junior staff").score_milli,
        800
    );
}

#[test]
fn experience_year_requirements_become_details() {
    let r = analyze_experience_match("senior role with 5+ years required");
    assert_eq!(
        r.details,
        vec!["Requires senior-level experience", "Requires 5+ years experience"]
    );
    let r3 = analyze_experience_match("3 years of shipping");
    assert_eq!(r3.details, vec!["Requires 3+ years experience"]);
}

#[test]
fn location_scoring() {
    assert_eq!(
        analyze_location_match(&Some("Remote - EU".to_string())).score_milli,
        1000
    );
    let berlin = analyze_location_match(&Some("Berlin".to_string()));
    assert_eq!(berlin.score_milli, 700);
    assert_eq!(berlin.explanation, "Location: Berlin");
    assert_eq!(berlin.details, vec!["Based in Berlin"]);
    assert_eq!(analyze_location_match(&None).score_milli, 800);
}

#[test]
fn recommendations_follow_score_bands() {
    let low = generate_recommendations(400, "Developer");
    assert_eq!(low[0], "Consider developing more relevant technical skills");
    let mid = generate_recommendations(600, "Developer");
    assert_eq!(mid[0], "Good foundation - focus on strengthening key skills");
    let high = generate_recommendations(800, "Developer");
    assert_eq!(high[0], "Strong match - highlight relevant experience");
    assert_eq!(high.len(), 2);
    let senior = generate_recommendations(800, "Senior Developer");
    assert_eq!(senior.len(), 3);
    assert_eq!(senior[2], "Emphasize leadership and mentoring experience");
}

#[test]
fn requirement_indicators_are_reported() {
    let r = extract_job_requirements("A bachelor degree is required");
    assert_eq!(
        r,
        vec![
            "Contains requirement: required",
            "Contains requirement: bachelor",
            "Contains requirement: degree",
        ]
    );
    let none = extract_job_requirements("fun team");
    assert_eq!(none, vec!["Standard software development requirements"]);
}

#[test]
fn cheap_score_formula_exact() {
    // Base 50, +5 per keyword shared, +10 when the resume holds the title.
    assert_eq!(cheap_match_score("python developer", "python shop", "zzz"), 55);
    assert_eq!(
        cheap_match_score("python developer", "python shop", "developer"),
        65
    );
    assert_eq!(cheap_match_score("nothing", "nothing", "zzz"), 50);
}

#[test]
fn detail_match_uses_oracle_when_available() {
    let outcome = OracleOutcome::Scored(OracleScore {
        match_score_milli: 87_000,
        required_skills: vec!["python".to_string(), "react".to_string()],
        resume_skills: vec!["python".to_string()],
        skill_overlap: 1,
        missing_skills: vec!["react".to_string()],
        recommendations: "Learn react".to_string(),
        experience_match_milli: 700,
    });
    let j = job("Backend Dev", "python work", None);
    let skills = vec!["python".to_string()];
    let r = detail_match(&skills, &String::new(), &j, &outcome);
    assert!(r.from_oracle);
    assert_eq!(r.overall_milli, 87_000);
    // One of two required skills: 0.5 in thousandths.
    assert_eq!(r.skills.score_milli, 500);
    assert_eq!(r.skills.explanation, "Found 1 matching skills out of 2 required");
    assert_eq!(r.skills.details, vec!["python"]);
    assert_eq!(r.experience.score_milli, 700);
    assert!(r.location.is_none());
    assert_eq!(r.recommendations, vec!["Learn react"]);
    assert_eq!(r.job_requirements, vec!["python", "react"]);
    assert_eq!(r.missing_skills, vec!["react"]);
    assert_eq!(
        r.match_explanation,
        "Based on ML analysis of job requirements for Backend Dev at Acme, \
         this position has a 87% compatibility match."
    );
    assert_eq!(r.service_status, "ML service active");
}

#[test]
fn detail_match_falls_back_when_oracle_unavailable() {
    let j = job("Senior Dev", "senior python work", None);
    let skills = vec!["python".to_string()];
    let r = detail_match(&skills, &String::new(), &j, &OracleOutcome::Unavailable);
    assert!(!r.from_oracle);
    assert_eq!(r.service_status, "Fallback analysis (ML service unavailable)");
    assert_eq!(r.experience.score_milli, 800);
}

#[test]
fn detail_match_skips_oracle_for_empty_profile() {
    // Even a scored oracle result is ignored when the profile is empty.
    let outcome = OracleOutcome::Scored(OracleScore {
        match_score_milli: 99_000,
        required_skills: Vec::new(),
        resume_skills: Vec::new(),
        skill_overlap: 0,
        missing_skills: Vec::new(),
        recommendations: "x".to_string(),
        experience_match_milli: 500,
    });
    let j = job("Dev", "python work", None);
    let r = detail_match(&Vec::new(), &String::new(), &j, &outcome);
    assert!(!r.from_oracle);
    assert_eq!(r.service_status, "Fallback analysis (ML service unavailable)");
}
