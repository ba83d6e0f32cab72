use joblens::jobsearch::{filter_jobs_by_query, find_job_by_external_id, first_jobs, paginate_jobs};
use joblens::models::{apply_user_update, Job, UpdateUserPayload, User};
use joblens::paths::{data_dir, jobs_cache_path, users_db_path};
use joblens::pipeline::rank_jobs_weighted;
use joblens::urlinfo::extract_job_id_from_url;
use joblens::weights::TermWeightTable;

fn job(id: &str, title: &str, company: &str, description: &str) -> Job {
    Job {
        id: id.to_string(),
        title: title.to_string(),
        company: company.to_string(),
        company_logo: None,
        location: None,
        url: format!("https://example.com/{}", id),
        description: description.to_string(),
        created_at: "2024-01-01T00:00:00Z".to_string(),
        external_id: Some(format!("ext-{}", id)),
        job_type: None,
        salary: None,
        category: None,
    }
}

#[test]
fn filter_matches_title_company_or_description() {
    let jobs = vec![
        job("A", "Python Developer", "Acme", "backend work"),
        job("B", "Designer", "Python Labs", "figma"),
        job("C", "Analyst", "Beta", "we love python here"),
        job("D", "Manager", "Gamma", "meetings"),
    ];
    let hits = filter_jobs_by_query(&jobs, &"PYTHON".to_string());
    let ids: Vec<&str> = hits.iter().map(|j| j.id.as_str()).collect();
    assert_eq!(ids, vec!["A", "B", "C"]);
}

#[test]
fn pagination_clips_to_the_list() {
    let jobs: Vec<Job> = (0..5).map(|i| job(&format!("J{}", i), "t", "c", "d")).collect();
    let page = paginate_jobs(&jobs, 1, 2);
    let ids: Vec<&str> = page.iter().map(|j| j.id.as_str()).collect();
    assert_eq!(ids, vec!["J1", "J2"]);
    assert_eq!(paginate_jobs(&jobs, 4, 10).len(), 1);
    assert_eq!(paginate_jobs(&jobs, 9, 2).len(), 0);
    assert_eq!(first_jobs(&jobs, 3).len(), 3);
    assert_eq!(first_jobs(&jobs, 9).len(), 5);
}

#[test]
fn find_by_external_id_returns_first_match() {
    let jobs = vec![job("A", "t", "c", "d"), job("B", "t", "c", "d")];
    let found = find_job_by_external_id(&jobs, &"ext-B".to_string()).expect("present");
    assert_eq!(found.id, "B");
    assert!(find_job_by_external_id(&jobs, &"ext-Z".to_string()).is_none());
}

#[test]
fn url_id_extraction() {
    assert_eq!(
        extract_job_id_from_url("https://remotive.com/remote-jobs/software-dev/job-title-123"),
        Some(123)
    );
    assert_eq!(extract_job_id_from_url("plain-slug-9"), Some(9));
    assert_eq!(extract_job_id_from_url("123"), Some(123));
    assert_eq!(extract_job_id_from_url("https://example.com/jobs/word"), None);
    assert_eq!(extract_job_id_from_url("https://example.com/jobs/"), None);
    assert_eq!(extract_job_id_from_url("x-99999999999"), None);
    assert_eq!(extract_job_id_from_url("x-2147483647"), Some(2147483647));
    assert_eq!(extract_job_id_from_url("x-2147483648"), None);
    assert_eq!(extract_job_id_from_url(""), None);
}

#[test]
fn store_paths() {
    assert_eq!(data_dir(), "./data");
    assert_eq!(users_db_path(), "./data/users.json");
    assert_eq!(jobs_cache_path(), "./data/jobs_cache.json");
}

#[test]
fn user_update_merges_fields() {
    let user = User {
        id: "u1".to_string(),
        email: "a@b.c".to_string(),
        password_hash: Some("h0".to_string()),
        first_name: "Ada".to_string(),
        last_name: "L".to_string(),
        skills: vec!["python".to_string()],
        experience_years: 3,
        location: "Berlin".to_string(),
        created_at: "t0".to_string(),
        updated_at: "t0".to_string(),
        resume_filename: None,
    };
    let payload = UpdateUserPayload {
        first_name: None,
        last_name: Some("Lovelace".to_string()),
        skills: Some(vec!["python".to_string(), "rust".to_string()]),
        experience_years: None,
        location: None,
    };
    let updated = apply_user_update(&user, &payload, "t1".to_string());
    assert_eq!(updated.first_name, "Ada");
    assert_eq!(updated.last_name, "Lovelace");
    assert_eq!(updated.skills, vec!["python", "rust"]);
    assert_eq!(updated.experience_years, 3);
    assert_eq!(updated.location, "Berlin");
    assert_eq!(updated.created_at, "t0");
    assert_eq!(updated.updated_at, "t1");
    assert_eq!(updated.id, "u1");
}

#[test]
fn weighted_ranking_orders_and_truncates() {
    let jobs = vec![
        job("A", "Python Dev", "Acme", "python things"),
        job("B", "React and Python", "Beta", "react python"),
        job("C", "Gardener", "Green", "plants"),
    ];
    let skills = vec!["python".to_string(), "react".to_string()];
    let table = TermWeightTable::new();
    let r = rank_jobs_weighted(&skills, &jobs, &table, 10);
    // C scores zero and is dropped; B matches both tokens, A only one.
    assert_eq!(r.len(), 2);
    assert_eq!(r[0].job.id, "B");
    assert_eq!(r[0].match_score, 100);
    assert_eq!(r[1].job.id, "A");
    assert_eq!(r[1].match_score, 50);
    assert_eq!(r[0].explanation, "Weighted skill overlap using dataset IDF model");
    assert_eq!(r[1].matching_skills, vec!["python"]);
    assert_eq!(r[1].missing_skills, vec!["react"]);
    let top1 = rank_jobs_weighted(&skills, &jobs, &table, 1);
    assert_eq!(top1.len(), 1);
    assert_eq!(top1[0].job.id, "B");
}

#[test]
fn weighted_ranking_discards_scores_at_or_below_30_percent() {
    // One of four distinct skills matched: 25%, at most 30, excluded;
    // two of four: 50%, included.
    let skills: Vec<String> =
        ["python", "rust", "go", "sql"].iter().map(|s| s.to_string()).collect();
    let jobs = vec![
        job("LOW", "zzz", "Acme", "python only here"),
        job("OK", "zzz", "Beta", "python and rust too"),
    ];
    let table = TermWeightTable::new();
    let r = rank_jobs_weighted(&skills, &jobs, &table, 10);
    assert_eq!(r.len(), 1);
    assert_eq!(r[0].job.id, "OK");
    assert_eq!(r[0].match_score, 50);
}

#[test]
fn weighted_ranking_uses_table_weights() {
    let jobs = vec![
        job("A", "zzz", "Acme", "python only"),
        job("B", "zzz", "Beta", "react only"),
    ];
    let skills = vec!["python".to_string(), "react".to_string()];
    let mut table = TermWeightTable::new();
    table.insert("python".to_string(), 1200);
    table.insert("react".to_string(), 1500);
    let r = rank_jobs_weighted(&skills, &jobs, &table, 10);
    // react weighs more, so B outranks A: 1.5/2.7 vs 1.2/2.7.
    assert_eq!(r.len(), 2);
    assert_eq!(r[0].job.id, "B");
    assert_eq!(r[0].match_score, 55);
    assert_eq!(r[1].job.id, "A");
    assert_eq!(r[1].match_score, 44);
}
