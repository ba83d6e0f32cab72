use joblens::matching::{compute_match, compute_weighted_match};
use joblens::weights::TermWeightTable;

fn sorted(mut v: Vec<String>) -> Vec<String> {
    v.sort();
    v
}

fn skills(items: &[&str]) -> Vec<String> {
    items.iter().map(|s| s.to_string()).collect()
}

#[test]
fn empty_skills_score_zero() {
    let (score, matched, missing) = compute_match(&skills(&[]), "python everywhere");
    assert_eq!(score, 0);
    assert!(matched.is_empty());
    assert!(missing.is_empty());
}

#[test]
fn skills_that_normalize_to_nothing_count_as_empty() {
    let (score, matched, missing) = compute_match(&skills(&["???", "!!"]), "python");
    assert_eq!(score, 0);
    assert!(matched.is_empty());
    assert!(missing.is_empty());
}

#[test]
fn unweighted_exact_thirds() {
    // 1 of 3 distinct tokens matched: 1/3 of 100% in thousandths of a percent.
    let (score, matched, missing) = compute_match(
        &skills(&["Python", "Rust", "Go"]),
        "we write python every day",
    );
    assert_eq!(score, 33333);
    assert_eq!(matched, vec!["python"]);
    assert_eq!(sorted(missing), vec!["go", "rust"]);
}

#[test]
fn unweighted_is_duplicate_insensitive() {
    let once = compute_match(&skills(&["python", "rust"]), "python");
    let dup = compute_match(&skills(&["python", "python", "rust"]), "python");
    assert_eq!(once.0, dup.0);
    assert_eq!(once.0, 50000);
}

#[test]
fn scores_stay_within_range() {
    let cases: [(&[&str], &str); 4] = [
        (&["python"], "python"),
        (&["python", "rust"], ""),
        (&["a", "b", "c", "d"], "a b"),
        (&["x"], "y z w"),
    ];
    for (sk, text) in cases {
        let (score, _, _) = compute_match(&skills(sk), text);
        assert!(score <= 100_000);
        let table = TermWeightTable::new();
        let (wscore, _, _) = compute_weighted_match(&skills(sk), text, &table);
        assert!(wscore <= 100_000);
    }
}

#[test]
fn matched_and_missing_partition_the_distinct_tokens() {
    let (_, matched, missing) = compute_match(
        &skills(&["Python", "python", "Rust", "SQL"]),
        "sql databases",
    );
    let mut union = matched.clone();
    union.extend(missing.iter().cloned());
    assert_eq!(sorted(union), vec!["python", "rust", "sql"]);
    for m in &matched {
        assert!(!missing.contains(m));
    }
}

#[test]
fn adding_missing_token_does_not_decrease_score() {
    let sk = skills(&["python", "rust", "go"]);
    let (before, _, missing) = compute_match(&sk, "python things");
    assert!(missing.contains(&"rust".to_string()));
    let (after, _, _) = compute_match(&sk, "python things rust");
    assert!(after >= before);
    assert_eq!(after, 66666);
}

#[test]
fn weighted_worked_example() {
    // IDF(python) = 1.2, IDF(react) = 1.5; document holds only "python":
    // 1.2 / (1.2 + 1.5) * 100% is about 44.4%.
    let mut table = TermWeightTable::new();
    table.insert("python".to_string(), 1200);
    table.insert("react".to_string(), 1500);
    let (score, matched, missing) = compute_weighted_match(
        &skills(&["python", "react"]),
        "we use python here",
        &table,
    );
    assert_eq!(score, 44444);
    assert_eq!(matched, vec!["python"]);
    assert_eq!(missing, vec!["react"]);
}

#[test]
fn weighted_uses_default_weight_for_unknown_tokens() {
    let mut table = TermWeightTable::new();
    table.insert("python".to_string(), 2000);
    // "rust" is absent from the table: weight 1.0. Score = 2.0/(2.0+1.0).
    let (score, _, _) = compute_weighted_match(&skills(&["python", "rust"]), "python", &table);
    assert_eq!(score, 66666);
}

#[test]
fn weighted_is_duplicate_sensitive() {
    let mut table = TermWeightTable::new();
    table.insert("python".to_string(), 1000);
    table.insert("rust".to_string(), 1000);
    let once = compute_weighted_match(&skills(&["python", "rust"]), "python", &table);
    let dup = compute_weighted_match(&skills(&["python", "python", "rust"]), "python", &table);
    assert_eq!(once.0, 50000);
    assert_eq!(dup.0, 66666);
    assert_ne!(once.0, dup.0);
}

#[test]
fn weighted_with_empty_table_falls_back_to_unweighted() {
    let table = TermWeightTable::new();
    let sk = skills(&["python", "python", "rust"]);
    let weighted = compute_weighted_match(&sk, "python", &table);
    let unweighted = compute_match(&sk, "python");
    assert_eq!(weighted.0, unweighted.0);
    assert_eq!(weighted.0, 50000);
}
