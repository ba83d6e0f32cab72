use joblens::corpus::{build_weight_table, weight_table_from_csv};
use joblens::weights::{idf_weight_milli, TermWeightTable};

#[test]
fn weight_of_token_in_every_document_is_one() {
    assert_eq!(idf_weight_milli(2, 2), 1000);
    assert_eq!(idf_weight_milli(3, 3), 1000);
    assert_eq!(idf_weight_milli(100, 100), 1000);
}

#[test]
fn rare_tokens_weigh_more_than_common_ones() {
    // docs = 3: ratios 2, 4/3 and 1.
    assert_eq!(idf_weight_milli(3, 1), 1693);
    assert_eq!(idf_weight_milli(3, 2), 1230);
    assert_eq!(idf_weight_milli(3, 3), 1000);
    assert!(idf_weight_milli(3, 1) > idf_weight_milli(3, 3));
}

#[test]
fn weights_never_fall_below_the_floor() {
    for docs in 1..20usize {
        for df in 1..=docs {
            assert!(idf_weight_milli(docs, df) >= 100);
        }
    }
}

#[test]
fn table_insert_and_get() {
    let mut table = TermWeightTable::new();
    assert!(table.is_empty());
    table.insert("python".to_string(), 1200);
    assert!(!table.is_empty());
    assert_eq!(table.len(), 1);
    assert_eq!(table.get(&"python".to_string()), Some(1200));
    assert_eq!(table.get(&"rust".to_string()), None);
    assert_eq!(table.weight_for(&"rust".to_string()), 1000);
}

#[test]
fn corpus_build_counts_distinct_tokens_per_record() {
    // Two records; "apple" in both, "banana" in one. A token that occurs in
    // every document weighs strictly less than one in a single document.
    let data = b"description\napple banana\napple apple\n";
    let table = weight_table_from_csv(data);
    assert_eq!(table.get(&"apple".to_string()), Some(1000));
    assert_eq!(table.get(&"banana".to_string()), Some(1346));
    // The header row is consumed, not counted as a document.
    assert_eq!(table.get(&"description".to_string()), None);
    assert_eq!(table.len(), 2);
}

#[test]
fn corpus_build_parses_quoted_fields() {
    // Real CSV quoting: the quotes are part of the syntax, not the data.
    let data = b"description\n\"hello, world\"\n";
    let table = weight_table_from_csv(data);
    assert_eq!(table.get(&"hello".to_string()), Some(1000));
    assert_eq!(table.get(&"world".to_string()), Some(1000));
    assert_eq!(table.len(), 2);
}

#[test]
fn corpus_build_picks_the_longest_field() {
    // Two columns; the longer field of each row is the description.
    let data = b"a,b\nshort,this python text is longer\nx,python again here\n";
    let table = weight_table_from_csv(data);
    // "python" occurs in both chosen descriptions.
    assert_eq!(table.get(&"python".to_string()), Some(1000));
    // The shorter fields are ignored.
    assert_eq!(table.get(&"short".to_string()), None);
    assert_eq!(table.get(&"x".to_string()), None);
}

#[test]
fn empty_corpus_yields_empty_table() {
    let table = weight_table_from_csv(b"");
    assert!(table.is_empty());
    let records: Vec<Vec<String>> = Vec::new();
    let table2 = build_weight_table(&records);
    assert!(table2.is_empty());
}

#[test]
fn records_without_tokens_are_skipped() {
    // The second record normalizes to nothing, so only one document counts.
    let data = b"description\napple\n???\n";
    let table = weight_table_from_csv(data);
    assert_eq!(table.get(&"apple".to_string()), Some(1000));
    assert_eq!(table.len(), 1);
}
