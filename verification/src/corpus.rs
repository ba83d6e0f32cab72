//! Building the term-weight table from the reference corpus.
//!
//! The corpus is a tabular (CSV) file.  No designated description column is
//! known, so each record's description is chosen heuristically: the longest
//! field of the row — a deliberately fragile heuristic kept as a documented
//! limitation.  Each record contributes its *distinct* token set to the
//! document-frequency counts; records without tokens are skipped.  A
//! missing or empty corpus yields an empty table, which every consumer
//! treats as "operate unweighted".

use vstd::prelude::*;

use crate::matching::dedup_seq;
use crate::text::{tokenize, tokenize_spec};
use crate::weights::{
    distinct_keys, entries_map, entry_views, idf_weight_milli, idf_weight_spec,
    lemma_entries_map_props, TermWeightTable,
};

verus! {

/// What parsing CSV bytes yields: the field lists of the well-formed
/// records, in order, the header row excluded.
pub uninterp spec fn csv_records_of(bytes: Seq<u8>) -> Seq<Seq<Seq<char>>>;

/// Relies on `csv::ReaderBuilder` / `Reader::records` (first row treated
/// as header, unreadable records skipped): the parse depends on the input
/// bytes alone.
#[verifier::external_body]
fn parse_csv_records(bytes: &[u8]) -> (r: Vec<Vec<String>>)
    ensures
        r.deep_view() == csv_records_of(bytes@),
{
    let mut rdr = csv::ReaderBuilder::new().has_headers(true).from_reader(bytes);
    let mut out: Vec<Vec<String>> = Vec::new();
    for result in rdr.records() {
        if let Ok(rec) = result {
            out.push(rec.iter().map(|f| f.to_string()).collect());
        }
    }
    out
}

/// UTF-8 byte length of a text.
pub open spec fn byte_len(t: Seq<char>) -> nat {
    vstd::utf8::encode_utf8(t).len()
}

/// The first field of maximal byte length; empty when the record has no
/// fields.
pub open spec fn longest_field(fields: Seq<Seq<char>>) -> Seq<char>
    decreases fields.len(),
{
    if fields.len() == 0 {
        Seq::<char>::empty()
    } else if fields.len() == 1 {
        fields[0]
    } else {
        let prev = longest_field(fields.drop_last());
        if byte_len(fields.last()) > byte_len(prev) {
            fields.last()
        } else {
            prev
        }
    }
}

/// The distinct tokens of a record's heuristically chosen description.
pub open spec fn record_tokens(rec: Seq<Seq<char>>) -> Seq<Seq<char>> {
    dedup_seq(tokenize_spec(longest_field(rec)))
}

/// How many records of the corpus yield a nonempty token set.
pub open spec fn doc_count(records: Seq<Seq<Seq<char>>>) -> int
    decreases records.len(),
{
    if records.len() == 0 {
        0
    } else {
        doc_count(records.drop_last()) + (if record_tokens(records.last()).len() > 0 {
            1int
        } else {
            0int
        })
    }
}

/// In how many records of the corpus the token occurs.
pub open spec fn df_count(records: Seq<Seq<Seq<char>>>, t: Seq<char>) -> int
    decreases records.len(),
{
    if records.len() == 0 {
        0
    } else {
        df_count(records.drop_last(), t) + (if record_tokens(records.last()).contains(t) {
            1int
        } else {
            0int
        })
    }
}

/// A token's document frequency never exceeds the document count.
pub proof fn lemma_df_le_docs(records: Seq<Seq<Seq<char>>>, t: Seq<char>)
    ensures
        0 <= df_count(records, t) <= doc_count(records),
        doc_count(records) <= records.len(),
    decreases records.len(),
{
    if records.len() > 0 {
        lemma_df_le_docs(records.drop_last(), t);
    }
}

/// The first field of maximal byte length of a record.
fn longest_field_exec(fields: &Vec<String>) -> (r: String)
    ensures
        r@ == longest_field(fields.deep_view()),
{
    if fields.len() == 0 {
        let r = String::new();
        return r;
    }
    let mut best: usize = 0;
    let mut k: usize = 1;
    while k < fields.len()
        invariant
            1 <= k <= fields.len(),
            best < k,
            fields.deep_view()[best as int] == longest_field(
                fields.deep_view().subrange(0, k as int),
            ),
        decreases fields.len() - k,
    {
        let ghost dv = fields.deep_view();
        let ghost prefix = dv.subrange(0, k as int);
        let ghost next = dv.subrange(0, k + 1);
        proof {
            assert(next.drop_last() =~= prefix);
            assert(next.last() == dv[k as int]);
            assert(dv[k as int] == fields@[k as int]@);
            assert(dv[best as int] == fields@[best as int]@);
        }
        let len_k = fields[k].as_str().as_bytes().len();
        let len_best = fields[best].as_str().as_bytes().len();
        proof {
            assert(len_k == byte_len(dv[k as int]));
            assert(len_best == byte_len(dv[best as int]));
        }
        if len_k > len_best {
            best = k;
        }
        k = k + 1;
    }
    proof {
        let dv = fields.deep_view();
        assert(dv.subrange(0, dv.len() as int) =~= dv);
        assert(fields.deep_view()[best as int] == fields@[best as int]@);
    }
    fields[best].clone()
}

/// The document-frequency counts agree with the corpus seen so far.
pub open spec fn counts_match(m: Map<Seq<char>, u64>, records: Seq<Seq<Seq<char>>>) -> bool {
    &&& forall|t: Seq<char>| #[trigger] m.contains_key(t) <==> df_count(records, t) >= 1
    &&& forall|t: Seq<char>| #[trigger] m.contains_key(t) ==> m[t] == df_count(records, t)
}

/// Raise the token's document-frequency count by one (a first occurrence
/// starts at one).
fn bump_count(counts: &mut Vec<(String, u64)>, token: &String)
    requires
        distinct_keys(entry_views(old(counts)@)),
        entries_map(entry_views(old(counts)@)).contains_key(token@) ==> entries_map(
            entry_views(old(counts)@),
        )[token@] < 0xFFFF_FFFF_FFFF_FFFFu64,
    ensures
        distinct_keys(entry_views(final(counts)@)),
        entries_map(entry_views(final(counts)@)) == entries_map(entry_views(old(counts)@)).insert(
            token@,
            (if entries_map(entry_views(old(counts)@)).contains_key(token@) {
                (entries_map(entry_views(old(counts)@))[token@] + 1) as u64
            } else {
                1u64
            }),
        ),
{
    let ghost old_vec = old(counts)@;
    let ghost old_views = entry_views(old_vec);
    let ghost old_map = entries_map(old_views);
    proof {
        lemma_entries_map_props(old_views);
    }
    let mut i: usize = 0;
    while i < counts.len()
        invariant
            i <= counts.len(),
            counts@ == old(counts)@,
            old_vec == old(counts)@,
            old_views == entry_views(old_vec),
            old_map == entries_map(old_views),
            distinct_keys(old_views),
            old_map.contains_key(token@) ==> old_map[token@] < 0xFFFF_FFFF_FFFF_FFFFu64,
            forall|j: int| 0 <= j < i ==> (#[trigger] old_views[j]).0 != token@,
        decreases counts.len() - i,
    {
        proof {
            assert(old_views[i as int].0 == counts@[i as int].0@);
        }
        if counts[i].0.eq(token) {
            let ghost n = old_vec.len() as int;
            let entry = counts.remove(i);
            let c = entry.1;
            proof {
                lemma_entries_map_props(old_views);
                assert(entry == old_vec[i as int]);
                assert(old_views[i as int].0 == token@);
                assert(old_views[i as int].1 == c);
                assert(exists|q: int| 0 <= q < old_views.len() && old_views[q].0 == token@);
                assert(old_map.contains_key(token@));
                assert(old_map[token@] == c);
                assert(c < 0xFFFF_FFFF_FFFF_FFFFu64);
            }
            counts.push((entry.0, c + 1));
            proof {
                let new_views = entry_views(counts@);
                assert(counts@ == old_vec.remove(i as int).push((old_vec[i as int].0, (c
                    + 1) as u64)));
                assert(new_views.len() == n);
                assert forall|p: int| 0 <= p < n - 1 implies #[trigger] new_views[p] == (if p
                    < i {
                    old_views[p]
                } else {
                    old_views[p + 1]
                }) by {
                    old_vec.remove_ensures(i as int);
                    assert(counts@[p] == old_vec.remove(i as int)[p]);
                }
                assert(counts@[n - 1] == (old_vec[i as int].0, (c + 1) as u64));
                assert(new_views[n - 1] == (token@, (c + 1) as u64));
                // Distinctness of the rearranged entries.
                assert forall|p: int, q: int|
                    0 <= p < q < n implies new_views[p].0 != new_views[q].0 by {
                    if q < n - 1 {
                        let p0: int = if p < i {
                            p
                        } else {
                            p + 1
                        };
                        let q0: int = if q < i {
                            q
                        } else {
                            q + 1
                        };
                        assert(new_views[p] == old_views[p0]);
                        assert(new_views[q] == old_views[q0]);
                    } else {
                        let p0: int = if p < i {
                            p
                        } else {
                            p + 1
                        };
                        assert(new_views[p] == old_views[p0]);
                        assert(p0 != i);
                        assert(new_views[q].0 == token@);
                    }
                }
                lemma_entries_map_props(new_views);
                let target = old_map.insert(token@, (c + 1) as u64);
                assert forall|t: Seq<char>|
                    entries_map(new_views).contains_key(t) == target.contains_key(t) by {
                    if entries_map(new_views).contains_key(t) {
                        let j = choose|j: int| 0 <= j < n && new_views[j].0 == t;
                        if j < n - 1 {
                            let j0: int = if j < i {
                                j
                            } else {
                                j + 1
                            };
                            assert(old_views[j0].0 == t);
                            assert(old_map.contains_key(t));
                        } else {
                            assert(t == token@);
                        }
                    }
                    if target.contains_key(t) {
                        if t == token@ {
                            assert(new_views[n - 1].0 == t);
                        } else {
                            let j0 = choose|j0: int| 0 <= j0 < n && old_views[j0].0 == t;
                            assert(j0 != i);
                            let j: int = if j0 < i {
                                j0
                            } else {
                                j0 - 1
                            };
                            assert(new_views[j].0 == t);
                        }
                    }
                }
                assert forall|t: Seq<char>|
                    #[trigger] entries_map(new_views).contains_key(t) implies entries_map(
                    new_views,
                )[t] == target[t] by {
                    if t == token@ {
                        assert(new_views[n - 1] == (token@, (c + 1) as u64));
                        assert(entries_map(new_views)[t] == (c + 1) as u64);
                    } else {
                        let j = choose|j: int| 0 <= j < n && new_views[j].0 == t;
                        assert(j < n - 1);
                        let j0: int = if j < i {
                            j
                        } else {
                            j + 1
                        };
                        assert(new_views[j] == old_views[j0]);
                        assert(entries_map(new_views)[t] == new_views[j].1);
                        assert(old_map[t] == old_views[j0].1);
                    }
                }
                assert(entries_map(new_views) =~= target);
            }
            return ;
        }
        i = i + 1;
    }
    proof {
        if old_map.contains_key(token@) {
            let j = choose|j: int| 0 <= j < old_views.len() && old_views[j].0 == token@;
            assert(false);
        }
    }
    let ghost before = entry_views(counts@);
    counts.push((token.clone(), 1));
    proof {
        let new_views = entry_views(counts@);
        assert(new_views =~= before.push((token@, 1u64)));
        assert(new_views.drop_last() =~= before);
        assert forall|p: int, q: int|
            0 <= p < q < new_views.len() implies new_views[p].0 != new_views[q].0 by {
            if q == new_views.len() - 1 {
                assert(new_views[p] == before[p]);
            }
        }
        assert(entries_map(new_views) =~= old_map.insert(token@, 1u64));
    }
}

/// Build the term-weight table from the corpus records.  Each record's
/// distinct tokens (of its longest field) count once towards document
/// frequency; records without tokens are skipped.  Every counted token
/// receives the weight `ln((N+1)/(df+1)) + 1` in thousandths; a corpus
/// yielding no documents gives the empty table.
pub fn build_weight_table(records: &Vec<Vec<String>>) -> (r: TermWeightTable)
    ensures
        r.wf(),
        ({
            let recs = records.deep_view();
            &&& forall|t: Seq<char>|
                #[trigger] r.map_view().contains_key(t) <==> df_count(recs, t) >= 1
            &&& forall|t: Seq<char>|
                #[trigger] r.map_view().contains_key(t) ==> r.map_view()[t] == idf_weight_spec(
                    doc_count(recs),
                    df_count(recs, t),
                )
        }),
{
    let ghost recs = records.deep_view();
    let mut counts: Vec<(String, u64)> = Vec::new();
    let mut docs: usize = 0;
    let mut i: usize = 0;
    proof {
        assert(entry_views(counts@) =~= Seq::<(Seq<char>, u64)>::empty());
        assert(recs.subrange(0, 0) =~= Seq::<Seq<Seq<char>>>::empty());
    }
    while i < records.len()
        invariant
            i <= records.len(),
            recs == records.deep_view(),
            distinct_keys(entry_views(counts@)),
            counts_match(entries_map(entry_views(counts@)), recs.subrange(0, i as int)),
            docs == doc_count(recs.subrange(0, i as int)),
            docs <= i,
        decreases records.len() - i,
    {
        let ghost prefix = recs.subrange(0, i as int);
        let ghost next = recs.subrange(0, i + 1);
        proof {
            assert(next.drop_last() =~= prefix);
            assert(next.last() == recs[i as int]);
            assert(recs[i as int] == records@[i as int].deep_view());
        }
        let desc = longest_field_exec(&records[i]);
        let toks_all = tokenize(desc.as_str());
        let toks = crate::matching::dedup_strings(toks_all);
        let ghost rec_toks = record_tokens(recs[i as int]);
        proof {
            assert(toks.deep_view() == rec_toks);
            crate::matching::lemma_dedup_distinct(tokenize_spec(desc@));
        }
        if toks.len() > 0 {
            docs = docs + 1;
            let ghost docs_here: int = docs as int;
            let mut j: usize = 0;
            proof {
                assert(rec_toks.subrange(0, 0) =~= Seq::<Seq<char>>::empty());
            }
            while j < toks.len()
            invariant
                j <= toks.len(),
                toks.deep_view() == rec_toks,
                rec_toks.no_duplicates(),
                rec_toks.len() > 0,
                recs == records.deep_view(),
                0 <= i < recs.len(),
                prefix == recs.subrange(0, i as int),
                docs == docs_here,
                docs_here == doc_count(prefix) + 1,
                distinct_keys(entry_views(counts@)),
                forall|t: Seq<char>|
                    #[trigger] entries_map(entry_views(counts@)).contains_key(t) <==> (df_count(
                        prefix,
                        t,
                    ) >= 1 || rec_toks.subrange(0, j as int).contains(t)),
                forall|t: Seq<char>|
                    #[trigger] entries_map(entry_views(counts@)).contains_key(t) ==> entries_map(
                        entry_views(counts@),
                    )[t] == df_count(prefix, t) + (if rec_toks.subrange(0, j as int).contains(t) {
                        1int
                    } else {
                        0int
                    }),
            decreases toks.len() - j,
        {
            let ghost tprefix = rec_toks.subrange(0, j as int);
            let ghost tnext = rec_toks.subrange(0, j + 1);
            let ghost m0 = entries_map(entry_views(counts@));
            let ghost tv = rec_toks[j as int];
            proof {
                assert(tnext.drop_last() =~= tprefix);
                assert(tnext.last() == rec_toks[j as int]);
                assert(rec_toks[j as int] == toks@[j as int]@);
                assert(!tprefix.contains(tv)) by {
                    if tprefix.contains(tv) {
                        let q = choose|q: int| 0 <= q < tprefix.len() && tprefix[q] == tv;
                        assert(rec_toks[q] == rec_toks[j as int]);
                    }
                }
                lemma_df_le_docs(prefix, tv);
                if m0.contains_key(tv) {
                    assert(m0[tv] == df_count(prefix, tv));
                    assert(df_count(prefix, tv) <= doc_count(prefix));
                    assert(m0[tv] < 0xFFFF_FFFF_FFFF_FFFFu64);
                }
            }
            bump_count(&mut counts, &toks[j]);
            proof {
                let m1 = entries_map(entry_views(counts@));
                assert(m1 == m0.insert(
                    tv,
                    (if m0.contains_key(tv) {
                        (m0[tv] + 1) as u64
                    } else {
                        1u64
                    }),
                ));
                assert forall|t: Seq<char>|
                    tnext.contains(t) == (tprefix.contains(t) || t == tv) by {
                    if tnext.contains(t) {
                        let q = choose|q: int| 0 <= q < tnext.len() && tnext[q] == t;
                        if q < tnext.len() - 1 {
                            assert(tprefix[q] == t);
                        }
                    }
                    if tprefix.contains(t) {
                        let q = choose|q: int| 0 <= q < tprefix.len() && tprefix[q] == t;
                        assert(tnext[q] == t);
                    }
                    if t == tv {
                        assert(tnext[tnext.len() - 1] == t);
                    }
                }
                assert forall|t: Seq<char>| #[trigger]
                    m1.contains_key(t) <==> (df_count(prefix, t) >= 1 || tnext.contains(t)) by {
                    lemma_df_le_docs(prefix, t);
                }
                assert forall|t: Seq<char>| #[trigger] m1.contains_key(t) implies m1[t] == df_count(
                    prefix,
                    t,
                ) + (if tnext.contains(t) {
                    1int
                } else {
                    0int
                }) by {
                    lemma_df_le_docs(prefix, t);
                    if t == tv {
                        if m0.contains_key(tv) {
                            assert(!tprefix.contains(tv));
                            assert(m0[tv] == df_count(prefix, tv));
                        }
                    } else {
                        assert(m1[t] == m0[t]);
                    }
                }
            }
            j = j + 1;
        }
        }
        proof {
            if toks.len() > 0 {
                assert(rec_toks.subrange(0, rec_toks.len() as int) =~= rec_toks);
                assert(record_tokens(next.last()) == rec_toks);
                let m = entries_map(entry_views(counts@));
                assert forall|t: Seq<char>| #[trigger]
                    m.contains_key(t) <==> df_count(next, t) >= 1 by {
                    lemma_df_le_docs(prefix, t);
                }
                assert forall|t: Seq<char>| #[trigger] m.contains_key(t) implies m[t] == df_count(
                    next,
                    t,
                ) by {}
                assert(doc_count(next) == doc_count(prefix) + 1);
            } else {
                assert(rec_toks.len() == 0);
                assert(record_tokens(next.last()) == rec_toks);
                let m = entries_map(entry_views(counts@));
                assert forall|t: Seq<char>| #[trigger]
                    m.contains_key(t) <==> df_count(next, t) >= 1 by {
                    assert(!rec_toks.contains(t));
                }
                assert forall|t: Seq<char>| #[trigger] m.contains_key(t) implies m[t] == df_count(
                    next,
                    t,
                ) by {
                    assert(!rec_toks.contains(t));
                    assert(rec_toks.subrange(0, 0) =~= Seq::<Seq<char>>::empty());
                }
                assert(doc_count(next) == doc_count(prefix));
            }
        }
        i = i + 1;
    }
    proof {
        assert(recs.subrange(0, recs.len() as int) =~= recs);
    }
    // Turn the counts into weights.
    let mut table = TermWeightTable::new();
    let ghost final_counts = entry_views(counts@);
    let ghost cmap = entries_map(final_counts);
    proof {
        lemma_entries_map_props(final_counts);
    }
    let n = counts.len();
    let mut p: usize = 0;
    while p < n
        invariant
            p <= n,
            n == counts@.len(),
            recs == records.deep_view(),
            final_counts == entry_views(counts@),
            cmap == entries_map(final_counts),
            distinct_keys(final_counts),
            counts_match(cmap, recs),
            docs == doc_count(recs),
            docs <= recs.len(),
            table.wf(),
            forall|t: Seq<char>|
                #[trigger] table.map_view().contains_key(t) <==> exists|q: int|
                    0 <= q < p && final_counts[q].0 == t,
            forall|t: Seq<char>|
                #[trigger] table.map_view().contains_key(t) ==> table.map_view()[t]
                    == idf_weight_spec(doc_count(recs), df_count(recs, t)),
        decreases n - p,
    {
        let ghost tv = final_counts[p as int].0;
        let df64 = counts[p].1;
        proof {
            lemma_entries_map_props(final_counts);
            assert(final_counts[p as int].0 == counts@[p as int].0@);
            assert(final_counts[p as int].1 == counts@[p as int].1);
            assert(cmap.contains_key(tv));
            assert(cmap[tv] == df64);
            assert(df_count(recs, tv) == df64);
            lemma_df_le_docs(recs, tv);
            assert(1 <= df64 <= docs);
            if table.map_view().contains_key(tv) {
                let q = choose|q: int| 0 <= q < p && final_counts[q].0 == tv;
                assert(false);
            }
        }
        let df = df64 as usize;
        let w = idf_weight_milli(docs, df);
        let token = counts[p].0.clone();
        table.insert(token, w);
        proof {
            assert forall|t: Seq<char>| #[trigger]
                table.map_view().contains_key(t) <==> exists|q: int|
                    0 <= q < p + 1 && final_counts[q].0 == t by {
                if table.map_view().contains_key(t) {
                    if t == tv {
                        assert(final_counts[p as int].0 == t);
                    } else {
                        let q = choose|q: int| 0 <= q < p && final_counts[q].0 == t;
                        assert(0 <= q < p + 1 && final_counts[q].0 == t);
                    }
                }
            }
        }
        p = p + 1;
    }
    proof {
        assert forall|t: Seq<char>| #[trigger]
            table.map_view().contains_key(t) <==> df_count(recs, t) >= 1 by {
            lemma_entries_map_props(final_counts);
            if df_count(recs, t) >= 1 {
                assert(cmap.contains_key(t));
                let q = choose|q: int| 0 <= q < final_counts.len() && final_counts[q].0 == t;
                assert(exists|q: int| 0 <= q < n && final_counts[q].0 == t);
            }
            if table.map_view().contains_key(t) {
                let q = choose|q: int| 0 <= q < n && final_counts[q].0 == t;
                assert(cmap.contains_key(t));
            }
        }
    }
    table
}

/// Build the term-weight table straight from the bytes of the corpus CSV.
pub fn weight_table_from_csv(bytes: &[u8]) -> (r: TermWeightTable)
    ensures
        r.wf(),
        ({
            let recs = csv_records_of(bytes@);
            &&& forall|t: Seq<char>|
                #[trigger] r.map_view().contains_key(t) <==> df_count(recs, t) >= 1
            &&& forall|t: Seq<char>|
                #[trigger] r.map_view().contains_key(t) ==> r.map_view()[t] == idf_weight_spec(
                    doc_count(recs),
                    df_count(recs, t),
                )
        }),
{
    let records = parse_csv_records(bytes);
    build_weight_table(&records)
}

} // verus!
