//! Filtering, paging and lookup over job lists.

use vstd::prelude::*;

use crate::models::Job;
use crate::text::{is_substring, lower_of, str_contains, to_lowercase_text};

verus! {

/// Whether a job matches a lowercased free-text query: in its title,
/// company name, or description.
pub open spec fn query_matches(job: Job, q: Seq<char>) -> bool {
    ||| is_substring(q, lower_of(job.title@))
    ||| is_substring(q, lower_of(job.company@))
    ||| is_substring(q, lower_of(job.description@))
}

/// The jobs matching the query, in order.
pub open spec fn filter_jobs_spec(jobs: Seq<Job>, q: Seq<char>) -> Seq<Job>
    decreases jobs.len(),
{
    if jobs.len() == 0 {
        Seq::<Job>::empty()
    } else {
        let rest = filter_jobs_spec(jobs.drop_last(), q);
        if query_matches(jobs.last(), q) {
            rest.push(jobs.last())
        } else {
            rest
        }
    }
}

/// Keep the jobs whose title, company or description holds the query,
/// case-insensitively.
pub fn filter_jobs_by_query(jobs: &Vec<Job>, q: &String) -> (r: Vec<Job>)
    ensures
        r@ == filter_jobs_spec(jobs@, lower_of(q@)),
{
    let ql = to_lowercase_text(q.as_str());
    let ghost qv = lower_of(q@);
    let mut out: Vec<Job> = Vec::new();
    let mut i: usize = 0;
    proof {
        assert(jobs@.subrange(0, 0) =~= Seq::<Job>::empty());
        assert(out@ =~= filter_jobs_spec(jobs@.subrange(0, 0), qv));
    }
    while i < jobs.len()
        invariant
            i <= jobs@.len(),
            ql@ == qv,
            out@ == filter_jobs_spec(jobs@.subrange(0, i as int), qv),
        decreases jobs@.len() - i,
    {
        let ghost prefix = jobs@.subrange(0, i as int);
        let ghost next = jobs@.subrange(0, i + 1);
        proof {
            assert(next.drop_last() =~= prefix);
            assert(next.last() == jobs@[i as int]);
        }
        let title_lower = to_lowercase_text(jobs[i].title.as_str());
        let company_lower = to_lowercase_text(jobs[i].company.as_str());
        let desc_lower = to_lowercase_text(jobs[i].description.as_str());
        if str_contains(title_lower.as_str(), ql.as_str()) || str_contains(
            company_lower.as_str(),
            ql.as_str(),
        ) || str_contains(desc_lower.as_str(), ql.as_str()) {
            out.push(jobs[i].duplicate());
        }
        i = i + 1;
    }
    proof {
        assert(jobs@.subrange(0, jobs@.len() as int) =~= jobs@);
    }
    out
}

/// The page `[offset, offset + limit)` of the list, clipped to its length.
pub fn paginate_jobs(jobs: &Vec<Job>, offset: usize, limit: usize) -> (r: Vec<Job>)
    ensures
        ({
            let n = jobs@.len() as int;
            let start = if offset as int > n {
                n
            } else {
                offset as int
            };
            let end = if start + limit as int > n {
                n
            } else {
                start + limit as int
            };
            r@ == jobs@.subrange(start, end)
        }),
{
    let n = jobs.len();
    let start = if offset > n {
        n
    } else {
        offset
    };
    let end = if limit > n - start {
        n
    } else {
        start + limit
    };
    let mut out: Vec<Job> = Vec::new();
    let mut i: usize = start;
    proof {
        assert(out@ =~= jobs@.subrange(start as int, start as int));
    }
    while i < end
        invariant
            start <= i <= end,
            end <= jobs@.len(),
            out@ == jobs@.subrange(start as int, i as int),
        decreases end - i,
    {
        let ghost old_out = out@;
        out.push(jobs[i].duplicate());
        proof {
            assert(out@ =~= jobs@.subrange(start as int, i + 1));
        }
        i = i + 1;
    }
    out
}

/// The first `limit` jobs of the list.
pub fn first_jobs(jobs: &Vec<Job>, limit: usize) -> (r: Vec<Job>)
    ensures
        r@ == jobs@.take(
            if limit < jobs@.len() {
                limit as int
            } else {
                jobs@.len() as int
            },
        ),
{
    let r = paginate_jobs(jobs, 0, limit);
    proof {
        let n = jobs@.len() as int;
        let end: int = if limit < jobs@.len() {
            limit as int
        } else {
            n
        };
        assert(jobs@.subrange(0, end) =~= jobs@.take(end));
    }
    r
}

/// Whether a job carries this external identifier.
pub open spec fn ext_id_matches(job: Job, id: Seq<char>) -> bool {
    job.external_id is Some && job.external_id->0@ == id
}

/// The index of the first job with this external identifier, or -1.
pub open spec fn find_ext_index(jobs: Seq<Job>, id: Seq<char>) -> int
    decreases jobs.len(),
{
    if jobs.len() == 0 {
        -1
    } else if ext_id_matches(jobs[0], id) {
        0
    } else {
        let rest = find_ext_index(jobs.drop_first(), id);
        if rest < 0 {
            -1
        } else {
            rest + 1
        }
    }
}

/// A scan that stops at the first match computes `find_ext_index`.
proof fn lemma_find_ext_from_scan(jobs: Seq<Job>, id: Seq<char>, p: int)
    requires
        0 <= p <= jobs.len(),
        forall|q: int| 0 <= q < p ==> !ext_id_matches(#[trigger] jobs[q], id),
        p < jobs.len() ==> ext_id_matches(jobs[p], id),
    ensures
        find_ext_index(jobs, id) == (if p < jobs.len() {
            p
        } else {
            -1int
        }),
    decreases jobs.len(),
{
    if jobs.len() == 0 {
    } else if ext_id_matches(jobs[0], id) {
        assert(p == 0) by {
            if p > 0 {
                assert(!ext_id_matches(jobs[0], id));
            }
        }
    } else {
        assert(p > 0);
        assert forall|q: int| 0 <= q < p - 1 implies !ext_id_matches(
            #[trigger] jobs.drop_first()[q],
            id,
        ) by {
            assert(jobs.drop_first()[q] == jobs[q + 1]);
        }
        if p - 1 < jobs.drop_first().len() {
            assert(jobs.drop_first()[p - 1] == jobs[p]);
        }
        lemma_find_ext_from_scan(jobs.drop_first(), id, p - 1);
    }
}

/// Find the first job carrying the given external identifier.
pub fn find_job_by_external_id(jobs: &Vec<Job>, id: &String) -> (r: Option<Job>)
    ensures
        ({
            let ix = find_ext_index(jobs@, id@);
            if ix >= 0 {
                r is Some && r->0 == jobs@[ix]
            } else {
                r is None
            }
        }),
{
    let mut i: usize = 0;
    while i < jobs.len()
        invariant
            i <= jobs@.len(),
            forall|q: int| 0 <= q < i ==> !ext_id_matches(#[trigger] jobs@[q], id@),
        decreases jobs@.len() - i,
    {
        let hit = match &jobs[i].external_id {
            Some(e) => e.eq(id),
            None => false,
        };
        if hit {
            proof {
                lemma_find_ext_from_scan(jobs@, id@, i as int);
            }
            return Some(jobs[i].duplicate());
        }
        i = i + 1;
    }
    proof {
        lemma_find_ext_from_scan(jobs@, id@, jobs@.len() as int);
    }
    None
}

} // verus!
