//! Data model: user profiles, job postings, and the request/response
//! shapes of the surrounding service.
//!
//! These are plain value types.  Timestamps are carried as RFC 3339
//! strings supplied by the caller; the library never reads a clock.

use vstd::prelude::*;

verus! {

/// A registered user's profile snapshot.
pub struct User {
    pub id: String,
    pub email: String,
    pub password_hash: Option<String>,
    pub first_name: String,
    pub last_name: String,
    pub skills: Vec<String>,
    pub experience_years: i32,
    pub location: String,
    pub created_at: String,
    pub updated_at: String,
    pub resume_filename: Option<String>,
}

/// Tokens and profile returned after authentication.
pub struct AuthResponse {
    pub access_token: String,
    pub refresh_token: String,
    pub user: User,
    pub expires_at: String,
    pub refresh_expires_at: String,
}

/// A job posting.
pub struct Job {
    pub id: String,
    pub title: String,
    pub company: String,
    pub company_logo: Option<String>,
    pub location: Option<String>,
    pub url: String,
    pub description: String,
    pub created_at: String,
    pub external_id: Option<String>,
    pub job_type: Option<String>,
    pub salary: Option<String>,
    pub category: Option<String>,
}

/// A page of job postings.
pub struct JobsResponse {
    pub jobs: Vec<Job>,
    pub total: usize,
    pub limit: usize,
    pub offset: usize,
}

/// One entry of a recommendation list.
pub struct JobRecommendation {
    pub job: Job,
    pub match_percentage: i32,
    pub skills_matched: i32,
    pub missing_skills: Vec<String>,
}

/// Registration request.
pub struct RegisterPayload {
    pub first_name: String,
    pub last_name: String,
    pub email: String,
    pub password: String,
}

/// Login request.
pub struct LoginPayload {
    pub email: String,
    pub password: String,
}

/// Token verification request.
pub struct VerifyPayload {
    pub token: String,
}

/// Token refresh request.
pub struct RefreshPayload {
    pub refresh_token: String,
}

/// Federated sign-in request.
pub struct GooglePayload {
    pub id_token: String,
}

/// Query parameters of a job search.
pub struct JobQuery {
    pub q: Option<String>,
    pub limit: Option<usize>,
    pub offset: Option<usize>,
    pub category: Option<String>,
    pub company_name: Option<String>,
    pub search: Option<String>,
}

/// What processing an uploaded resume yields.
pub struct ResumeProcessResponse {
    pub recommendations: Vec<JobRecommendation>,
    pub resume_text: String,
}

/// Partial profile update.
pub struct UpdateUserPayload {
    pub first_name: Option<String>,
    pub last_name: Option<String>,
    pub skills: Option<Vec<String>>,
    pub experience_years: Option<i32>,
    pub location: Option<String>,
}

/// Recommendation request options.
pub struct RecQuery {
    pub limit: Option<usize>,
}

/// Token claims: subject and expiry (seconds since the epoch).
pub struct Claims {
    pub sub: String,
    pub exp: usize,
}

/// Copy an optional string, preserving the value exactly.
pub fn duplicate_opt_string(v: &Option<String>) -> (r: Option<String>)
    ensures
        r == *v,
{
    match v {
        Some(s) => Some(s.clone()),
        None => None,
    }
}

/// Copy a string vector; the copy's contents view equals the original's.
pub fn duplicate_strings(v: &Vec<String>) -> (r: Vec<String>)
    ensures
        r.deep_view() == v.deep_view(),
        r@.len() == v@.len(),
{
    let mut out: Vec<String> = Vec::new();
    let mut i: usize = 0;
    proof {
        assert(out.deep_view() =~= Seq::<Seq<char>>::empty());
        assert(v.deep_view().subrange(0, 0) =~= Seq::<Seq<char>>::empty());
    }
    while i < v.len()
        invariant
            i <= v.len(),
            out.deep_view() == v.deep_view().subrange(0, i as int),
        decreases v.len() - i,
    {
        let ghost old_out = out.deep_view();
        out.push(v[i].clone());
        proof {
            assert(v.deep_view()[i as int] == v@[i as int]@);
            assert(out.deep_view() =~= old_out.push(v@[i as int]@));
            assert(v.deep_view().subrange(0, i + 1) =~= v.deep_view().subrange(0, i as int).push(
                v.deep_view()[i as int],
            ));
        }
        i = i + 1;
    }
    proof {
        assert(v.deep_view().subrange(0, v.deep_view().len() as int) =~= v.deep_view());
    }
    out
}

impl Job {
    /// An exact copy of the posting.
    pub fn duplicate(&self) -> (r: Job)
        ensures
            r == *self,
    {
        Job {
            id: self.id.clone(),
            title: self.title.clone(),
            company: self.company.clone(),
            company_logo: duplicate_opt_string(&self.company_logo),
            location: duplicate_opt_string(&self.location),
            url: self.url.clone(),
            description: self.description.clone(),
            created_at: self.created_at.clone(),
            external_id: duplicate_opt_string(&self.external_id),
            job_type: duplicate_opt_string(&self.job_type),
            salary: duplicate_opt_string(&self.salary),
            category: duplicate_opt_string(&self.category),
        }
    }
}

/// Merge a partial update into a profile: absent fields keep the old
/// values, present ones replace them, and `updated_at` takes the supplied
/// timestamp.
pub fn apply_user_update(user: &User, payload: &UpdateUserPayload, now: String) -> (r: User)
    ensures
        r.id == user.id,
        r.email == user.email,
        r.password_hash == user.password_hash,
        r.created_at == user.created_at,
        r.resume_filename == user.resume_filename,
        r.updated_at == now,
        r.first_name == (if payload.first_name is Some {
            payload.first_name->0
        } else {
            user.first_name
        }),
        r.last_name == (if payload.last_name is Some {
            payload.last_name->0
        } else {
            user.last_name
        }),
        r.location == (if payload.location is Some {
            payload.location->0
        } else {
            user.location
        }),
        r.experience_years == (if payload.experience_years is Some {
            payload.experience_years->0
        } else {
            user.experience_years
        }),
        r.skills.deep_view() == (if payload.skills is Some {
            payload.skills->0.deep_view()
        } else {
            user.skills.deep_view()
        }),
{
    let first_name = match &payload.first_name {
        Some(v) => v.clone(),
        None => user.first_name.clone(),
    };
    let last_name = match &payload.last_name {
        Some(v) => v.clone(),
        None => user.last_name.clone(),
    };
    let location = match &payload.location {
        Some(v) => v.clone(),
        None => user.location.clone(),
    };
    let experience_years = match payload.experience_years {
        Some(v) => v,
        None => user.experience_years,
    };
    let skills = match &payload.skills {
        Some(v) => duplicate_strings(v),
        None => duplicate_strings(&user.skills),
    };
    User {
        id: user.id.clone(),
        email: user.email.clone(),
        password_hash: duplicate_opt_string(&user.password_hash),
        first_name,
        last_name,
        skills,
        experience_years,
        location,
        created_at: user.created_at.clone(),
        updated_at: now,
        resume_filename: duplicate_opt_string(&user.resume_filename),
    }
}

} // verus!
