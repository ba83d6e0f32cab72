//! Locations of the on-disk data the surrounding program uses.

use vstd::prelude::*;

verus! {

/// The data directory.
pub fn data_dir() -> (r: String)
    ensures
        r@ == "./data"@,
{
    String::from_str("./data")
}

/// The user store file inside the data directory.
pub fn users_db_path() -> (r: String)
    ensures
        r@ == "./data/users.json"@,
{
    String::from_str("./data/users.json")
}

/// The cached job list file inside the data directory.
pub fn jobs_cache_path() -> (r: String)
    ensures
        r@ == "./data/jobs_cache.json"@,
{
    String::from_str("./data/jobs_cache.json")
}

} // verus!
