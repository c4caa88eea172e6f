//! Where the shared store lives below the platform's cache directory.

use vstd::prelude::*;

verus! {

/// The store's location below the given cache root: the application's own
/// directory, then the store file.
pub fn get_db_path(cache_root: &str) -> (r: String)
    ensures
        r@ == cache_root@ + "/gh-stars/stars.db"@,
{
    let mut p = cache_root.to_owned();
    p.append("/gh-stars/stars.db");
    p
}

} // verus!
