//! The decisions of the remote-fetch edge that are pure functions of plain
//! values: whether a pagination header announces another page, and which
//! token a request carries.

use vstd::prelude::*;

verus! {

use crate::text::contains_sub;

/// Whether a pagination header announces a further page: it holds the
/// marker `rel="next"`.
pub open spec fn spec_has_next(link: Option<Seq<char>>) -> bool {
    match link {
        Some(l) => contains_sub(l, "rel=\"next\""@),
        None => false,
    }
}

/// Decides from the pagination header, when one came, whether another page
/// must be fetched.
pub fn has_next_page(link: Option<&str>) -> (r: bool)
    ensures
        r == spec_has_next(
            match link {
                Some(l) => Some(l@),
                None => None,
            },
        ),
{
    match link {
        None => false,
        Some(l) => {
            let lv = crate::text::chars_vec(l);
            let mv = crate::text::chars_vec("rel=\"next\"");
            crate::text::contains_chars(&lv, &mv)
        },
    }
}

/// Resolves the API token: an explicitly given token wins, else the
/// ambient credential, else none.
pub fn get_github_token(cli_token: &Option<String>, ambient: Option<String>) -> (r: Option<
    String,
>)
    ensures
        match *cli_token {
            Some(t) => r matches Some(u) && u@ == t@,
            None => r == ambient,
        },
{
    match cli_token {
        Some(t) => Some(t.clone()),
        None => ambient,
    }
}

} // verus!
