//! The structured record kept for one starred repository, together with its
//! mathematical view used by all contracts.

use vstd::prelude::*;

verus! {

/// One starred repository, as cached for an owner. `raw` keeps the original
/// payload text so callers can round-trip it losslessly.
pub struct RepoRecord {
    pub id: u64,
    pub name: String,
    pub full_name: String,
    pub owner_login: String,
    pub html_url: String,
    pub description: Option<String>,
    pub language: Option<String>,
    pub stars: u64,
    pub forks: Option<u64>,
    pub open_issues: Option<u64>,
    pub updated_at: String,
    pub created_at: Option<String>,
    pub raw: String,
}

/// The mathematical value of a [`RepoRecord`]: every text field as a
/// sequence of characters.
pub ghost struct RecordView {
    pub id: u64,
    pub name: Seq<char>,
    pub full_name: Seq<char>,
    pub owner_login: Seq<char>,
    pub html_url: Seq<char>,
    pub description: Option<Seq<char>>,
    pub language: Option<Seq<char>>,
    pub stars: u64,
    pub forks: Option<u64>,
    pub open_issues: Option<u64>,
    pub updated_at: Seq<char>,
    pub created_at: Option<Seq<char>>,
    pub raw: Seq<char>,
}

pub open spec fn opt_str_view(s: Option<String>) -> Option<Seq<char>> {
    match s {
        Some(t) => Some(t@),
        None => None,
    }
}

impl View for RepoRecord {
    type V = RecordView;

    open spec fn view(&self) -> RecordView {
        RecordView {
            id: self.id,
            name: self.name@,
            full_name: self.full_name@,
            owner_login: self.owner_login@,
            html_url: self.html_url@,
            description: opt_str_view(self.description),
            language: opt_str_view(self.language),
            stars: self.stars,
            forks: self.forks,
            open_issues: self.open_issues,
            updated_at: self.updated_at@,
            created_at: opt_str_view(self.created_at),
            raw: self.raw@,
        }
    }
}

/// The views of a sequence of records, element by element.
pub open spec fn rec_views(s: Seq<RepoRecord>) -> Seq<RecordView> {
    s.map_values(|r: RepoRecord| r@)
}

fn clone_opt_string(s: &Option<String>) -> (r: Option<String>)
    ensures
        opt_str_view(r) == opt_str_view(*s),
{
    match s {
        Some(t) => Some(t.clone()),
        None => None,
    }
}

impl RepoRecord {
    /// A copy of this record with the same mathematical value.
    pub fn dup(&self) -> (r: RepoRecord)
        ensures
            r@ == self@,
    {
        RepoRecord {
            id: self.id,
            name: self.name.clone(),
            full_name: self.full_name.clone(),
            owner_login: self.owner_login.clone(),
            html_url: self.html_url.clone(),
            description: clone_opt_string(&self.description),
            language: clone_opt_string(&self.language),
            stars: self.stars,
            forks: self.forks,
            open_issues: self.open_issues,
            updated_at: self.updated_at.clone(),
            created_at: clone_opt_string(&self.created_at),
            raw: self.raw.clone(),
        }
    }
}

} // verus!
