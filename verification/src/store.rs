//! The record store and vector index: one snapshot of records and embedding
//! vectors per owner, replaced only as a whole, plus the per-owner refresh
//! time that the freshness policy reads.

use vstd::prelude::*;

verus! {

use crate::record::{RepoRecord, RecordView, rec_views};
use crate::text::str_views;
use crate::freshness::spec_stale;

/// The cached state of one owner: record views, their embedding vectors
/// (position `k` embeds record `k`), and the time of the last refresh.
pub ghost struct OwnerSnap {
    pub recs: Seq<RecordView>,
    pub vecs: Seq<Seq<i32>>,
    pub last_refresh: u64,
}

/// The mathematical value of the whole store: the embedding dimension and
/// one snapshot per cached owner.
pub ghost struct StoreView {
    pub dim: nat,
    pub owners: Map<Seq<char>, OwnerSnap>,
}

/// The views of a sequence of embedding vectors, element by element.
pub open spec fn vec_views(s: Seq<Vec<i32>>) -> Seq<Seq<i32>> {
    s.map_values(|v: Vec<i32>| v@)
}

/// No two records share an id.
pub open spec fn ids_unique(recs: Seq<RecordView>) -> bool {
    forall|k: int, l: int| 0 <= k < l < recs.len() ==> recs[k].id != recs[l].id
}

/// A snapshot fit for the store: one vector per record, every vector of the
/// store's dimension, and no two records sharing an id.
pub open spec fn valid_snapshot(dim: nat, recs: Seq<RecordView>, vecs: Seq<Seq<i32>>) -> bool {
    &&& vecs.len() == recs.len()
    &&& forall|k: int| 0 <= k < vecs.len() ==> (#[trigger] vecs[k]).len() == dim
    &&& ids_unique(recs)
}

struct OwnerSlot {
    owner: String,
    records: Vec<RepoRecord>,
    vectors: Vec<Vec<i32>>,
    last_refresh: u64,
}

impl OwnerSlot {
    spec fn name(&self) -> Seq<char> {
        self.owner@
    }

    spec fn snap(&self) -> OwnerSnap {
        OwnerSnap {
            recs: rec_views(self.records@),
            vecs: vec_views(self.vectors@),
            last_refresh: self.last_refresh,
        }
    }

    spec fn wf(&self, dim: nat) -> bool {
        valid_snapshot(dim, rec_views(self.records@), vec_views(self.vectors@))
    }
}

/// The record store and vector index, keyed by owner.
pub struct Store {
    dim: usize,
    slots: Vec<OwnerSlot>,
}

spec fn slot_idx(slots: Seq<OwnerSlot>, name: Seq<char>) -> int {
    choose|i: int| 0 <= i < slots.len() && slots[i].name() == name
}

impl Store {
    /// Internal consistency: owners are distinct, every snapshot is valid
    /// for the store's dimension.
    pub closed spec fn wf(&self) -> bool {
        &&& forall|i: int, j: int|
            0 <= i < j < self.slots@.len() ==> self.slots@[i].name() != self.slots@[j].name()
        &&& forall|i: int|
            0 <= i < self.slots@.len() ==> (#[trigger] self.slots@[i]).wf(self.dim as nat)
    }

    /// The embedding dimension every stored vector has.
    pub fn dim(&self) -> (r: usize)
        ensures
            r == self@.dim,
    {
        self.dim
    }
}

impl View for Store {
    type V = StoreView;

    closed spec fn view(&self) -> StoreView {
        StoreView {
            dim: self.dim as nat,
            owners: Map::new(
                |name: Seq<char>|
                    exists|i: int| 0 <= i < self.slots@.len() && slot_has_name(self.slots@, i, name),
                |name: Seq<char>| slots_value(self.slots@, name),
            ),
        }
    }
}

spec fn slot_has_name(slots: Seq<OwnerSlot>, i: int, name: Seq<char>) -> bool {
    slots[i].name() == name
}

spec fn slots_value(slots: Seq<OwnerSlot>, name: Seq<char>) -> OwnerSnap {
    slots[choose|i: int| 0 <= i < slots.len() && slot_has_name(slots, i, name)].snap()
}

impl Store {
    proof fn lemma_view_slot(&self, i: int)
        requires
            self.wf(),
            0 <= i < self.slots@.len(),
        ensures
            self@.owners.contains_key(self.slots@[i].name()),
            self@.owners[self.slots@[i].name()] == self.slots@[i].snap(),
    {
        let name = self.slots@[i].name();
        assert(slot_has_name(self.slots@, i, name));
        let j = choose|j: int| 0 <= j < self.slots@.len() && slot_has_name(self.slots@, j, name);
        assert(j == i);
    }

    proof fn lemma_view_key(&self, name: Seq<char>)
        requires
            self.wf(),
            self@.owners.contains_key(name),
        ensures
            0 <= slot_idx(self.slots@, name) < self.slots@.len(),
            self.slots@[slot_idx(self.slots@, name)].name() == name,
            self.slots@[slot_idx(self.slots@, name)].snap() == self@.owners[name],
    {
        let i = choose|i: int| 0 <= i < self.slots@.len() && slot_has_name(self.slots@, i, name);
        assert(slot_has_name(self.slots@, i, name));
    }

    /// An empty store with the given embedding dimension.
    pub fn new(dim: usize) -> (r: Store)
        ensures
            r.wf(),
            r@.dim == dim,
            r@.owners == Map::<Seq<char>, OwnerSnap>::empty(),
    {
        let r = Store { dim, slots: Vec::new() };
        proof {
            assert(r@.owners =~= Map::<Seq<char>, OwnerSnap>::empty());
        }
        r
    }

    fn find_slot(&self, owner: &str) -> (r: Option<usize>)
        requires
            self.wf(),
        ensures
            match r {
                Some(i) => {
                    &&& i < self.slots@.len()
                    &&& self.slots@[i as int].name() == owner@
                    &&& self@.owners.contains_key(owner@)
                    &&& self@.owners[owner@] == self.slots@[i as int].snap()
                },
                None => !self@.owners.contains_key(owner@),
            },
    {
        let n = self.slots.len();
        let mut j: usize = 0;
        while j < n
            invariant
                self.wf(),
                n == self.slots@.len(),
                j <= n,
                forall|k: int| 0 <= k < j ==> self.slots@[k].name() != owner@,
            decreases n - j,
        {
            if crate::text::str_eq(self.slots[j].owner.as_str(), owner) {
                proof {
                    self.lemma_view_slot(j as int);
                }
                return Some(j);
            }
            j = j + 1;
        }
        proof {
            assert(!self@.owners.contains_key(owner@));
        }
        None
    }

    /// Every owner with cached data, each exactly once.
    pub fn list_owners(&self) -> (r: Vec<String>)
        requires
            self.wf(),
        ensures
            str_views(r@).no_duplicates(),
            str_views(r@).to_set() == self@.owners.dom(),
    {
        let n = self.slots.len();
        let mut r: Vec<String> = Vec::new();
        let mut i: usize = 0;
        while i < n
            invariant
                self.wf(),
                n == self.slots@.len(),
                i <= n,
                r@.len() == i,
                forall|k: int| 0 <= k < i ==> (#[trigger] r@[k])@ == self.slots@[k].name(),
            decreases n - i,
        {
            r.push(self.slots[i].owner.clone());
            i = i + 1;
        }
        proof {
            let names = str_views(r@);
            assert forall|name: Seq<char>| names.to_set().contains(name) implies self@
                .owners.contains_key(name) by {
                let k = choose|k: int| 0 <= k < names.len() && names[k] == name;
                assert(slot_has_name(self.slots@, k, name));
            }
            assert forall|name: Seq<char>| self@.owners.contains_key(name) implies names
                .to_set().contains(name) by {
                let k = choose|k: int|
                    0 <= k < self.slots@.len() && slot_has_name(self.slots@, k, name);
                assert(names[k] == name);
            }
            assert(names.to_set() =~= self@.owners.dom());
        }
        r
    }
}

/// The error reported for a snapshot the store must reject: embedding
/// vectors that do not pair one-to-one with the records (or have the wrong
/// dimension) before a duplicated record id.
pub open spec fn snapshot_error(dim: nat, recs: Seq<RecordView>, vecs: Seq<Seq<i32>>) -> crate::errors::StarsError {
    if vecs.len() != recs.len() || exists|k: int|
        0 <= k < vecs.len() && (#[trigger] vecs[k]).len() != dim {
        crate::errors::StarsError::Embedding
    } else {
        crate::errors::StarsError::MalformedRecord
    }
}

impl Store {
    /// Replaces `owner`'s whole snapshot, all or nothing: on success the
    /// owner holds exactly the given records and vectors with refresh time
    /// `now` and every other owner is untouched; on any failure the store is
    /// exactly as it was.
    pub fn upsert_owner_snapshot(
        &mut self,
        owner: &str,
        records: Vec<RepoRecord>,
        vectors: Vec<Vec<i32>>,
        now: u64,
    ) -> (r: Result<(), crate::errors::StarsError>)
        requires
            old(self).wf(),
            old(self)@.owners.contains_key(owner@) ==> now >= old(self)@.owners[owner@].last_refresh,
        ensures
            final(self).wf(),
            final(self)@.dim == old(self)@.dim,
            match r {
                Ok(()) => {
                    &&& valid_snapshot(old(self)@.dim, rec_views(records@), vec_views(vectors@))
                    &&& final(self)@.owners == old(self)@.owners.insert(
                        owner@,
                        OwnerSnap {
                            recs: rec_views(records@),
                            vecs: vec_views(vectors@),
                            last_refresh: now,
                        },
                    )
                },
                Err(e) => {
                    &&& !valid_snapshot(old(self)@.dim, rec_views(records@), vec_views(vectors@))
                    &&& final(self)@ == old(self)@
                    &&& e == snapshot_error(old(self)@.dim, rec_views(records@), vec_views(vectors@))
                },
            },
    {
        let n = records.len();
        if vectors.len() != n {
            return Err(crate::errors::StarsError::Embedding);
        }
        let mut k: usize = 0;
        while k < n
            invariant
                self == old(self),
                old(self).wf(),
                n == records@.len(),
                n == vectors@.len(),
                k <= n,
                forall|t: int| 0 <= t < k ==> (#[trigger] vec_views(vectors@)[t]).len()
                    == self.dim,
            decreases n - k,
        {
            if vectors[k].len() != self.dim {
                proof {
                    assert((vec_views(vectors@)[k as int]).len() != self@.dim);
                }
                return Err(crate::errors::StarsError::Embedding);
            }
            k = k + 1;
        }
        let mut a: usize = 0;
        while a < n
            invariant
                self == old(self),
                old(self).wf(),
                n == records@.len(),
                n == vectors@.len(),
                forall|t: int| 0 <= t < n ==> (#[trigger] vec_views(vectors@)[t]).len()
                    == self.dim,
                a <= n,
                forall|t: int, u: int|
                    0 <= t < u < n && t < a ==> rec_views(records@)[t].id != rec_views(
                        records@,
                    )[u].id,
            decreases n - a,
        {
            let mut b: usize = a + 1;
            while b < n
                invariant
                    self == old(self),
                    old(self).wf(),
                    n == records@.len(),
                    n == vectors@.len(),
                    forall|t: int| 0 <= t < n ==> (#[trigger] vec_views(vectors@)[t]).len()
                        == self.dim,
                    a < n,
                    a + 1 <= b <= n,
                    forall|t: int, u: int|
                        0 <= t < u < n && t < a ==> rec_views(records@)[t].id != rec_views(
                            records@,
                        )[u].id,
                    forall|u: int| a < u < b ==> rec_views(records@)[a as int].id
                        != rec_views(records@)[u].id,
                decreases n - b,
            {
                if records[a].id == records[b].id {
                    proof {
                        assert(rec_views(records@)[a as int].id == rec_views(
                            records@,
                        )[b as int].id);
                        assert(!ids_unique(rec_views(records@)));
                    }
                    return Err(crate::errors::StarsError::MalformedRecord);
                }
                b = b + 1;
            }
            a = a + 1;
        }
        proof {
            assert(valid_snapshot(self@.dim, rec_views(records@), vec_views(vectors@)));
        }
        let ghost s0 = self.slots@;
        let found = self.find_slot(owner);
        match found {
            Some(i) => {
                self.slots.remove(i);
                proof {
                    s0.remove_ensures(i as int);
                    assert(self.slots@ =~= s0.remove(i as int));
                }
            },
            None => {},
        }
        let ghost base = self.slots@;
        proof {
            // Each remaining slot is an old slot, keeps its old position
            // order, and none carries `owner`'s name.
            assert forall|t: int| 0 <= t < base.len() implies {
                &&& (#[trigger] base[t]).name() != owner@
                &&& old(self)@.owners.contains_key(base[t].name())
                &&& old(self)@.owners[base[t].name()] == base[t].snap()
                &&& base[t].wf(old(self)@.dim)
            } by {
                let t0: int = if found is Some && t >= found->0 {
                    t + 1
                } else {
                    t
                };
                assert(base[t] == s0[t0]);
                if base[t].name() == owner@ {
                    if found is Some {
                        assert(s0[found->0 as int].name() == owner@);
                        assert(false);
                    } else {
                        old(self).lemma_view_slot(t0);
                        assert(false);
                    }
                }
                old(self).lemma_view_slot(t0);
            }
            assert forall|t: int, u: int| 0 <= t < u < base.len() implies base[t].name()
                != base[u].name() by {
                let t0: int = if found is Some && t >= found->0 {
                    t + 1
                } else {
                    t
                };
                let u0: int = if found is Some && u >= found->0 {
                    u + 1
                } else {
                    u
                };
                assert(base[t] == s0[t0]);
                assert(base[u] == s0[u0]);
                assert(t0 < u0);
            }
            assert forall|name: Seq<char>|
                name != owner@ && old(self)@.owners.contains_key(name) implies exists|t: int|
                0 <= t < base.len() && (#[trigger] base[t]).name() == name by {
                old(self).lemma_view_key(name);
                let t0 = slot_idx(s0, name);
                if found is Some {
                    assert(t0 != found->0);
                    let t: int = if t0 > found->0 {
                        t0 - 1
                    } else {
                        t0
                    };
                    assert(base[t] == s0[t0]);
                } else {
                    assert(base[t0] == s0[t0]);
                }
            }
        }
        self.slots.push(
            OwnerSlot { owner: owner.to_owned(), records, vectors, last_refresh: now },
        );
        proof {
            let s1 = self.slots@;
            let ns = s1.last();
            assert(s1 =~= base.push(ns));
            assert(ns.name() == owner@);
            let newsnap = OwnerSnap {
                recs: rec_views(records@),
                vecs: vec_views(vectors@),
                last_refresh: now,
            };
            assert(ns.snap() == newsnap);
            assert(self.wf());
            let target = old(self)@.owners.insert(owner@, newsnap);
            assert forall|name: Seq<char>| #[trigger] self@.owners.contains_key(name) implies
                target.contains_key(name) by {
                let t = choose|t: int| 0 <= t < s1.len() && slot_has_name(s1, t, name);
                if t < s1.len() - 1 {
                    assert(base[t].name() == name);
                }
            }
            assert forall|name: Seq<char>| #[trigger] target.contains_key(name) implies
                self@.owners.contains_key(name) && self@.owners[name] == target[name] by {
                if name == owner@ {
                    assert(slot_has_name(s1, s1.len() - 1, name));
                    self.lemma_view_slot(s1.len() - 1);
                } else {
                    let t = choose|t: int|
                        0 <= t < base.len() && (#[trigger] base[t]).name() == name;
                    assert(slot_has_name(s1, t, name));
                    self.lemma_view_slot(t);
                    assert(self@.owners[name] == s1[t].snap());
                    assert(target[name] == base[t].snap());
                }
            }
            assert(self@.owners =~= target);
        }
        Ok(())
    }
}

/// Whether a record passes the language filter: no filter (or an empty one)
/// passes everything; otherwise the record must name a language equal,
/// case-insensitively, to one of the filter's entries.
pub open spec fn lang_ok(r: RecordView, langs: Option<Seq<Seq<char>>>) -> bool {
    match langs {
        None => true,
        Some(ls) => ls.len() == 0 || (match r.language {
            Some(l) => exists|i: int|
                0 <= i < ls.len() && crate::text::lower_of(#[trigger] ls[i])
                    == crate::text::lower_of(l),
            None => false,
        }),
    }
}

/// The records that pass the language filter, in order.
pub open spec fn filter_langs(recs: Seq<RecordView>, langs: Option<Seq<Seq<char>>>) -> Seq<
    RecordView,
>
    decreases recs.len(),
{
    if recs.len() == 0 {
        Seq::empty()
    } else {
        let rest = filter_langs(recs.drop_last(), langs);
        if lang_ok(recs.last(), langs) {
            rest.push(recs.last())
        } else {
            rest
        }
    }
}

/// The language filter a caller hands in, as a mathematical value.
pub open spec fn opt_langs(languages: Option<Vec<String>>) -> Option<Seq<Seq<char>>> {
    match languages {
        Some(v) => Some(str_views(v@)),
        None => None,
    }
}

/// `owner`'s records that pass the language filter; nothing when the owner
/// is not cached.
pub open spec fn owner_filtered(
    sv: StoreView,
    owner: Seq<char>,
    langs: Option<Seq<Seq<char>>>,
) -> Seq<RecordView> {
    if sv.owners.contains_key(owner) {
        filter_langs(sv.owners[owner].recs, langs)
    } else {
        Seq::empty()
    }
}

/// The filtered records of each named owner, concatenated in the order the
/// owners were named.
pub open spec fn spec_get_records(
    sv: StoreView,
    owners: Seq<Seq<char>>,
    langs: Option<Seq<Seq<char>>>,
) -> Seq<RecordView>
    decreases owners.len(),
{
    if owners.len() == 0 {
        Seq::empty()
    } else {
        spec_get_records(sv, owners.drop_last(), langs) + owner_filtered(sv, owners.last(), langs)
    }
}

/// The pre-lowercased form of a language filter: same entries, each
/// case-folded.
spec fn lowered_matches(langs: Option<Seq<Seq<char>>>, low: Option<Vec<String>>) -> bool {
    match langs {
        Some(ls) => match low {
            Some(lv) => lv@.len() == ls.len() && forall|i: int|
                0 <= i < ls.len() ==> (#[trigger] lv@[i])@ == crate::text::lower_of(ls[i]),
            None => false,
        },
        None => low is None,
    }
}

/// Lowercases every entry of a language filter.
fn lower_langs(languages: &Option<Vec<String>>) -> (r: Option<Vec<String>>)
    ensures
        lowered_matches(opt_langs(*languages), r),
{
    match languages {
        None => None,
        Some(v) => {
            let n = v.len();
            let mut lv: Vec<String> = Vec::new();
            let mut i: usize = 0;
            while i < n
                invariant
                    n == v@.len(),
                    i <= n,
                    lv@.len() == i,
                    forall|k: int|
                        0 <= k < i ==> (#[trigger] lv@[k])@ == crate::text::lower_of(v@[k]@),
                decreases n - i,
            {
                lv.push(crate::text::lowercase(v[i].as_str()));
                i = i + 1;
            }
            proof {
                assert(forall|k: int|
                    0 <= k < n ==> str_views(v@)[k] == (#[trigger] v@[k])@);
            }
            Some(lv)
        },
    }
}

/// Whether the record passes the (pre-lowercased) language filter.
fn lang_ok_exec(
    rec: &RepoRecord,
    langs_low: &Option<Vec<String>>,
    Ghost(langs): Ghost<Option<Seq<Seq<char>>>>,
) -> (r: bool)
    requires
        lowered_matches(langs, *langs_low),
    ensures
        r == lang_ok(rec@, langs),
{
    match langs_low {
        None => true,
        Some(lv) => {
            let n = lv.len();
            if n == 0 {
                return true;
            }
            match &rec.language {
                None => false,
                Some(l) => {
                    let low = crate::text::lowercase(l.as_str());
                    let mut i: usize = 0;
                    while i < n
                        invariant
                            n == lv@.len(),
                            n > 0,
                            i <= n,
                            low@ == crate::text::lower_of(l@),
                            rec@.language == Some(l@),
                            lowered_matches(langs, Some(*lv)),
                            forall|k: int| 0 <= k < i ==> (#[trigger] lv@[k])@ != low@,
                        decreases n - i,
                    {
                        if lv[i].eq(&low) {
                            proof {
                                match langs {
                                    Some(ls) => {
                                        assert(crate::text::lower_of(ls[i as int])
                                            == crate::text::lower_of(l@));
                                    },
                                    None => {},
                                }
                            }
                            return true;
                        }
                        i = i + 1;
                    }
                    proof {
                        match langs {
                            Some(ls) => {
                                if lang_ok(rec@, langs) {
                                    let c = choose|k: int|
                                        0 <= k < ls.len() && crate::text::lower_of(
                                            #[trigger] ls[k],
                                        ) == crate::text::lower_of(l@);
                                    assert((#[trigger] lv@[c])@ == crate::text::lower_of(
                                        ls[c],
                                    ));
                                    assert(false);
                                }
                            },
                            None => {},
                        }
                    }
                    false
                },
            }
        },
    }
}

impl Store {
    /// The records of the named owners that pass the language filter, in
    /// store order, owner by owner.
    pub fn get_records(&self, owners: &Vec<String>, languages: &Option<Vec<String>>) -> (r: Vec<
        RepoRecord,
    >)
        requires
            self.wf(),
        ensures
            rec_views(r@) == spec_get_records(
                self@,
                str_views(owners@),
                opt_langs(*languages),
            ),
    {
        let ghost langs = opt_langs(*languages);
        let langs_low = lower_langs(languages);
        let m = owners.len();
        let mut r: Vec<RepoRecord> = Vec::new();
        let mut oi: usize = 0;
        proof {
            assert(str_views(owners@).take(0) =~= Seq::<Seq<char>>::empty());
        }
        while oi < m
            invariant
                self.wf(),
                m == owners@.len(),
                oi <= m,
                langs == opt_langs(*languages),
                lowered_matches(langs, langs_low),
                rec_views(r@) == spec_get_records(
                    self@,
                    str_views(owners@).take(oi as int),
                    langs,
                ),
            decreases m - oi,
        {
            let ghost prefix = str_views(owners@).take(oi as int);
            let ghost name = owners@[oi as int]@;
            match self.find_slot(owners[oi].as_str()) {
                None => {
                    proof {
                        assert(str_views(owners@).take(oi + 1).drop_last() =~= prefix);
                        assert(str_views(owners@).take(oi + 1).last() == name);
                        assert(owner_filtered(self@, name, langs) =~= Seq::<RecordView>::empty());
                        assert(rec_views(r@) =~= spec_get_records(
                            self@,
                            str_views(owners@).take(oi + 1),
                            langs,
                        ));
                    }
                },
                Some(si) => {
                    let ghost recs = self@.owners[name].recs;
                    let nrec = self.slots[si].records.len();
                    let mut t: usize = 0;
                    proof {
                        assert(recs.take(0) =~= Seq::<RecordView>::empty());
                        assert(filter_langs(recs.take(0), langs) =~= Seq::<RecordView>::empty());
                    }
                    while t < nrec
                        invariant
                            self.wf(),
                            langs == opt_langs(*languages),
                            lowered_matches(langs, langs_low),
                            si < self.slots@.len(),
                            recs == rec_views(self.slots@[si as int].records@),
                            nrec == self.slots@[si as int].records@.len(),
                            t <= nrec,
                            rec_views(r@) == spec_get_records(self@, prefix, langs)
                                + filter_langs(recs.take(t as int), langs),
                        decreases nrec - t,
                    {
                        let rec = &self.slots[si].records[t];
                        let ghost before = rec_views(r@);
                        let keep = lang_ok_exec(rec, &langs_low, Ghost(langs));
                        if keep {
                            r.push(rec.dup());
                        }
                        proof {
                            let s = recs.take(t + 1);
                            assert(s.drop_last() =~= recs.take(t as int));
                            assert(s.last() == recs[t as int]);
                            assert(recs[t as int] == rec@);
                            if keep {
                                assert(rec_views(r@) =~= before.push(rec@));
                                assert(filter_langs(s, langs) =~= filter_langs(
                                    recs.take(t as int),
                                    langs,
                                ).push(rec@));
                                assert(rec_views(r@) =~= spec_get_records(self@, prefix, langs)
                                    + filter_langs(s, langs));
                            } else {
                                assert(filter_langs(s, langs) =~= filter_langs(
                                    recs.take(t as int),
                                    langs,
                                ));
                            }
                        }
                        t = t + 1;
                    }
                    proof {
                        assert(recs.take(nrec as int) =~= recs);
                        assert(str_views(owners@).take(oi + 1).drop_last() =~= prefix);
                        assert(str_views(owners@).take(oi + 1).last() == name);
                        assert(owner_filtered(self@, name, langs) == filter_langs(recs, langs));
                        assert(rec_views(r@) =~= spec_get_records(
                            self@,
                            str_views(owners@).take(oi + 1),
                            langs,
                        ));
                    }
                },
            }
            oi = oi + 1;
        }
        proof {
            assert(str_views(owners@).take(m as int) =~= str_views(owners@));
        }
        r
    }
}

/// The language-filtered (record, vector) pairs among the first `n` of a
/// snapshot, in store order.
pub open spec fn cand_pairs_prefix(
    recs: Seq<RecordView>,
    vecs: Seq<Seq<i32>>,
    langs: Option<Seq<Seq<char>>>,
    n: int,
) -> Seq<(RecordView, Seq<i32>)>
    decreases n,
{
    if n <= 0 {
        Seq::empty()
    } else {
        let rest = cand_pairs_prefix(recs, vecs, langs, n - 1);
        if lang_ok(recs[n - 1], langs) {
            rest.push((recs[n - 1], vecs[n - 1]))
        } else {
            rest
        }
    }
}

/// A snapshot's language-filtered (record, vector) pairs, in store order.
pub open spec fn cand_pairs(snap: OwnerSnap, langs: Option<Seq<Seq<char>>>) -> Seq<
    (RecordView, Seq<i32>),
> {
    cand_pairs_prefix(snap.recs, snap.vecs, langs, snap.recs.len() as int)
}

/// The candidate pairs an owner contributes: the language-filtered part of
/// its snapshot, nothing when the owner is not cached.
pub open spec fn owner_cands(
    sv: StoreView,
    owner: Seq<char>,
    langs: Option<Seq<Seq<char>>>,
) -> Seq<(RecordView, Seq<i32>)> {
    if sv.owners.contains_key(owner) {
        cand_pairs(sv.owners[owner], langs)
    } else {
        Seq::empty()
    }
}

fn clone_ivec(v: &Vec<i32>) -> (r: Vec<i32>)
    ensures
        r@ == v@,
{
    let n = v.len();
    let mut r: Vec<i32> = Vec::new();
    let mut i: usize = 0;
    while i < n
        invariant
            n == v@.len(),
            i <= n,
            r@ =~= v@.take(i as int),
        decreases n - i,
    {
        r.push(v[i]);
        proof {
            assert(r@ =~= v@.take(i + 1));
        }
        i = i + 1;
    }
    proof {
        assert(v@.take(n as int) =~= v@);
    }
    r
}

impl Store {
    /// `owner`'s language-filtered records and their vectors, paired in
    /// store order.
    pub(crate) fn owner_candidates(&self, owner: &str, languages: &Option<Vec<String>>) -> (r: (
        Vec<RepoRecord>,
        Vec<Vec<i32>>,
    ))
        requires
            self.wf(),
        ensures
            ({
                let pairs = owner_cands(self@, owner@, opt_langs(*languages));
                &&& r.0@.len() == pairs.len()
                &&& r.1@.len() == pairs.len()
                &&& forall|i: int|
                    0 <= i < pairs.len() ==> rec_views(r.0@)[i] == (#[trigger] pairs[i]).0
                        && vec_views(r.1@)[i] == pairs[i].1
                &&& forall|i: int|
                    0 <= i < pairs.len() ==> (#[trigger] pairs[i]).1.len() == self@.dim
            }),
    {
        let ghost langs = opt_langs(*languages);
        let langs_low = lower_langs(languages);
        let mut recs: Vec<RepoRecord> = Vec::new();
        let mut vecs: Vec<Vec<i32>> = Vec::new();
        match self.find_slot(owner) {
            None => {
                proof {
                    assert(owner_cands(self@, owner@, langs) =~= Seq::<
                        (RecordView, Seq<i32>),
                    >::empty());
                }
            },
            Some(si) => {
                let ghost snap = self@.owners[owner@];
                let nrec = self.slots[si].records.len();
                let mut t: usize = 0;
                while t < nrec
                    invariant
                        self.wf(),
                        langs == opt_langs(*languages),
                        lowered_matches(langs, langs_low),
                        si < self.slots@.len(),
                        snap == self@.owners[owner@],
                        snap == self.slots@[si as int].snap(),
                        nrec == self.slots@[si as int].records@.len(),
                        t <= nrec,
                        recs@.len() == cand_pairs_prefix(snap.recs, snap.vecs, langs, t as int).len(),
                        vecs@.len() == recs@.len(),
                        forall|i: int|
                            0 <= i < recs@.len() ==> rec_views(recs@)[i] == (
                            #[trigger] cand_pairs_prefix(snap.recs, snap.vecs, langs, t as int)[i]).0
                                && vec_views(vecs@)[i] == cand_pairs_prefix(
                                snap.recs,
                                snap.vecs,
                                langs,
                                t as int,
                            )[i].1,
                    decreases nrec - t,
                {
                    let rec = &self.slots[si].records[t];
                    let keep = lang_ok_exec(rec, &langs_low, Ghost(langs));
                    proof {
                        assert(snap.recs[t as int] == rec@);
                        assert(self.slots@[si as int].wf(self@.dim));
                    }
                    if keep {
                        recs.push(rec.dup());
                        vecs.push(clone_ivec(&self.slots[si].vectors[t]));
                        proof {
                            assert(snap.vecs[t as int]
                                == self.slots@[si as int].vectors@[t as int]@);
                        }
                    }
                    proof {
                        let pre = cand_pairs_prefix(snap.recs, snap.vecs, langs, t as int);
                        let post = cand_pairs_prefix(snap.recs, snap.vecs, langs, t + 1);
                        assert(post == if lang_ok(snap.recs[t as int], langs) {
                            pre.push((snap.recs[t as int], snap.vecs[t as int]))
                        } else {
                            pre
                        });
                    }
                    t = t + 1;
                }
                proof {
                    assert(self.slots@[si as int].wf(self@.dim));
                    assert(snap.recs.len() == self.slots@[si as int].records@.len());
                    assert forall|i: int|
                        0 <= i < cand_pairs(snap, langs).len() implies (
                    #[trigger] cand_pairs(snap, langs)[i]).1.len() == self@.dim by {
                        lemma_cand_pairs_prefix_from(
                            snap.recs,
                            snap.vecs,
                            langs,
                            nrec as int,
                            self@.dim,
                        );
                    }
                }
            },
        }
        (recs, vecs)
    }
}

/// Every pair a filtered prefix yields takes its vector from the snapshot,
/// so each has the snapshot's dimension.
proof fn lemma_cand_pairs_prefix_from(
    recs: Seq<RecordView>,
    vecs: Seq<Seq<i32>>,
    langs: Option<Seq<Seq<char>>>,
    n: int,
    dim: nat,
)
    requires
        n <= recs.len(),
        recs.len() == vecs.len(),
        forall|k: int| 0 <= k < vecs.len() ==> (#[trigger] vecs[k]).len() == dim,
    ensures
        forall|i: int|
            0 <= i < cand_pairs_prefix(recs, vecs, langs, n).len() ==> (
            #[trigger] cand_pairs_prefix(recs, vecs, langs, n)[i]).1.len() == dim,
    decreases n,
{
    if n > 0 {
        lemma_cand_pairs_prefix_from(recs, vecs, langs, n - 1, dim);
        let rest = cand_pairs_prefix(recs, vecs, langs, n - 1);
        let cur = cand_pairs_prefix(recs, vecs, langs, n);
        assert forall|i: int| 0 <= i < cur.len() implies (#[trigger] cur[i]).1.len()
            == dim by {
            if lang_ok(recs[n - 1], langs) {
                if i < rest.len() {
                    assert(cur[i] == rest[i]);
                } else {
                    assert(cur[i] == (recs[n - 1], vecs[n - 1]));
                }
            } else {
                assert(cur[i] == rest[i]);
            }
        }
    }
}

/// The nearest-neighbor order: ascending distance, ties broken by ascending
/// id.
pub open spec fn nn_le(a: (u64, u128), b: (u64, u128)) -> bool {
    a.1 < b.1 || (a.1 == b.1 && a.0 <= b.0)
}

/// The nearest-neighbor order as a function value.
pub open spec fn nn_order() -> spec_fn((u64, u128), (u64, u128)) -> bool {
    |a: (u64, u128), b: (u64, u128)| nn_le(a, b)
}

fn nn_le_exec(a: (u64, u128), b: (u64, u128)) -> (r: bool)
    ensures
        r == nn_le(a, b),
{
    a.1 < b.1 || (a.1 == b.1 && a.0 <= b.0)
}

/// The (id, squared distance to `q`) pair of each of `owner`'s records, in
/// store order; nothing when the owner is not cached.
pub open spec fn owner_pairs(sv: StoreView, owner: Seq<char>, q: Seq<i32>) -> Seq<(u64, u128)> {
    if sv.owners.contains_key(owner) {
        Seq::new(
            sv.owners[owner].recs.len(),
            |i: int|
                (
                    sv.owners[owner].recs[i].id,
                    crate::vecmath::dist2(sv.owners[owner].vecs[i], q) as u128,
                ),
        )
    } else {
        Seq::empty()
    }
}

/// The pairs of every named owner, concatenated in the order the owners
/// were named.
pub open spec fn nn_candidates(sv: StoreView, owners: Seq<Seq<char>>, q: Seq<i32>) -> Seq<
    (u64, u128),
>
    decreases owners.len(),
{
    if owners.len() == 0 {
        Seq::empty()
    } else {
        nn_candidates(sv, owners.drop_last(), q) + owner_pairs(sv, owners.last(), q)
    }
}

/// The up-to-`k` stored vectors closest to `q` over the named owners:
/// all candidate pairs sorted by ascending distance (ties by ascending id),
/// cut to `k`.
pub open spec fn spec_nearest(
    sv: StoreView,
    owners: Seq<Seq<char>>,
    q: Seq<i32>,
    k: nat,
) -> Seq<(u64, u128)> {
    let sorted = crate::sorting::sort_by_ins(nn_candidates(sv, owners, q), nn_order());
    if k <= sorted.len() {
        sorted.take(k as int)
    } else {
        sorted
    }
}

fn sort_pairs(v: Vec<(u64, u128)>) -> (r: Vec<(u64, u128)>)
    ensures
        r@ == crate::sorting::sort_by_ins(v@, nn_order()),
{
    let n = v.len();
    let mut out: Vec<(u64, u128)> = Vec::new();
    let mut i: usize = 0;
    proof {
        assert(v@.take(0) =~= Seq::<(u64, u128)>::empty());
    }
    while i < n
        invariant
            n == v@.len(),
            i <= n,
            out@ == crate::sorting::sort_by_ins(v@.take(i as int), nn_order()),
        decreases n - i,
    {
        let x = v[i];
        let m = out.len();
        let mut j: usize = 0;
        while j < m && !nn_le_exec(x, out[j])
            invariant
                m == out@.len(),
                j <= m,
                forall|t: int| 0 <= t < j ==> !nn_le(x, #[trigger] out@[t]),
            decreases m - j,
        {
            j = j + 1;
        }
        let ghost before = out@;
        out.insert(j, x);
        proof {
            assert forall|t: int| 0 <= t < j implies !(nn_order()(x, before[t])) by {
                assert(nn_order()(x, before[t]) == nn_le(x, before[t]));
            }
            if (j as int) < before.len() {
                assert(nn_order()(x, before[j as int]));
            }
            crate::sorting::lemma_insert_sorted_splice(x, before, nn_order(), j as int);
            assert(v@.take(i + 1).drop_last() =~= v@.take(i as int));
            assert(v@.take(i + 1).last() == x);
        }
        i = i + 1;
    }
    proof {
        assert(v@.take(n as int) =~= v@);
    }
    out
}

impl Store {
    /// The up-to-`k` stored vectors closest to `q` over the named owners,
    /// as (record id, squared distance) pairs, closest first, ties broken by
    /// ascending id.
    pub fn nearest_neighbors(&self, owners: &Vec<String>, q: &Vec<i32>, k: usize) -> (r: Vec<
        (u64, u128),
    >)
        requires
            self.wf(),
            q@.len() == self@.dim,
        ensures
            r@ == spec_nearest(self@, str_views(owners@), q@, k as nat),
    {
        let m = owners.len();
        let mut pairs: Vec<(u64, u128)> = Vec::new();
        let mut oi: usize = 0;
        proof {
            assert(str_views(owners@).take(0) =~= Seq::<Seq<char>>::empty());
        }
        while oi < m
            invariant
                self.wf(),
                q@.len() == self@.dim,
                m == owners@.len(),
                oi <= m,
                pairs@ == nn_candidates(self@, str_views(owners@).take(oi as int), q@),
            decreases m - oi,
        {
            let ghost prefix = str_views(owners@).take(oi as int);
            let ghost name = owners@[oi as int]@;
            match self.find_slot(owners[oi].as_str()) {
                None => {
                    proof {
                        assert(str_views(owners@).take(oi + 1).drop_last() =~= prefix);
                        assert(str_views(owners@).take(oi + 1).last() == name);
                        assert(owner_pairs(self@, name, q@) =~= Seq::<(u64, u128)>::empty());
                        assert(pairs@ =~= nn_candidates(
                            self@,
                            str_views(owners@).take(oi + 1),
                            q@,
                        ));
                    }
                },
                Some(si) => {
                    let ghost snap = self@.owners[name];
                    let nrec = self.slots[si].records.len();
                    let mut t: usize = 0;
                    proof {
                        assert(owner_pairs(self@, name, q@).take(0) =~= Seq::<
                            (u64, u128),
                        >::empty());
                    }
                    while t < nrec
                        invariant
                            self.wf(),
                            q@.len() == self@.dim,
                            si < self.slots@.len(),
                            self@.owners.contains_key(name),
                            self@.owners[name] == self.slots@[si as int].snap(),
                            snap == self@.owners[name],
                            nrec == self.slots@[si as int].records@.len(),
                            t <= nrec,
                            pairs@ == nn_candidates(self@, prefix, q@) + owner_pairs(
                                self@,
                                name,
                                q@,
                            ).take(t as int),
                        decreases nrec - t,
                    {
                        let id = self.slots[si].records[t].id;
                        proof {
                            assert(self.slots@[si as int].wf(self@.dim));
                            assert(vec_views(self.slots@[si as int].vectors@)[t as int].len()
                                == self@.dim);
                        }
                        let d = crate::vecmath::squared_l2(&self.slots[si].vectors[t], q);
                        pairs.push((id, d));
                        proof {
                            assert(snap.recs[t as int].id == id);
                            assert(snap.vecs[t as int] == self.slots@[si as int].vectors@[t as int]@);
                            assert(owner_pairs(self@, name, q@)[t as int] == (id, d));
                            assert(owner_pairs(self@, name, q@).take(t + 1) =~= owner_pairs(
                                self@,
                                name,
                                q@,
                            ).take(t as int).push((id, d)));
                            assert(pairs@ =~= nn_candidates(self@, prefix, q@) + owner_pairs(
                                self@,
                                name,
                                q@,
                            ).take(t + 1));
                        }
                        t = t + 1;
                    }
                    proof {
                        assert(owner_pairs(self@, name, q@).take(nrec as int) =~= owner_pairs(
                            self@,
                            name,
                            q@,
                        ));
                        assert(str_views(owners@).take(oi + 1).drop_last() =~= prefix);
                        assert(str_views(owners@).take(oi + 1).last() == name);
                        assert(pairs@ =~= nn_candidates(
                            self@,
                            str_views(owners@).take(oi + 1),
                            q@,
                        ));
                    }
                },
            }
            oi = oi + 1;
        }
        proof {
            assert(str_views(owners@).take(m as int) =~= str_views(owners@));
        }
        let mut sorted = sort_pairs(pairs);
        let cut = if k <= sorted.len() {
            k
        } else {
            sorted.len()
        };
        sorted.truncate(cut);
        proof {
            assert(sorted@ =~= spec_nearest(self@, str_views(owners@), q@, k as nat));
        }
        sorted
    }
}

impl Store {
    /// When `owner`'s snapshot was last refreshed; nothing when the owner
    /// is not cached.
    pub fn last_refresh(&self, owner: &str) -> (r: Option<u64>)
        requires
            self.wf(),
        ensures
            match r {
                Some(t) => self@.owners.contains_key(owner@) && t == self@.owners[owner@]
                    .last_refresh,
                None => !self@.owners.contains_key(owner@),
            },
    {
        match self.find_slot(owner) {
            Some(i) => Some(self.slots[i].last_refresh),
            None => None,
        }
    }
}

/// Whether `owner`'s data must be fetched anew at time `now`: always under
/// `force`, otherwise when the owner was never cached or the snapshot is
/// stale.
pub open spec fn spec_should_refetch(
    sv: StoreView,
    owner: Seq<char>,
    force: bool,
    now: u64,
) -> bool {
    ||| force
    ||| !sv.owners.contains_key(owner)
    ||| spec_stale(sv.owners[owner].last_refresh, now)
}

impl Store {
    /// Decides whether `owner`'s data must be fetched anew at time `now`.
    pub fn should_refetch(&self, owner: &str, force: bool, now: u64) -> (r: bool)
        requires
            self.wf(),
        ensures
            r == spec_should_refetch(self@, owner@, force, now),
    {
        if force {
            return true;
        }
        match self.find_slot(owner) {
            None => true,
            Some(i) => crate::freshness::stale(self.slots[i].last_refresh, now),
        }
    }
}

impl Store {
    /// What the store's well-formedness guarantees of its mathematical
    /// value: every cached owner's records pair one-to-one with vectors of
    /// the store's dimension, and no two of an owner's records share an id.
    pub proof fn lemma_store_invariant(&self)
        requires
            self.wf(),
        ensures
            forall|o: Seq<char>|
                #[trigger] self@.owners.contains_key(o) ==> valid_snapshot(
                    self@.dim,
                    self@.owners[o].recs,
                    self@.owners[o].vecs,
                ),
    {
        assert forall|o: Seq<char>| #[trigger] self@.owners.contains_key(o) implies valid_snapshot(
            self@.dim,
            self@.owners[o].recs,
            self@.owners[o].vecs,
        ) by {
            self.lemma_view_key(o);
            let i = slot_idx(self.slots@, o);
            assert(self.slots@[i].wf(self.dim as nat));
        }
    }
}

/// Some cached owner holds a record whose full name is exactly `refstr`.
pub open spec fn full_name_present(sv: StoreView, refstr: Seq<char>) -> bool {
    exists|o: Seq<char>, j: int|
        sv.owners.contains_key(o) && 0 <= j < sv.owners[o].recs.len() && (
        #[trigger] sv.owners[o].recs[j]).full_name == refstr
}

/// `r` is one of owner `o`'s cached records.
pub open spec fn is_owner_record(sv: StoreView, o: Seq<char>, r: RecordView) -> bool {
    sv.owners.contains_key(o) && exists|j: int|
        0 <= j < sv.owners[o].recs.len() && sv.owners[o].recs[j] == r
}

/// Owner `o` holds a record named `name`.
pub open spec fn name_present(sv: StoreView, o: Seq<char>, name: Seq<char>) -> bool {
    sv.owners.contains_key(o) && exists|j: int|
        0 <= j < sv.owners[o].recs.len() && (#[trigger] sv.owners[o].recs[j]).name == name
}

impl Store {
    /// Resolves an `owner/name` reference: a record whose full name equals
    /// the reference, from any cached owner; failing that, the named
    /// owner's record of that name; failing both, or when the reference
    /// does not hold exactly one separator, the not-found error.
    pub fn info(&self, repo_ref: &str) -> (r: Result<RepoRecord, crate::errors::StarsError>)
        requires
            self.wf(),
        ensures
            ({
                let parts = crate::text::split_on(repo_ref@, '/');
                match r {
                    Ok(rec) => {
                        &&& parts.len() == 2
                        &&& exists|o: Seq<char>| is_owner_record(self@, o, rec@)
                        &&& (rec@.full_name == repo_ref@ || (!full_name_present(
                            self@,
                            repo_ref@,
                        ) && is_owner_record(self@, parts[0], rec@) && rec@.name == parts[1]))
                    },
                    Err(e) => {
                        &&& e == crate::errors::StarsError::NotFound
                        &&& (parts.len() != 2 || (!full_name_present(self@, repo_ref@)
                            && !name_present(self@, parts[0], parts[1])))
                    },
                }
            }),
    {
        let parsed = crate::text::split_ref(repo_ref);
        match parsed {
            None => Err(crate::errors::StarsError::NotFound),
            Some(parts) => {
                let ns = self.slots.len();
                let mut t: usize = 0;
                while t < ns
                    invariant
                        self.wf(),
                        ns == self.slots@.len(),
                        t <= ns,
                        crate::text::split_on(repo_ref@, '/').len() == 2,
                        parts.0@ == crate::text::split_on(repo_ref@, '/')[0],
                        parts.1@ == crate::text::split_on(repo_ref@, '/')[1],
                        forall|a: int, k: int|
                            0 <= a < t && 0 <= k < self.slots@[a].snap().recs.len() ==> (
                            #[trigger] self.slots@[a].snap().recs[k]).full_name != repo_ref@,
                    decreases ns - t,
                {
                    let nr = self.slots[t].records.len();
                    let mut k: usize = 0;
                    while k < nr
                        invariant
                            self.wf(),
                            ns == self.slots@.len(),
                            t < ns,
                                crate::text::split_on(repo_ref@, '/').len() == 2,
                            parts.0@ == crate::text::split_on(repo_ref@, '/')[0],
                            parts.1@ == crate::text::split_on(repo_ref@, '/')[1],
                            nr == self.slots@[t as int].records@.len(),
                            k <= nr,
                            forall|a: int, k2: int|
                                0 <= a < t && 0 <= k2 < self.slots@[a].snap().recs.len() ==> (
                                #[trigger] self.slots@[a].snap().recs[k2]).full_name
                                    != repo_ref@,
                            forall|k2: int|
                                0 <= k2 < k ==> (#[trigger] self.slots@[t as int].snap()
                                    .recs[k2]).full_name != repo_ref@,
                        decreases nr - k,
                    {
                        if crate::text::str_eq(
                            self.slots[t].records[k].full_name.as_str(),
                            repo_ref,
                        ) {
                            let rec = self.slots[t].records[k].dup();
                            proof {
                                self.lemma_view_slot(t as int);
                                let oname = self.slots@[t as int].name();
                                assert(self@.owners[oname].recs[k as int] == rec@);
                                assert(is_owner_record(self@, oname, rec@));
                            }
                            return Ok(rec);
                        }
                        k = k + 1;
                    }
                    t = t + 1;
                }
                proof {
                    assert forall|o: Seq<char>, j: int|
                        self@.owners.contains_key(o) && 0 <= j < self@.owners[o].recs.len()
                            implies (#[trigger] self@.owners[o].recs[j]).full_name
                        != repo_ref@ by {
                        self.lemma_view_key(o);
                        let a = slot_idx(self.slots@, o);
                        assert(self.slots@[a].snap().recs[j].full_name != repo_ref@);
                    }
                    assert(!full_name_present(self@, repo_ref@));
                }
                match self.find_slot(parts.0.as_str()) {
                    None => Err(crate::errors::StarsError::NotFound),
                    Some(si) => {
                        let nr = self.slots[si].records.len();
                        let mut k: usize = 0;
                        while k < nr
                            invariant
                                self.wf(),
                                si < self.slots@.len(),
                                crate::text::split_on(repo_ref@, '/').len() == 2,
                                parts.0@ == crate::text::split_on(repo_ref@, '/')[0],
                                parts.1@ == crate::text::split_on(repo_ref@, '/')[1],
                                self@.owners.contains_key(parts.0@),
                                self@.owners[parts.0@] == self.slots@[si as int].snap(),
                                !full_name_present(self@, repo_ref@),
                                nr == self.slots@[si as int].records@.len(),
                                k <= nr,
                                forall|k2: int|
                                    0 <= k2 < k ==> (#[trigger] self.slots@[si as int].snap()
                                        .recs[k2]).name != parts.1@,
                            decreases nr - k,
                        {
                            if crate::text::str_eq(
                                self.slots[si].records[k].name.as_str(),
                                parts.1.as_str(),
                            ) {
                                let rec = self.slots[si].records[k].dup();
                                proof {
                                    assert(self@.owners[parts.0@].recs[k as int] == rec@);
                                    assert(is_owner_record(self@, parts.0@, rec@));
                                }
                                return Ok(rec);
                            }
                            k = k + 1;
                        }
                        proof {
                            assert(!name_present(self@, parts.0@, parts.1@));
                        }
                        Err(crate::errors::StarsError::NotFound)
                    },
                }
            },
        }
    }
}

} // verus!
