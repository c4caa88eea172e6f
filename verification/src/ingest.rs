//! The ingestion pipeline: the text embedded for each record, and the
//! all-or-nothing replacement of an owner's snapshot once every record's
//! embedding outcome is in hand.

use vstd::prelude::*;

verus! {

use crate::record::{RepoRecord, RecordView, rec_views};
use crate::store::{Store, OwnerSnap, valid_snapshot, snapshot_error};
use crate::errors::StarsError;

/// The text embedded for a record: name, language and description joined by
/// single spaces, a missing field standing as the empty string.
pub open spec fn spec_embed_text(r: RecordView) -> Seq<char> {
    r.name + seq![' '] + (match r.language {
        Some(l) => l,
        None => Seq::<char>::empty(),
    }) + seq![' '] + (match r.description {
        Some(d) => d,
        None => Seq::<char>::empty(),
    })
}

/// Builds the text whose embedding stands for the record.
pub fn embed_text(r: &RepoRecord) -> (t: String)
    ensures
        t@ == spec_embed_text(r@),
{
    proof {
        reveal_strlit(" ");
        assert(" "@ =~= seq![' ']);
    }
    let mut t = r.name.clone();
    t.append(" ");
    match &r.language {
        Some(l) => t.append(l.as_str()),
        None => (),
    }
    t.append(" ");
    match &r.description {
        Some(d) => t.append(d.as_str()),
        None => (),
    }
    proof {
        assert(t@ =~= spec_embed_text(r@));
    }
    t
}

/// The texts to embed, one per record, in record order.
pub fn embed_texts(records: &Vec<RepoRecord>) -> (ts: Vec<String>)
    ensures
        ts@.len() == records@.len(),
        forall|i: int| 0 <= i < records@.len() ==> (#[trigger] ts@[i])@ == spec_embed_text(
            records@[i]@,
        ),
{
    let n = records.len();
    let mut ts: Vec<String> = Vec::new();
    let mut i: usize = 0;
    while i < n
        invariant
            n == records@.len(),
            i <= n,
            ts@.len() == i,
            forall|k: int| 0 <= k < i ==> (#[trigger] ts@[k])@ == spec_embed_text(
                records@[k]@,
            ),
        decreases n - i,
    {
        ts.push(embed_text(&records[i]));
        i = i + 1;
    }
    ts
}

/// Every record's embedding came back.
pub open spec fn embeds_ok(es: Seq<Option<Vec<i32>>>) -> bool {
    forall|i: int| 0 <= i < es.len() ==> (#[trigger] es[i]) is Some
}

/// The vectors of the embedding outcomes, a failed outcome standing as the
/// empty vector.
pub open spec fn embed_views(es: Seq<Option<Vec<i32>>>) -> Seq<Seq<i32>> {
    es.map_values(
        |e: Option<Vec<i32>>|
            match e {
                Some(v) => v@,
                None => Seq::<i32>::empty(),
            },
    )
}

/// The error ingestion reports: an embedding failure (a missing outcome or
/// a count that does not pair with the records) before any snapshot fault.
pub open spec fn spec_ingest_error(
    dim: nat,
    recs: Seq<RecordView>,
    es: Seq<Option<Vec<i32>>>,
) -> StarsError {
    if es.len() != recs.len() || !embeds_ok(es) {
        StarsError::Embedding
    } else {
        snapshot_error(dim, recs, embed_views(es))
    }
}

impl Store {
    /// Ingests a freshly fetched snapshot for `owner`, all or nothing: with
    /// one embedding outcome per record and every outcome a vector, the
    /// owner's snapshot is replaced as one transaction and the refresh time
    /// set to `now`; on any failure — one embedding missing, a mispaired or
    /// misdimensioned vector, a duplicated record id — the whole store is
    /// exactly as it was.
    pub fn ingest_snapshot(
        &mut self,
        owner: &str,
        records: Vec<RepoRecord>,
        embeddings: Vec<Option<Vec<i32>>>,
        now: u64,
    ) -> (r: Result<(), StarsError>)
        requires
            old(self).wf(),
            old(self)@.owners.contains_key(owner@) ==> now >= old(self)@.owners[owner@].last_refresh,
        ensures
            final(self).wf(),
            final(self)@.dim == old(self)@.dim,
            match r {
                Ok(()) => {
                    &&& embeddings@.len() == records@.len()
                    &&& embeds_ok(embeddings@)
                    &&& valid_snapshot(
                        old(self)@.dim,
                        rec_views(records@),
                        embed_views(embeddings@),
                    )
                    &&& final(self)@.owners == old(self)@.owners.insert(
                        owner@,
                        OwnerSnap {
                            recs: rec_views(records@),
                            vecs: embed_views(embeddings@),
                            last_refresh: now,
                        },
                    )
                },
                Err(e) => {
                    &&& final(self)@ == old(self)@
                    &&& !(embeddings@.len() == records@.len() && embeds_ok(embeddings@)
                        && valid_snapshot(
                        old(self)@.dim,
                        rec_views(records@),
                        embed_views(embeddings@),
                    ))
                    &&& e == spec_ingest_error(old(self)@.dim, rec_views(records@), embeddings@)
                },
            },
    {
        let n = records.len();
        if embeddings.len() != n {
            return Err(StarsError::Embedding);
        }
        let ghost es = embeddings@;
        let mut rest = embeddings;
        let mut vecs: Vec<Vec<i32>> = Vec::new();
        let mut i: usize = 0;
        while i < n
            invariant
                self == old(self),
                old(self).wf(),
                es == embeddings@,
                n == records@.len(),
                n == es.len(),
                i <= n,
                rest@ =~= es.skip(i as int),
                vecs@.len() == i,
                forall|k: int| 0 <= k < i ==> (#[trigger] es[k]) is Some,
                forall|k: int| 0 <= k < i ==> (#[trigger] vecs@[k])@ == embed_views(es)[k],
            decreases n - i,
        {
            let e = rest.remove(0);
            proof {
                assert(es.skip(i as int)[0] == es[i as int]);
                assert(es.skip(i as int).remove(0) =~= es.skip(i + 1));
            }
            match e {
                None => {
                    proof {
                        assert(!embeds_ok(es));
                    }
                    return Err(StarsError::Embedding);
                },
                Some(v) => {
                    vecs.push(v);
                },
            }
            i = i + 1;
        }
        proof {
            assert(embeds_ok(es));
            assert(crate::store::vec_views(vecs@) =~= embed_views(es));
        }
        let r = self.upsert_owner_snapshot(owner, records, vecs, now);
        proof {
            match r {
                Ok(()) => {},
                Err(e) => {
                    assert(e == spec_ingest_error(old(self)@.dim, rec_views(records@), es));
                },
            }
        }
        r
    }
}

} // verus!
