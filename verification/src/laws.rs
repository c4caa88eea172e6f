//! The laws of the library, each proved from the contracts alone: what
//! holds of every store state and every input, not merely of the cases the
//! tests run.

use vstd::prelude::*;

verus! {

use crate::record::RecordView;
use crate::store::{
    StoreView, OwnerSnap, valid_snapshot, spec_get_records, spec_should_refetch, spec_nearest,
    owner_filtered, filter_langs, nn_candidates, owner_pairs, nn_le, nn_order, lang_ok,
};
use crate::rank::{
    spec_owner_cand_seq, rank_le, rank_order, CandV,
};
use crate::sorting::{sort_by_ins, sorted_by, lemma_sort_by_ins_props};
use crate::freshness::TTL_SECONDS;

/// Searching depends on the store's mathematical value and the arguments
/// alone, so an empty-query search run twice over an unchanged store with
/// identical inputs yields the identical ordered output.
pub proof fn lemma_empty_search_idempotent(
    sv: StoreView,
    owners: Seq<Seq<char>>,
    limit: nat,
    first: Seq<RecordView>,
    second: Seq<RecordView>,
)
    requires
        first == crate::rank::spec_search(sv, owners, None, Seq::<char>::empty(), None, limit),
        second == crate::rank::spec_search(sv, owners, None, Seq::<char>::empty(), None, limit),
    ensures
        first == second,
{
}

/// An unfiltered language check passes every record, so filtering with no
/// filter keeps the records exactly.
proof fn lemma_filter_langs_none(recs: Seq<RecordView>)
    ensures
        filter_langs(recs, None) == recs,
    decreases recs.len(),
{
    if recs.len() > 0 {
        lemma_filter_langs_none(recs.drop_last());
        assert(filter_langs(recs, None) =~= recs);
    } else {
        assert(filter_langs(recs, None) =~= recs);
    }
}

/// The nearest-neighbor order is total and transitive.
pub proof fn lemma_nn_order_laws()
    ensures
        forall|a: (u64, u128), b: (u64, u128)| #[trigger] nn_order()(a, b) || #[trigger] nn_order()(
            b,
            a,
        ),
        forall|a: (u64, u128), b: (u64, u128), c: (u64, u128)|
            #[trigger] nn_order()(a, b) && #[trigger] nn_order()(b, c) ==> nn_order()(a, c),
{
    assert forall|a: (u64, u128), b: (u64, u128)| #[trigger] nn_order()(a, b) || #[trigger] nn_order()(
        b,
        a,
    ) by {
        assert(nn_order()(a, b) == nn_le(a, b));
        assert(nn_order()(b, a) == nn_le(b, a));
    }
    assert forall|a: (u64, u128), b: (u64, u128), c: (u64, u128)|
        #[trigger] nn_order()(a, b) && #[trigger] nn_order()(b, c) implies nn_order()(a, c) by {
        assert(nn_order()(a, b) == nn_le(a, b));
        assert(nn_order()(b, c) == nn_le(b, c));
        assert(nn_order()(a, c) == nn_le(a, c));
    }
}

/// The rank order of the merged result is total and transitive.
pub proof fn lemma_rank_order_laws()
    ensures
        forall|a: CandV, b: CandV| #[trigger] rank_order()(a, b) || #[trigger] rank_order()(b, a),
        forall|a: CandV, b: CandV, c: CandV|
            #[trigger] rank_order()(a, b) && #[trigger] rank_order()(b, c) ==> rank_order()(a, c),
{
    assert forall|a: CandV, b: CandV| #[trigger] rank_order()(a, b) || #[trigger] rank_order()(
        b,
        a,
    ) by {
        assert(rank_order()(a, b) == rank_le(a, b));
        assert(rank_order()(b, a) == rank_le(b, a));
    }
    assert forall|a: CandV, b: CandV, c: CandV|
        #[trigger] rank_order()(a, b) && #[trigger] rank_order()(b, c) implies rank_order()(
        a,
        c,
    ) by {
        assert(rank_order()(a, b) == rank_le(a, b));
        assert(rank_order()(b, c) == rank_le(b, c));
        assert(rank_order()(a, c) == rank_le(a, c));
    }
}

/// After a snapshot for an owner lands, reading that owner back gives
/// exactly the ingested records, in store order, and the nearest-neighbor
/// scan over that owner sees exactly one candidate per record: `k` of them
/// when `k` does not exceed the record count, else all.
pub proof fn lemma_snapshot_round_trip(
    sv: StoreView,
    owner: Seq<char>,
    recs: Seq<RecordView>,
    vecs: Seq<Seq<i32>>,
    now: u64,
    q: Seq<i32>,
    k: nat,
)
    requires
        valid_snapshot(sv.dim, recs, vecs),
    ensures
        ({
            let sv2 = StoreView {
                dim: sv.dim,
                owners: sv.owners.insert(
                    owner,
                    OwnerSnap { recs, vecs, last_refresh: now },
                ),
            };
            &&& spec_get_records(sv2, seq![owner], None) == recs
            &&& spec_nearest(sv2, seq![owner], q, k).len() == if k <= recs.len() {
                k as int
            } else {
                recs.len() as int
            }
        }),
{
    let sv2 = StoreView {
        dim: sv.dim,
        owners: sv.owners.insert(owner, OwnerSnap { recs, vecs, last_refresh: now }),
    };
    let single = seq![owner];
    assert(single.drop_last() =~= Seq::<Seq<char>>::empty());
    assert(single.last() == owner);
    assert(sv2.owners.contains_key(owner));
    assert(sv2.owners[owner].recs == recs);
    lemma_filter_langs_none(recs);
    assert(spec_get_records(sv2, Seq::<Seq<char>>::empty(), None) == Seq::<RecordView>::empty());
    assert(spec_get_records(sv2, single, None) == spec_get_records(
        sv2,
        single.drop_last(),
        None,
    ) + owner_filtered(sv2, owner, None));
    assert(spec_get_records(sv2, single, None) =~= recs);
    let cands = nn_candidates(sv2, single, q);
    assert(cands == nn_candidates(sv2, Seq::<Seq<char>>::empty(), q) + owner_pairs(
        sv2,
        owner,
        q,
    ));
    assert(cands =~= owner_pairs(sv2, owner, q));
    assert(cands.len() == recs.len());
    lemma_nn_order_laws();
    lemma_sort_by_ins_props(cands, nn_order());
}

/// Right after a successful ingestion at time `t` no refetch is needed
/// without force, and one becomes needed exactly when more than the
/// time-to-live has passed since `t`.
pub proof fn lemma_freshness(
    sv: StoreView,
    owner: Seq<char>,
    recs: Seq<RecordView>,
    vecs: Seq<Seq<i32>>,
    t: u64,
    now: u64,
)
    ensures
        ({
            let sv2 = StoreView {
                dim: sv.dim,
                owners: sv.owners.insert(owner, OwnerSnap { recs, vecs, last_refresh: t }),
            };
            &&& !spec_should_refetch(sv2, owner, false, t)
            &&& spec_should_refetch(sv2, owner, false, now) == (now > t + TTL_SECONDS)
        }),
{
}

/// A record whose name equals the query text, case-insensitively, takes
/// the highest lexical score: equality is containment.
pub proof fn lemma_exact_name_scores_three(r: RecordView, qlow: Seq<char>)
    requires
        crate::text::lower_of(r.name) == qlow,
    ensures
        crate::rank::lex_score(r, qlow) == 3,
{
    let low = crate::text::lower_of(r.name);
    assert(low.subrange(0, qlow.len() as int) =~= qlow);
    assert(crate::text::matches_at(low, qlow, 0));
}

/// A name match outranks weaker matches: in one owner's ranked candidates,
/// a lexical candidate of score 3 (the query occurs in the record's name)
/// stands strictly before every lexical candidate of score 1 (a
/// description-only match) and before every semantic-pass candidate; the
/// search output lists records in exactly this order.
pub proof fn lemma_name_match_ranks_first(
    sv: StoreView,
    owner: Seq<char>,
    langs: Option<Seq<Seq<char>>>,
    query: Seq<char>,
    qvec: Option<Seq<i32>>,
    i: int,
    j: int,
)
    requires
        ({
            let sorted = sort_by_ins(
                spec_owner_cand_seq(sv, owner, langs, query, qvec),
                rank_order(),
            );
            &&& 0 <= i < sorted.len()
            &&& 0 <= j < sorted.len()
            &&& !sorted[i].sem
            &&& sorted[i].strength == 3
            &&& (sorted[j].sem || sorted[j].strength == 1)
        }),
    ensures
        i < j,
{
    let sorted = sort_by_ins(spec_owner_cand_seq(sv, owner, langs, query, qvec), rank_order());
    lemma_rank_order_laws();
    lemma_sort_by_ins_props(spec_owner_cand_seq(sv, owner, langs, query, qvec), rank_order());
    assert(sorted_by(sorted, rank_order()));
    if j < i {
        assert(rank_order()(sorted[j], sorted[i]));
        assert(rank_le(sorted[j], sorted[i]));
        assert(false);
    }
    if j == i {
        assert(false);
    }
}

/// The cross-owner merge order is total and transitive.
pub proof fn lemma_merge_order_laws()
    ensures
        forall|a: crate::rank::MCandV, b: crate::rank::MCandV|
            #[trigger] crate::rank::merge_order()(a, b) || #[trigger] crate::rank::merge_order()(
                b,
                a,
            ),
        forall|a: crate::rank::MCandV, b: crate::rank::MCandV, c: crate::rank::MCandV|
            #[trigger] crate::rank::merge_order()(a, b) && #[trigger] crate::rank::merge_order()(
                b,
                c,
            ) ==> crate::rank::merge_order()(a, c),
{
    assert forall|a: crate::rank::MCandV, b: crate::rank::MCandV|
        #[trigger] crate::rank::merge_order()(a, b) || #[trigger] crate::rank::merge_order()(
        b,
        a,
    ) by {
        assert(crate::rank::merge_order()(a, b) == crate::rank::merge_le(a, b));
        assert(crate::rank::merge_order()(b, a) == crate::rank::merge_le(b, a));
    }
    assert forall|a: crate::rank::MCandV, b: crate::rank::MCandV, c: crate::rank::MCandV|
        #[trigger] crate::rank::merge_order()(a, b) && #[trigger] crate::rank::merge_order()(
        b,
        c,
    ) implies crate::rank::merge_order()(a, c) by {
        assert(crate::rank::merge_order()(a, b) == crate::rank::merge_le(a, b));
        assert(crate::rank::merge_order()(b, c) == crate::rank::merge_le(b, c));
        assert(crate::rank::merge_order()(a, c) == crate::rank::merge_le(a, c));
    }
}

/// The merged result of a search lists records by non-increasing star
/// count: whatever each owner contributed, the record at an earlier
/// position never has fewer stars than one at a later position.
pub proof fn lemma_search_stars_sorted(
    sv: StoreView,
    owners: Seq<Seq<char>>,
    langs: Option<Seq<Seq<char>>>,
    query: Seq<char>,
    qvec: Option<Seq<i32>>,
    limit: nat,
    i: int,
    j: int,
)
    requires
        0 <= i < j < crate::rank::spec_search(sv, owners, langs, query, qvec, limit).len(),
    ensures
        crate::rank::spec_search(sv, owners, langs, query, qvec, limit)[i].stars
            >= crate::rank::spec_search(sv, owners, langs, query, qvec, limit)[j].stars,
{
    broadcast use vstd::seq_lib::group_to_multiset_ensures;

    let tagged = crate::rank::tag_all(sv, owners, langs, query, qvec, limit);
    let sorted = sort_by_ins(tagged, crate::rank::merge_order());
    lemma_merge_order_laws();
    lemma_sort_by_ins_props(tagged, crate::rank::merge_order());
    assert(sorted_by(sorted, crate::rank::merge_order()));
    lemma_tag_all_stars(sv, owners, langs, query, qvec, limit);
    // each sorted element is a tagged element, so its tag repeats its
    // record's star count
    assert forall|t: int| 0 <= t < sorted.len() implies (#[trigger] sorted[t]).stars
        == sorted[t].rec.stars by {
        assert(sorted.to_multiset().contains(sorted[t]));
        assert(tagged.to_multiset().contains(sorted[t]));
        assert(tagged.contains(sorted[t]));
        let u = choose|u: int| 0 <= u < tagged.len() && tagged[u] == sorted[t];
        assert(tagged[u].stars == tagged[u].rec.stars);
    }
    let out = crate::rank::spec_search(sv, owners, langs, query, qvec, limit);
    assert(out[i] == sorted[i].rec && out[j] == sorted[j].rec);
    assert(crate::rank::merge_order()(sorted[i], sorted[j]));
    assert(crate::rank::merge_le(sorted[i], sorted[j]));
}

/// Every tagged result's tag repeats its record's star count.
proof fn lemma_tag_all_stars(
    sv: StoreView,
    owners: Seq<Seq<char>>,
    langs: Option<Seq<Seq<char>>>,
    query: Seq<char>,
    qvec: Option<Seq<i32>>,
    limit: nat,
)
    ensures
        ({
            let tagged = crate::rank::tag_all(sv, owners, langs, query, qvec, limit);
            forall|t: int|
                0 <= t < tagged.len() ==> (#[trigger] tagged[t]).stars == tagged[t].rec.stars
        }),
    decreases owners.len(),
{
    if owners.len() > 0 {
        lemma_tag_all_stars(sv, owners.drop_last(), langs, query, qvec, limit);
    }
}

/// Some candidate in `s` carries a record with the given id.
pub open spec fn has_id(s: Seq<CandV>, id: u64) -> bool {
    exists|i: int| 0 <= i < s.len() && (#[trigger] s[i]).rec.id == id
}

/// No two candidates in `s` share a record id.
pub open spec fn cand_ids_unique(s: Seq<CandV>) -> bool {
    forall|i: int, j: int| 0 <= i < j < s.len() ==> s[i].rec.id != s[j].rec.id
}

/// `r` is the record of one of the candidate pairs.
pub open spec fn from_pairs(pairs: Seq<(RecordView, Seq<i32>)>, r: RecordView) -> bool {
    exists|t: int| 0 <= t < pairs.len() && (#[trigger] pairs[t]).0 == r
}

/// No two candidate pairs share a record id.
pub open spec fn pairs_ids_unique(pairs: Seq<(RecordView, Seq<i32>)>) -> bool {
    forall|t: int, u: int| 0 <= t < u < pairs.len() ==> pairs[t].0.id != pairs[u].0.id
}

proof fn lemma_cand_pairs_unique(
    recs: Seq<RecordView>,
    vecs: Seq<Seq<i32>>,
    langs: Option<Seq<Seq<char>>>,
    n: int,
)
    requires
        crate::store::ids_unique(recs),
        0 <= n <= recs.len(),
    ensures
        ({
            let pairs = crate::store::cand_pairs_prefix(recs, vecs, langs, n);
            &&& pairs_ids_unique(pairs)
            &&& forall|i: int|
                0 <= i < pairs.len() ==> exists|t: int|
                    0 <= t < n && (#[trigger] pairs[i]).0 == recs[t]
        }),
    decreases n,
{
    if n > 0 {
        lemma_cand_pairs_unique(recs, vecs, langs, n - 1);
        let pre = crate::store::cand_pairs_prefix(recs, vecs, langs, n - 1);
        let cur = crate::store::cand_pairs_prefix(recs, vecs, langs, n);
        if lang_ok(recs[n - 1], langs) {
            assert(cur == pre.push((recs[n - 1], vecs[n - 1])));
            assert forall|i: int| 0 <= i < cur.len() implies exists|t: int|
                0 <= t < n && (#[trigger] cur[i]).0 == recs[t] by {
                if i < pre.len() {
                    assert(cur[i] == pre[i]);
                    let t = choose|t: int| 0 <= t < n - 1 && pre[i].0 == recs[t];
                    assert(0 <= t < n && cur[i].0 == recs[t]);
                } else {
                    assert(cur[i].0 == recs[n - 1]);
                }
            }
            assert forall|i: int, j: int| 0 <= i < j < cur.len() implies cur[i].0.id
                != cur[j].0.id by {
                if j == cur.len() - 1 {
                    let t = choose|t: int| 0 <= t < n - 1 && pre[i].0 == recs[t];
                    assert(recs[t].id != recs[n - 1].id);
                }
            }
        }
    }
}

proof fn lemma_lex_cands_props(pairs: Seq<(RecordView, Seq<i32>)>, qlow: Seq<char>)
    ensures
        ({
            let lex = crate::rank::lex_cands(pairs, qlow);
            &&& forall|i: int|
                0 <= i < lex.len() ==> !(#[trigger] lex[i]).sem && from_pairs(pairs, lex[i].rec)
                    && crate::rank::lex_score(lex[i].rec, qlow) > 0
            &&& pairs_ids_unique(pairs) ==> cand_ids_unique(lex)
        }),
    decreases pairs.len(),
{
    if pairs.len() > 0 {
        lemma_lex_cands_props(pairs.drop_last(), qlow);
        let pre = crate::rank::lex_cands(pairs.drop_last(), qlow);
        let cur = crate::rank::lex_cands(pairs, qlow);
        assert forall|r: RecordView| from_pairs(pairs.drop_last(), r) implies from_pairs(
            pairs,
            r,
        ) by {
            let t = choose|t: int|
                0 <= t < pairs.drop_last().len() && (#[trigger] pairs.drop_last()[t]).0 == r;
            assert(pairs[t].0 == r);
        }
        if crate::rank::lex_score(pairs.last().0, qlow) > 0 {
            assert(cur == pre.push(
                CandV {
                    sem: false,
                    strength: crate::rank::lex_score(pairs.last().0, qlow) as u128,
                    rec: pairs.last().0,
                },
            ));
            assert(from_pairs(pairs, pairs.last().0)) by {
                assert(pairs[pairs.len() - 1].0 == pairs.last().0);
            }
            if pairs_ids_unique(pairs) {
                assert(pairs_ids_unique(pairs.drop_last())) by {
                    assert(forall|t: int, u: int|
                        0 <= t < u < pairs.drop_last().len() ==> pairs.drop_last()[t]
                            == pairs[t] && pairs.drop_last()[u] == pairs[u]);
                }
                assert forall|i: int, j: int| 0 <= i < j < cur.len() implies cur[i].rec.id
                    != cur[j].rec.id by {
                    if j == cur.len() - 1 {
                        let t = choose|t: int|
                            0 <= t < pairs.drop_last().len() && (#[trigger] pairs.drop_last()[t]).0
                                == pre[i].rec;
                        assert(pairs[t].0.id != pairs[pairs.len() - 1].0.id);
                    }
                }
            }
        } else {
            if pairs_ids_unique(pairs) {
                assert(pairs_ids_unique(pairs.drop_last())) by {
                    assert(forall|t: int, u: int|
                        0 <= t < u < pairs.drop_last().len() ==> pairs.drop_last()[t]
                            == pairs[t] && pairs.drop_last()[u] == pairs[u]);
                }
            }
        }
    }
}

proof fn lemma_sem_cands_props(pairs: Seq<(RecordView, Seq<i32>)>, qlow: Seq<char>, q: Seq<i32>)
    ensures
        ({
            let sem = crate::rank::sem_cands(pairs, qlow, q);
            &&& forall|i: int|
                0 <= i < sem.len() ==> (#[trigger] sem[i]).sem && from_pairs(pairs, sem[i].rec)
                    && crate::rank::lex_score(sem[i].rec, qlow) == 0
            &&& pairs_ids_unique(pairs) ==> cand_ids_unique(sem)
        }),
    decreases pairs.len(),
{
    if pairs.len() > 0 {
        lemma_sem_cands_props(pairs.drop_last(), qlow, q);
        let pre = crate::rank::sem_cands(pairs.drop_last(), qlow, q);
        let cur = crate::rank::sem_cands(pairs, qlow, q);
        assert forall|r: RecordView| from_pairs(pairs.drop_last(), r) implies from_pairs(
            pairs,
            r,
        ) by {
            let t = choose|t: int|
                0 <= t < pairs.drop_last().len() && (#[trigger] pairs.drop_last()[t]).0 == r;
            assert(pairs[t].0 == r);
        }
        if pairs_ids_unique(pairs) {
            assert(pairs_ids_unique(pairs.drop_last())) by {
                assert(forall|t: int, u: int|
                    0 <= t < u < pairs.drop_last().len() ==> pairs.drop_last()[t] == pairs[t]
                        && pairs.drop_last()[u] == pairs[u]);
            }
        }
        if crate::rank::lex_score(pairs.last().0, qlow) == 0 {
            assert(cur == pre.push(
                CandV {
                    sem: true,
                    strength: crate::vecmath::dist2(pairs.last().1, q) as u128,
                    rec: pairs.last().0,
                },
            ));
            assert(from_pairs(pairs, pairs.last().0)) by {
                assert(pairs[pairs.len() - 1].0 == pairs.last().0);
            }
            if pairs_ids_unique(pairs) {
                assert forall|i: int, j: int| 0 <= i < j < cur.len() implies cur[i].rec.id
                    != cur[j].rec.id by {
                    if j == cur.len() - 1 {
                        let t = choose|t: int|
                            0 <= t < pairs.drop_last().len() && (#[trigger] pairs.drop_last()[t]).0
                                == pre[i].rec;
                        assert(pairs[t].0.id != pairs[pairs.len() - 1].0.id);
                    }
                }
            }
        }
    }
}

proof fn lemma_all_cands_props(pairs: Seq<(RecordView, Seq<i32>)>)
    ensures
        ({
            let all = crate::rank::all_cands(pairs);
            &&& all.len() == pairs.len()
            &&& forall|i: int| 0 <= i < all.len() ==> (#[trigger] all[i]).rec == pairs[i].0
            &&& pairs_ids_unique(pairs) ==> cand_ids_unique(all)
        }),
    decreases pairs.len(),
{
    if pairs.len() > 0 {
        lemma_all_cands_props(pairs.drop_last());
        assert(forall|i: int|
            0 <= i < pairs.len() - 1 ==> (#[trigger] pairs.drop_last()[i]) == pairs[i]);
    }
}

/// The merged candidate sequence of one owner never repeats a record id:
/// the semantic pass leaves out every record the lexical pass took.
proof fn lemma_merged_unique(
    pairs: Seq<(RecordView, Seq<i32>)>,
    qlow: Seq<char>,
    q: Seq<i32>,
)
    requires
        pairs_ids_unique(pairs),
    ensures
        cand_ids_unique(crate::rank::lex_cands(pairs, qlow) + crate::rank::sem_cands(pairs, qlow, q)),
{
    let lex = crate::rank::lex_cands(pairs, qlow);
    let sem = crate::rank::sem_cands(pairs, qlow, q);
    lemma_lex_cands_props(pairs, qlow);
    lemma_sem_cands_props(pairs, qlow, q);
    let both = lex + sem;
    assert forall|i: int, j: int| 0 <= i < j < both.len() implies both[i].rec.id
        != both[j].rec.id by {
        if i < lex.len() && j >= lex.len() {
            assert(both[i] == lex[i]);
            assert(both[j] == sem[j - lex.len()]);
            if both[i].rec.id == both[j].rec.id {
                let t = choose|t: int| 0 <= t < pairs.len() && (#[trigger] pairs[t]).0 == lex[i].rec;
                let u = choose|u: int|
                    0 <= u < pairs.len() && (#[trigger] pairs[u]).0 == sem[j - lex.len()].rec;
                if t != u {
                    assert(pairs[t].0.id != pairs[u].0.id);
                } else {
                    assert(lex[i].rec == sem[j - lex.len()].rec);
                    assert(crate::rank::lex_score(lex[i].rec, qlow) > 0);
                    assert(crate::rank::lex_score(sem[j - lex.len()].rec, qlow) == 0);
                }
                assert(false);
            }
        } else if j < lex.len() {
            assert(both[i] == lex[i] && both[j] == lex[j]);
        } else {
            assert(both[i] == sem[i - lex.len()] && both[j] == sem[j - lex.len()]);
        }
    }
}

proof fn lemma_insert_sorted_ids(x: CandV, s: Seq<CandV>, le: spec_fn(CandV, CandV) -> bool)
    ensures
        forall|id: u64|
            #[trigger] has_id(crate::sorting::insert_sorted(x, s, le), id) <==> (x.rec.id == id
                || has_id(s, id)),
        cand_ids_unique(s) && !has_id(s, x.rec.id) ==> cand_ids_unique(
            crate::sorting::insert_sorted(x, s, le),
        ),
    decreases s.len(),
{
    let r = crate::sorting::insert_sorted(x, s, le);
    if s.len() == 0 {
        assert forall|id: u64| #[trigger] has_id(r, id) implies (x.rec.id == id || has_id(
            s,
            id,
        )) by {
            let i = choose|i: int| 0 <= i < r.len() && (#[trigger] r[i]).rec.id == id;
            assert(r[i] == x);
        }
        assert forall|id: u64| x.rec.id == id || has_id(s, id) implies #[trigger] has_id(
            r,
            id,
        ) by {
            assert(r[0] == x);
        }
    } else if le(x, s[0]) {
        assert(r == seq![x] + s);
        assert forall|id: u64| #[trigger] has_id(r, id) implies (x.rec.id == id || has_id(
            s,
            id,
        )) by {
            let i = choose|i: int| 0 <= i < r.len() && (#[trigger] r[i]).rec.id == id;
            if i == 0 {
                assert(r[0] == x);
            } else {
                assert(r[i] == s[i - 1]);
            }
        }
        assert forall|id: u64| x.rec.id == id || has_id(s, id) implies #[trigger] has_id(
            r,
            id,
        ) by {
            if x.rec.id == id {
                assert(r[0].rec.id == id);
            } else {
                let i = choose|i: int| 0 <= i < s.len() && (#[trigger] s[i]).rec.id == id;
                assert(r[i + 1].rec.id == id);
            }
        }
        if cand_ids_unique(s) && !has_id(s, x.rec.id) {
            assert forall|i: int, j: int| 0 <= i < j < r.len() implies r[i].rec.id
                != r[j].rec.id by {
                if i == 0 {
                    assert(r[j] == s[j - 1]);
                    if r[0].rec.id == r[j].rec.id {
                        assert(has_id(s, x.rec.id));
                    }
                } else {
                    assert(r[i] == s[i - 1] && r[j] == s[j - 1]);
                }
            }
        }
    } else {
        assert(forall|k: int| 0 <= k < s.len() - 1 ==> s.drop_first()[k] == s[k + 1]);
        lemma_insert_sorted_ids(x, s.drop_first(), le);
        let ri = crate::sorting::insert_sorted(x, s.drop_first(), le);
        assert(r == seq![s[0]] + ri);
        assert forall|id: u64| #[trigger] has_id(s.drop_first(), id) implies has_id(s, id) by {
            let i = choose|i: int|
                0 <= i < s.drop_first().len() && (#[trigger] s.drop_first()[i]).rec.id == id;
            assert(s[i + 1].rec.id == id);
        }
        assert forall|id: u64| #[trigger] has_id(r, id) implies (x.rec.id == id || has_id(
            s,
            id,
        )) by {
            let i = choose|i: int| 0 <= i < r.len() && (#[trigger] r[i]).rec.id == id;
            if i == 0 {
                assert(s[0].rec.id == id);
            } else {
                assert(r[i] == ri[i - 1]);
                assert(has_id(ri, id));
            }
        }
        assert forall|id: u64| x.rec.id == id || has_id(s, id) implies #[trigger] has_id(
            r,
            id,
        ) by {
            if x.rec.id == id {
                assert(has_id(ri, id));
                let i = choose|i: int| 0 <= i < ri.len() && (#[trigger] ri[i]).rec.id == id;
                assert(r[i + 1].rec.id == id);
            } else {
                let i = choose|i: int| 0 <= i < s.len() && (#[trigger] s[i]).rec.id == id;
                if i == 0 {
                    assert(r[0].rec.id == id);
                } else {
                    assert(s.drop_first()[i - 1].rec.id == id);
                    assert(has_id(s.drop_first(), id));
                    assert(has_id(ri, id));
                    let k = choose|k: int| 0 <= k < ri.len() && (#[trigger] ri[k]).rec.id == id;
                    assert(r[k + 1].rec.id == id);
                }
            }
        }
        if cand_ids_unique(s) && !has_id(s, x.rec.id) {
            assert(cand_ids_unique(s.drop_first()));
            assert(!has_id(s.drop_first(), x.rec.id));
            assert(cand_ids_unique(ri));
            assert forall|i: int, j: int| 0 <= i < j < r.len() implies r[i].rec.id
                != r[j].rec.id by {
                if i == 0 {
                    assert(r[j] == ri[j - 1]);
                    if r[0].rec.id == r[j].rec.id {
                        assert(has_id(ri, s[0].rec.id));
                        if x.rec.id == s[0].rec.id {
                            assert(has_id(s, x.rec.id));
                        } else {
                            assert(has_id(s.drop_first(), s[0].rec.id));
                            let k = choose|k: int|
                                0 <= k < s.drop_first().len() && (#[trigger] s.drop_first()[k])
                                    .rec.id == s[0].rec.id;
                            assert(s[k + 1].rec.id == s[0].rec.id);
                        }
                        assert(false);
                    }
                } else {
                    assert(r[i] == ri[i - 1] && r[j] == ri[j - 1]);
                }
            }
        }
    }
}

proof fn lemma_sort_ids(s: Seq<CandV>, le: spec_fn(CandV, CandV) -> bool)
    ensures
        forall|id: u64|
            #[trigger] has_id(crate::sorting::sort_by_ins(s, le), id) <==> has_id(s, id),
        cand_ids_unique(s) ==> cand_ids_unique(crate::sorting::sort_by_ins(s, le)),
    decreases s.len(),
{
    let r = crate::sorting::sort_by_ins(s, le);
    if s.len() == 0 {
        assert forall|id: u64| !has_id(r, id) && !has_id(s, id) by {}
    } else {
        lemma_sort_ids(s.drop_last(), le);
        let pre = crate::sorting::sort_by_ins(s.drop_last(), le);
        lemma_insert_sorted_ids(s.last(), pre, le);
        assert forall|id: u64| #[trigger] has_id(s.drop_last(), id) implies has_id(s, id) by {
            let i = choose|i: int|
                0 <= i < s.drop_last().len() && (#[trigger] s.drop_last()[i]).rec.id == id;
            assert(s[i].rec.id == id);
        }
        assert forall|id: u64| #[trigger] has_id(s, id) implies (s.last().rec.id == id || has_id(
            s.drop_last(),
            id,
        )) by {
            let i = choose|i: int| 0 <= i < s.len() && (#[trigger] s[i]).rec.id == id;
            if i < s.len() - 1 {
                assert(s.drop_last()[i].rec.id == id);
            }
        }
        if cand_ids_unique(s) {
            assert(cand_ids_unique(s.drop_last()));
            assert(!has_id(s.drop_last(), s.last().rec.id)) by {
                if has_id(s.drop_last(), s.last().rec.id) {
                    let i = choose|i: int|
                        0 <= i < s.drop_last().len() && (#[trigger] s.drop_last()[i]).rec.id
                            == s.last().rec.id;
                    assert(s[i].rec.id == s[s.len() - 1].rec.id);
                    assert(false);
                }
            }
            assert(!has_id(pre, s.last().rec.id));
        }
    }
}

/// A record matched by both the lexical and the semantic pass appears
/// exactly once: one owner's search result never repeats a record id.
pub proof fn lemma_dedup(
    sv: StoreView,
    owner: Seq<char>,
    langs: Option<Seq<Seq<char>>>,
    query: Seq<char>,
    qvec: Option<Seq<i32>>,
    limit: nat,
)
    requires
        sv.owners.contains_key(owner) ==> crate::store::ids_unique(sv.owners[owner].recs),
    ensures
        ({
            let out = crate::rank::spec_search_owner(sv, owner, langs, query, qvec, limit);
            forall|i: int, j: int| 0 <= i < j < out.len() ==> out[i].id != out[j].id
        }),
{
    let pairs = crate::store::owner_cands(sv, owner, langs);
    let cands = spec_owner_cand_seq(sv, owner, langs, query, qvec);
    assert(pairs_ids_unique(pairs)) by {
        if sv.owners.contains_key(owner) {
            lemma_cand_pairs_unique(
                sv.owners[owner].recs,
                sv.owners[owner].vecs,
                langs,
                sv.owners[owner].recs.len() as int,
            );
        }
    }
    assert(cand_ids_unique(cands)) by {
        if query.len() == 0 {
            lemma_all_cands_props(pairs);
        } else {
            let qlow = crate::text::lower_of(query);
            if query.len() >= 3 && qvec is Some {
                lemma_merged_unique(pairs, qlow, qvec.unwrap());
            } else {
                lemma_lex_cands_props(pairs, qlow);
                assert(cands =~= crate::rank::lex_cands(pairs, qlow));
            }
        }
    }
    lemma_sort_ids(cands, rank_order());
    let sorted = sort_by_ins(cands, rank_order());
    let out = crate::rank::spec_search_owner(sv, owner, langs, query, qvec, limit);
    assert forall|i: int, j: int| 0 <= i < j < out.len() implies out[i].id != out[j].id by {
        assert(out[i] == sorted[i].rec && out[j] == sorted[j].rec);
    }
}

} // verus!
