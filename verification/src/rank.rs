//! The hybrid ranker: the lexical pass, the semantic pass, and their merge
//! into one ranked, deduplicated result.

use vstd::prelude::*;

verus! {

use crate::record::{RepoRecord, RecordView, rec_views};
use crate::store::{Store, StoreView, owner_cands, opt_langs};
use crate::text::{lower_of, contains_sub};
use crate::vecmath::dist2;
use crate::sorting::{sort_by_ins, lemma_insert_sorted_splice};

/// The lexical score of a record against a lowercased query: 3 when the
/// name contains it, else 2 when the full name does, else 1 when the
/// description does, else 0.
pub open spec fn lex_score(r: RecordView, qlow: Seq<char>) -> int {
    if contains_sub(lower_of(r.name), qlow) {
        3
    } else if contains_sub(lower_of(r.full_name), qlow) {
        2
    } else if match r.description {
        Some(d) => contains_sub(lower_of(d), qlow),
        None => false,
    } {
        1
    } else {
        0
    }
}

/// One ranked candidate: which pass produced it, how strongly (a lexical
/// score, or a semantic distance), and the record itself.
pub struct Cand {
    pub sem: bool,
    pub strength: u128,
    pub rec: RepoRecord,
}

/// The mathematical value of a candidate.
pub ghost struct CandV {
    pub sem: bool,
    pub strength: u128,
    pub rec: RecordView,
}

impl View for Cand {
    type V = CandV;

    open spec fn view(&self) -> CandV {
        CandV { sem: self.sem, strength: self.strength, rec: self.rec@ }
    }
}

/// The views of a sequence of candidates, element by element.
pub open spec fn cand_views(s: Seq<Cand>) -> Seq<CandV> {
    s.map_values(|c: Cand| c@)
}

/// The rank order of the merged result: lexical candidates before semantic
/// ones; within the lexical group higher scores first, within the semantic
/// group smaller distances first; ties broken by descending star count,
/// then by ascending id.
pub open spec fn rank_le(a: CandV, b: CandV) -> bool {
    if a.sem != b.sem {
        !a.sem
    } else if a.strength != b.strength {
        if a.sem {
            a.strength < b.strength
        } else {
            a.strength > b.strength
        }
    } else if a.rec.stars != b.rec.stars {
        a.rec.stars > b.rec.stars
    } else {
        a.rec.id <= b.rec.id
    }
}

/// The rank order as a function value.
pub open spec fn rank_order() -> spec_fn(CandV, CandV) -> bool {
    |a: CandV, b: CandV| rank_le(a, b)
}

fn rank_le_exec(a: &Cand, b: &Cand) -> (r: bool)
    ensures
        r == rank_le(a@, b@),
{
    if a.sem != b.sem {
        !a.sem
    } else if a.strength != b.strength {
        if a.sem {
            a.strength < b.strength
        } else {
            a.strength > b.strength
        }
    } else if a.rec.stars != b.rec.stars {
        a.rec.stars > b.rec.stars
    } else {
        a.rec.id <= b.rec.id
    }
}

/// Every candidate of the empty query: each filtered record, all in one
/// group with one strength, so that the rank order reduces to descending
/// stars.
pub open spec fn all_cands(pairs: Seq<(RecordView, Seq<i32>)>) -> Seq<CandV>
    decreases pairs.len(),
{
    if pairs.len() == 0 {
        Seq::empty()
    } else {
        all_cands(pairs.drop_last()).push(
            CandV { sem: false, strength: 0, rec: pairs.last().0 },
        )
    }
}

/// The lexical pass: each filtered record whose score is positive, with its
/// score as strength.
pub open spec fn lex_cands(pairs: Seq<(RecordView, Seq<i32>)>, qlow: Seq<char>) -> Seq<CandV>
    decreases pairs.len(),
{
    if pairs.len() == 0 {
        Seq::empty()
    } else {
        let rest = lex_cands(pairs.drop_last(), qlow);
        let r = pairs.last().0;
        if lex_score(r, qlow) > 0 {
            rest.push(CandV { sem: false, strength: lex_score(r, qlow) as u128, rec: r })
        } else {
            rest
        }
    }
}

/// The semantic pass: each filtered record the lexical pass did not take,
/// with its squared distance to the query vector as strength. Leaving the
/// lexical hits out is what makes the merge first-occurrence-wins.
pub open spec fn sem_cands(
    pairs: Seq<(RecordView, Seq<i32>)>,
    qlow: Seq<char>,
    q: Seq<i32>,
) -> Seq<CandV>
    decreases pairs.len(),
{
    if pairs.len() == 0 {
        Seq::empty()
    } else {
        let rest = sem_cands(pairs.drop_last(), qlow, q);
        let (r, v) = pairs.last();
        if lex_score(r, qlow) == 0 {
            rest.push(CandV { sem: true, strength: dist2(v, q) as u128, rec: r })
        } else {
            rest
        }
    }
}

/// The records of a ranked candidate sequence, in order.
pub open spec fn recs_of(s: Seq<CandV>) -> Seq<RecordView> {
    s.map_values(|c: CandV| c.rec)
}

/// The merged candidates of one owner's search, before ranking: for an
/// empty query every filtered record; otherwise the lexical pass, followed
/// by the semantic pass when the query has at least three characters and a
/// query vector is at hand.
pub open spec fn spec_owner_cand_seq(
    sv: StoreView,
    owner: Seq<char>,
    langs: Option<Seq<Seq<char>>>,
    query: Seq<char>,
    qvec: Option<Seq<i32>>,
) -> Seq<CandV> {
    let pairs = owner_cands(sv, owner, langs);
    if query.len() == 0 {
        all_cands(pairs)
    } else {
        lex_cands(pairs, lower_of(query)) + (if query.len() >= 3 && qvec is Some {
            sem_cands(pairs, lower_of(query), qvec.unwrap())
        } else {
            Seq::empty()
        })
    }
}

/// One owner's search result: the merged candidates in rank order, cut to
/// `limit`.
pub open spec fn spec_search_owner(
    sv: StoreView,
    owner: Seq<char>,
    langs: Option<Seq<Seq<char>>>,
    query: Seq<char>,
    qvec: Option<Seq<i32>>,
    limit: nat,
) -> Seq<RecordView> {
    let sorted = sort_by_ins(spec_owner_cand_seq(sv, owner, langs, query, qvec), rank_order());
    let out = recs_of(sorted);
    if limit <= out.len() {
        out.take(limit as int)
    } else {
        out
    }
}

/// The query vector a caller hands in, as a mathematical value.
pub open spec fn opt_vec(v: Option<Vec<i32>>) -> Option<Seq<i32>> {
    match v {
        Some(q) => Some(q@),
        None => None,
    }
}

fn lex_score_exec(rec: &RepoRecord, qlow: &Vec<char>) -> (s: u8)
    ensures
        s as int == lex_score(rec@, qlow@),
{
    let nl = crate::text::lowercase(rec.name.as_str());
    let nv = crate::text::chars_vec(nl.as_str());
    if crate::text::contains_chars(&nv, qlow) {
        return 3;
    }
    let fl = crate::text::lowercase(rec.full_name.as_str());
    let fv = crate::text::chars_vec(fl.as_str());
    if crate::text::contains_chars(&fv, qlow) {
        return 2;
    }
    match &rec.description {
        Some(d) => {
            let dl = crate::text::lowercase(d.as_str());
            let dv = crate::text::chars_vec(dl.as_str());
            if crate::text::contains_chars(&dv, qlow) {
                1
            } else {
                0
            }
        },
        None => 0,
    }
}

fn sort_cands(v: Vec<Cand>) -> (r: Vec<Cand>)
    ensures
        cand_views(r@) == sort_by_ins(cand_views(v@), rank_order()),
{
    let n = v.len();
    let mut out: Vec<Cand> = Vec::new();
    let mut i: usize = 0;
    proof {
        assert(cand_views(v@.take(0)) =~= Seq::<CandV>::empty());
        assert(cand_views(out@) =~= sort_by_ins(cand_views(v@.take(0)), rank_order()));
    }
    while i < n
        invariant
            n == v@.len(),
            i <= n,
            cand_views(out@) == sort_by_ins(cand_views(v@.take(i as int)), rank_order()),
        decreases n - i,
    {
        let x = dup_cand(&v[i]);
        let m = out.len();
        let mut j: usize = 0;
        while j < m && !rank_le_exec(&x, &out[j])
            invariant
                m == out@.len(),
                j <= m,
                x@ == v@[i as int]@,
                i < n == v@.len(),
                forall|t: int| 0 <= t < j ==> !rank_le(x@, (#[trigger] out@[t])@),
            decreases m - j,
        {
            j = j + 1;
        }
        let ghost before = cand_views(out@);
        out.insert(j, x);
        proof {
            assert forall|t: int| 0 <= t < j implies !(rank_order()(x@, before[t])) by {
                assert(before[t] == out@.insert(j as int, x)[t]@);
                assert(rank_order()(x@, before[t]) == rank_le(x@, before[t]));
            }
            if (j as int) < before.len() {
                assert(rank_order()(x@, before[j as int]));
            }
            lemma_insert_sorted_splice(x@, before, rank_order(), j as int);
            assert(cand_views(out@) =~= before.insert(j as int, x@));
            assert(cand_views(v@.take(i + 1)).drop_last() =~= cand_views(v@.take(i as int)));
            assert(cand_views(v@.take(i + 1)).last() == x@);
        }
        i = i + 1;
    }
    proof {
        assert(cand_views(v@.take(n as int)) =~= cand_views(v@));
    }
    out
}

fn dup_cand(c: &Cand) -> (r: Cand)
    ensures
        r@ == c@,
{
    Cand { sem: c.sem, strength: c.strength, rec: c.rec.dup() }
}

/// Searches one owner's cached records: for an empty query the filtered
/// records by descending stars; otherwise the lexical pass merged with the
/// semantic pass (taken only for queries of three or more characters with a
/// query vector at hand), ranked and cut to `limit`.
pub fn search_owner(
    store: &Store,
    owner: &str,
    languages: &Option<Vec<String>>,
    query: &str,
    query_vec: &Option<Vec<i32>>,
    limit: usize,
) -> (r: Vec<RepoRecord>)
    requires
        store.wf(),
        *query_vec matches Some(v) ==> v@.len() == store@.dim,
    ensures
        rec_views(r@) == spec_search_owner(
            store@,
            owner@,
            opt_langs(*languages),
            query@,
            opt_vec(*query_vec),
            limit as nat,
        ),
{
    let ghost langs = opt_langs(*languages);
    let ghost pairs = owner_cands(store@, owner@, langs);
    let (recs, vecs) = store.owner_candidates(owner, languages);
    let nc = recs.len();
    let qlen = query.unicode_len();
    let mut cands: Vec<Cand> = Vec::new();
    if qlen == 0 {
        let mut t: usize = 0;
        proof {
            assert(cand_views(cands@) =~= all_cands(pairs.take(0)));
        }
        while t < nc
            invariant
                t <= nc,
                nc == recs@.len(),
                nc <= pairs.len(),
                pairs.len() == recs@.len(),
                forall|i: int|
                    0 <= i < pairs.len() ==> rec_views(recs@)[i] == (#[trigger] pairs[i]).0,
                cand_views(cands@) == all_cands(pairs.take(t as int)),
            decreases nc - t,
        {
            cands.push(Cand { sem: false, strength: 0, rec: recs[t].dup() });
            proof {
                assert(pairs.take(t + 1).drop_last() =~= pairs.take(t as int));
                assert(pairs.take(t + 1).last() == pairs[t as int]);
                assert(pairs[t as int].0 == recs@[t as int]@);
                assert(cand_views(cands@) =~= all_cands(pairs.take(t + 1)));
            }
            t = t + 1;
        }
        proof {
            assert(pairs.take(nc as int) =~= pairs);
        }
    } else {
        let qlow_str = crate::text::lowercase(query);
        let qlow = crate::text::chars_vec(qlow_str.as_str());
        let mut t: usize = 0;
        proof {
            assert(cand_views(cands@) =~= lex_cands(pairs.take(0), qlow@));
        }
        while t < nc
            invariant
                t <= nc,
                nc == recs@.len(),
                pairs.len() == recs@.len(),
                qlow@ == lower_of(query@),
                forall|i: int|
                    0 <= i < pairs.len() ==> rec_views(recs@)[i] == (#[trigger] pairs[i]).0,
                cand_views(cands@) == lex_cands(pairs.take(t as int), qlow@),
            decreases nc - t,
        {
            let s = lex_score_exec(&recs[t], &qlow);
            proof {
                assert(pairs.take(t + 1).drop_last() =~= pairs.take(t as int));
                assert(pairs.take(t + 1).last() == pairs[t as int]);
                assert(pairs[t as int].0 == recs@[t as int]@);
            }
            if s > 0 {
                cands.push(Cand { sem: false, strength: s as u128, rec: recs[t].dup() });
                proof {
                    assert(cand_views(cands@) =~= lex_cands(pairs.take(t + 1), qlow@));
                }
            } else {
                proof {
                    assert(cand_views(cands@) =~= lex_cands(pairs.take(t + 1), qlow@));
                }
            }
            t = t + 1;
        }
        proof {
            assert(pairs.take(nc as int) =~= pairs);
        }
        if qlen >= 3 {
            match query_vec {
                Some(qv) => {
                    let ghost lexpart = cand_views(cands@);
                    let mut u: usize = 0;
                    proof {
                        assert(sem_cands(pairs.take(0), qlow@, qv@) =~= Seq::<CandV>::empty());
                        assert(cand_views(cands@) =~= lexpart + sem_cands(
                            pairs.take(0),
                            qlow@,
                            qv@,
                        ));
                    }
                    while u < nc
                        invariant
                            u <= nc,
                            nc == recs@.len(),
                            nc == vecs@.len(),
                            pairs.len() == recs@.len(),
                            qlow@ == lower_of(query@),
                            qv@.len() == store@.dim,
                            forall|i: int|
                                0 <= i < pairs.len() ==> rec_views(recs@)[i] == (
                                #[trigger] pairs[i]).0 && crate::store::vec_views(vecs@)[i]
                                    == pairs[i].1,
                            forall|i: int|
                                0 <= i < pairs.len() ==> (#[trigger] pairs[i]).1.len()
                                    == store@.dim,
                            lexpart == lex_cands(pairs, qlow@),
                            cand_views(cands@) == lexpart + sem_cands(
                                pairs.take(u as int),
                                qlow@,
                                qv@,
                            ),
                        decreases nc - u,
                    {
                        let s = lex_score_exec(&recs[u], &qlow);
                        proof {
                            assert(pairs.take(u + 1).drop_last() =~= pairs.take(u as int));
                            assert(pairs.take(u + 1).last() == pairs[u as int]);
                            assert(pairs[u as int].0 == recs@[u as int]@);
                            assert(pairs[u as int].1 == vecs@[u as int]@);
                        }
                        if s == 0 {
                            let d = crate::vecmath::squared_l2(&vecs[u], qv);
                            let ghost pre = cands@;
                            cands.push(
                                Cand { sem: true, strength: d, rec: recs[u].dup() },
                            );
                            proof {
                                assert(cands@ == pre.push(cands@.last()));
                                assert(cand_views(cands@) =~= cand_views(pre).push(
                                    cands@.last()@,
                                ));
                                assert(cands@.last()@ == (CandV {
                                    sem: true,
                                    strength: d,
                                    rec: pairs[u as int].0,
                                }));
                                assert(dist2(pairs[u as int].1, qv@) == d);
                                assert(dist2(pairs[u as int].1, qv@) as u128 == d);
                                assert(lex_score(pairs[u as int].0, qlow@) == 0);
                                assert(sem_cands(pairs.take(u + 1), qlow@, qv@) == sem_cands(
                                    pairs.take(u as int),
                                    qlow@,
                                    qv@,
                                ).push(
                                    CandV { sem: true, strength: d, rec: pairs[u as int].0 },
                                ));
                                assert(cand_views(cands@) =~= lexpart + sem_cands(
                                    pairs.take(u + 1),
                                    qlow@,
                                    qv@,
                                ));
                            }
                        } else {
                            proof {
                                assert(cand_views(cands@) =~= lexpart + sem_cands(
                                    pairs.take(u + 1),
                                    qlow@,
                                    qv@,
                                ));
                            }
                        }
                        u = u + 1;
                    }
                    proof {
                        assert(pairs.take(nc as int) =~= pairs);
                    }
                },
                None => {
                    proof {
                        assert(cand_views(cands@) =~= spec_owner_cand_seq(
                            store@,
                            owner@,
                            langs,
                            query@,
                            opt_vec(*query_vec),
                        ));
                    }
                },
            }
        }
    }
    proof {
        assert(cand_views(cands@) =~= spec_owner_cand_seq(
            store@,
            owner@,
            langs,
            query@,
            opt_vec(*query_vec),
        ));
    }
    let sorted = sort_cands(cands);
    let total = sorted.len();
    let cut = if limit <= total {
        limit
    } else {
        total
    };
    let mut out: Vec<RepoRecord> = Vec::new();
    let mut w: usize = 0;
    while w < cut
        invariant
            w <= cut <= sorted@.len(),
            cut == if limit <= sorted@.len() {
                limit as int
            } else {
                sorted@.len() as int
            },
            out@.len() == w,
            forall|i: int| 0 <= i < w ==> rec_views(out@)[i] == (#[trigger] sorted@[i])@.rec,
        decreases cut - w,
    {
        out.push(sorted[w].rec.dup());
        w = w + 1;
    }
    proof {
        let sortedv = sort_by_ins(
            spec_owner_cand_seq(store@, owner@, langs, query@, opt_vec(*query_vec)),
            rank_order(),
        );
        assert(cand_views(sorted@) == sortedv);
        assert forall|i: int| 0 <= i < out@.len() implies rec_views(out@)[i] == recs_of(
            sortedv,
        )[i] by {
            assert(rec_views(out@)[i] == sorted@[i]@.rec);
            assert(cand_views(sorted@)[i] == sorted@[i]@);
        }
        assert(rec_views(out@) =~= spec_search_owner(
            store@,
            owner@,
            langs,
            query@,
            opt_vec(*query_vec),
            limit as nat,
        ));
    }
    out
}

/// One result of a per-owner search, tagged for the cross-owner merge with
/// its star count, the position of its owner in the query, and its position
/// in that owner's result.
pub struct MCand {
    pub stars: u64,
    pub oidx: usize,
    pub pos: usize,
    pub rec: RepoRecord,
}

/// The mathematical value of a tagged result.
pub ghost struct MCandV {
    pub stars: u64,
    pub oidx: int,
    pub pos: int,
    pub rec: RecordView,
}

impl View for MCand {
    type V = MCandV;

    open spec fn view(&self) -> MCandV {
        MCandV { stars: self.stars, oidx: self.oidx as int, pos: self.pos as int, rec: self.rec@ }
    }
}

/// The views of a sequence of tagged results, element by element.
pub open spec fn mcand_views(s: Seq<MCand>) -> Seq<MCandV> {
    s.map_values(|c: MCand| c@)
}

/// The cross-owner merge order: descending star count, ties broken by the
/// order the owners were named and then by each owner's own ranking.
pub open spec fn merge_le(a: MCandV, b: MCandV) -> bool {
    if a.stars != b.stars {
        a.stars > b.stars
    } else if a.oidx != b.oidx {
        a.oidx < b.oidx
    } else {
        a.pos <= b.pos
    }
}

/// The merge order as a function value.
pub open spec fn merge_order() -> spec_fn(MCandV, MCandV) -> bool {
    |a: MCandV, b: MCandV| merge_le(a, b)
}

fn merge_le_exec(a: &MCand, b: &MCand) -> (r: bool)
    ensures
        r == merge_le(a@, b@),
{
    if a.stars != b.stars {
        a.stars > b.stars
    } else if a.oidx != b.oidx {
        a.oidx < b.oidx
    } else {
        a.pos <= b.pos
    }
}

/// One owner's ranked result, tagged for the merge.
pub open spec fn tag_owner(per: Seq<RecordView>, oidx: int) -> Seq<MCandV> {
    Seq::new(
        per.len(),
        |j: int| MCandV { stars: per[j].stars, oidx: oidx, pos: j, rec: per[j] },
    )
}

/// Every named owner's ranked result, tagged and concatenated in the order
/// the owners were named.
pub open spec fn tag_all(
    sv: StoreView,
    owners: Seq<Seq<char>>,
    langs: Option<Seq<Seq<char>>>,
    query: Seq<char>,
    qvec: Option<Seq<i32>>,
    limit: nat,
) -> Seq<MCandV>
    decreases owners.len(),
{
    if owners.len() == 0 {
        Seq::empty()
    } else {
        tag_all(sv, owners.drop_last(), langs, query, qvec, limit) + tag_owner(
            spec_search_owner(sv, owners.last(), langs, query, qvec, limit),
            owners.len() - 1,
        )
    }
}

/// The records of a tagged sequence, in order.
pub open spec fn mrecs_of(s: Seq<MCandV>) -> Seq<RecordView> {
    s.map_values(|c: MCandV| c.rec)
}

/// The whole search: each named owner searched on its own to `limit`, the
/// results merged by descending star count, cut to the same `limit`.
pub open spec fn spec_search(
    sv: StoreView,
    owners: Seq<Seq<char>>,
    langs: Option<Seq<Seq<char>>>,
    query: Seq<char>,
    qvec: Option<Seq<i32>>,
    limit: nat,
) -> Seq<RecordView> {
    let sorted = sort_by_ins(tag_all(sv, owners, langs, query, qvec, limit), merge_order());
    let out = mrecs_of(sorted);
    if limit <= out.len() {
        out.take(limit as int)
    } else {
        out
    }
}

fn dup_mcand(c: &MCand) -> (r: MCand)
    ensures
        r@ == c@,
{
    MCand { stars: c.stars, oidx: c.oidx, pos: c.pos, rec: c.rec.dup() }
}

fn sort_mcands(v: Vec<MCand>) -> (r: Vec<MCand>)
    ensures
        mcand_views(r@) == sort_by_ins(mcand_views(v@), merge_order()),
{
    let n = v.len();
    let mut out: Vec<MCand> = Vec::new();
    let mut i: usize = 0;
    proof {
        assert(mcand_views(v@.take(0)) =~= Seq::<MCandV>::empty());
        assert(mcand_views(out@) =~= sort_by_ins(mcand_views(v@.take(0)), merge_order()));
    }
    while i < n
        invariant
            n == v@.len(),
            i <= n,
            mcand_views(out@) == sort_by_ins(mcand_views(v@.take(i as int)), merge_order()),
        decreases n - i,
    {
        let x = dup_mcand(&v[i]);
        let m = out.len();
        let mut j: usize = 0;
        while j < m && !merge_le_exec(&x, &out[j])
            invariant
                m == out@.len(),
                j <= m,
                x@ == v@[i as int]@,
                i < n == v@.len(),
                forall|t: int| 0 <= t < j ==> !merge_le(x@, (#[trigger] out@[t])@),
            decreases m - j,
        {
            j = j + 1;
        }
        let ghost before = mcand_views(out@);
        out.insert(j, x);
        proof {
            assert forall|t: int| 0 <= t < j implies !(merge_order()(x@, before[t])) by {
                assert(before[t] == out@.insert(j as int, x)[t]@);
                assert(merge_order()(x@, before[t]) == merge_le(x@, before[t]));
            }
            if (j as int) < before.len() {
                assert(merge_order()(x@, before[j as int]));
            }
            lemma_insert_sorted_splice(x@, before, merge_order(), j as int);
            assert(mcand_views(out@) =~= before.insert(j as int, x@));
            assert(mcand_views(v@.take(i + 1)).drop_last() =~= mcand_views(v@.take(i as int)));
            assert(mcand_views(v@.take(i + 1)).last() == x@);
        }
        i = i + 1;
    }
    proof {
        assert(mcand_views(v@.take(n as int)) =~= mcand_views(v@));
    }
    out
}

/// Searches the named owners' cached records: each owner searched on its
/// own (lexical pass before semantic pass, deduplicated, ranked, cut to
/// `limit`), then all results merged by descending star count and cut to
/// the same `limit`.
pub fn search(
    store: &Store,
    usernames: &Vec<String>,
    languages: &Option<Vec<String>>,
    query: &str,
    query_vec: &Option<Vec<i32>>,
    limit: usize,
) -> (r: Vec<RepoRecord>)
    requires
        store.wf(),
        *query_vec matches Some(v) ==> v@.len() == store@.dim,
    ensures
        rec_views(r@) == spec_search(
            store@,
            crate::text::str_views(usernames@),
            opt_langs(*languages),
            query@,
            opt_vec(*query_vec),
            limit as nat,
        ),
{
    let ghost names = crate::text::str_views(usernames@);
    let ghost langs = opt_langs(*languages);
    let ghost qv = opt_vec(*query_vec);
    let m = usernames.len();
    let mut tagged: Vec<MCand> = Vec::new();
    let mut oi: usize = 0;
    proof {
        assert(names.take(0) =~= Seq::<Seq<char>>::empty());
        assert(mcand_views(tagged@) =~= tag_all(store@, names.take(0), langs, query@, qv, limit as nat));
    }
    while oi < m
        invariant
            store.wf(),
            *query_vec matches Some(v) ==> v@.len() == store@.dim,
            m == usernames@.len(),
            oi <= m,
            names == crate::text::str_views(usernames@),
            langs == opt_langs(*languages),
            qv == opt_vec(*query_vec),
            mcand_views(tagged@) == tag_all(
                store@,
                names.take(oi as int),
                langs,
                query@,
                qv,
                limit as nat,
            ),
        decreases m - oi,
    {
        let per = search_owner(
            store,
            usernames[oi].as_str(),
            languages,
            query,
            query_vec,
            limit,
        );
        let ghost pviews = rec_views(per@);
        let ghost half = tag_all(store@, names.take(oi as int), langs, query@, qv, limit as nat);
        let np = per.len();
        let mut j: usize = 0;
        proof {
            assert(tag_owner(pviews, oi as int).take(0) =~= Seq::<MCandV>::empty());
            assert(mcand_views(tagged@) =~= half + tag_owner(pviews, oi as int).take(0));
        }
        while j < np
            invariant
                np == per@.len(),
                j <= np,
                pviews == rec_views(per@),
                mcand_views(tagged@) == half + tag_owner(pviews, oi as int).take(j as int),
            decreases np - j,
        {
            let stars = per[j].stars;
            let ghost pre = tagged@;
            tagged.push(MCand { stars, oidx: oi, pos: j, rec: per[j].dup() });
            proof {
                assert(tagged@ == pre.push(tagged@.last()));
                assert(mcand_views(tagged@) =~= mcand_views(pre).push(tagged@.last()@));
                assert(tagged@.last()@ == tag_owner(pviews, oi as int)[j as int]);
                assert(tag_owner(pviews, oi as int).take(j + 1) =~= tag_owner(
                    pviews,
                    oi as int,
                ).take(j as int).push(tag_owner(pviews, oi as int)[j as int]));
                assert(mcand_views(tagged@) =~= half + tag_owner(pviews, oi as int).take(
                    j + 1,
                ));
            }
            j = j + 1;
        }
        proof {
            assert(tag_owner(pviews, oi as int).take(np as int) =~= tag_owner(
                pviews,
                oi as int,
            ));
            assert(names.take(oi + 1).drop_last() =~= names.take(oi as int));
            assert(names.take(oi + 1).last() == names[oi as int]);
            assert(pviews == spec_search_owner(
                store@,
                names[oi as int],
                langs,
                query@,
                qv,
                limit as nat,
            ));
            assert(mcand_views(tagged@) =~= tag_all(
                store@,
                names.take(oi + 1),
                langs,
                query@,
                qv,
                limit as nat,
            ));
        }
        oi = oi + 1;
    }
    proof {
        assert(names.take(m as int) =~= names);
    }
    let sorted = sort_mcands(tagged);
    let total = sorted.len();
    let cut = if limit <= total {
        limit
    } else {
        total
    };
    let mut out: Vec<RepoRecord> = Vec::new();
    let mut w: usize = 0;
    while w < cut
        invariant
            w <= cut <= sorted@.len(),
            cut == if limit <= sorted@.len() {
                limit as int
            } else {
                sorted@.len() as int
            },
            out@.len() == w,
            forall|i: int| 0 <= i < w ==> rec_views(out@)[i] == (#[trigger] sorted@[i])@.rec,
        decreases cut - w,
    {
        out.push(sorted[w].rec.dup());
        w = w + 1;
    }
    proof {
        let sortedv = sort_by_ins(
            tag_all(store@, names, langs, query@, qv, limit as nat),
            merge_order(),
        );
        assert(mcand_views(sorted@) == sortedv);
        assert forall|i: int| 0 <= i < out@.len() implies rec_views(out@)[i] == mrecs_of(
            sortedv,
        )[i] by {
            assert(rec_views(out@)[i] == sorted@[i]@.rec);
            assert(mcand_views(sorted@)[i] == sorted@[i]@);
        }
        assert(rec_views(out@) =~= spec_search(
            store@,
            names,
            langs,
            query@,
            qv,
            limit as nat,
        ));
    }
    out
}

/// Lists the named owners' cached records by descending star count, cut to
/// `limit`: the search of the empty query with no language filter.
pub fn list(store: &Store, usernames: &Vec<String>, limit: usize) -> (r: Vec<RepoRecord>)
    requires
        store.wf(),
    ensures
        rec_views(r@) == spec_search(
            store@,
            crate::text::str_views(usernames@),
            None,
            Seq::<char>::empty(),
            None,
            limit as nat,
        ),
{
    let empty_query = "";
    proof {
        reveal_strlit("");
        assert(empty_query@ =~= Seq::<char>::empty());
    }
    search(store, usernames, &None, empty_query, &None, limit)
}

} // verus!
