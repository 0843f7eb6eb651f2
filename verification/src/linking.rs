//! Use cases on product matching: which comparisons still need a score,
//! and which provider products get linked to which canonical products.

use vstd::prelude::*;

use crate::matching::{
    assign_group, assigned, cand_view, cand_views, CandidateView, MatchCandidate, MIN_SCORE,
};
use crate::model::{MatchInsert, ProductRow, ProviderProductRow};
use crate::text::lemma_filter_push;

verus! {

/// Outcome of one match-products run.
pub struct MatchSummary {
    /// New comparisons scored and stored during the backfill.
    pub computed: usize,
    /// Comparisons already present from a previous run (skipped).
    pub already_stored: usize,
    /// Provider products considered for linking.
    pub provider_products: usize,
    /// Provider products linked to a canonical product.
    pub matched: usize,
}

/// Outcome of one link-matches run (no backfill).
pub struct LinkSummary {
    /// Provider products considered for linking.
    pub provider_products: usize,
    /// Provider products linked to a canonical product.
    pub matched: usize,
}

/// The provider of the last provider product with id `id`.
pub open spec fn provider_of(pps: Seq<ProviderProductRow>, id: Seq<char>) -> Option<Seq<char>>
    decreases pps.len(),
{
    if pps.len() == 0 {
        None
    } else if pps.last().id@ == id {
        Some(pps.last().provider_id@)
    } else {
        provider_of(pps.drop_last(), id)
    }
}

/// Index of the group of provider `p` in `gs`, or -1.
pub open spec fn group_index(gs: Seq<(Seq<char>, Seq<CandidateView>)>, p: Seq<char>) -> int
    decreases gs.len(),
{
    if gs.len() == 0 {
        -1
    } else if gs.last().0 == p {
        gs.len() - 1
    } else {
        group_index(gs.drop_last(), p)
    }
}

/// The candidates grouped by the provider of their provider product, groups
/// in order of first appearance, candidates in their order. Candidates
/// whose provider product is unknown are left out.
pub open spec fn groups(cands: Seq<CandidateView>, pps: Seq<ProviderProductRow>) -> Seq<
    (Seq<char>, Seq<CandidateView>),
>
    decreases cands.len(),
{
    if cands.len() == 0 {
        seq![]
    } else {
        let gs = groups(cands.drop_last(), pps);
        let c = cands.last();
        match provider_of(pps, c.0) {
            None => gs,
            Some(p) => {
                let i = group_index(gs, p);
                if i >= 0 {
                    gs.update(i, (p, gs[i].1.push(c)))
                } else {
                    gs.push((p, seq![c]))
                }
            },
        }
    }
}

/// The winners of every group, group after group.
pub open spec fn winners_of(gs: Seq<(Seq<char>, Seq<CandidateView>)>) -> Seq<CandidateView>
    decreases gs.len(),
{
    if gs.len() == 0 {
        seq![]
    } else {
        winners_of(gs.drop_last()) + assigned(gs.last().1)
    }
}

/// The links made from `cands`: per provider, the greedy assignment.
pub open spec fn links(cands: Seq<CandidateView>, pps: Seq<ProviderProductRow>) -> Seq<CandidateView> {
    winners_of(groups(cands, pps))
}

fn str_eq(a: &String, b: &String) -> (r: bool)
    ensures
        r == (a@ == b@),
{
    *a == *b
}

fn find_provider(pps: &Vec<ProviderProductRow>, id: &String) -> (r: Option<String>)
    ensures
        crate::model::opt_view(r) == provider_of(pps@, id@),
{
    let mut k = pps.len();
    assert(pps@.take(k as int) =~= pps@);
    while k > 0
        invariant
            k <= pps@.len(),
            provider_of(pps@, id@) == provider_of(pps@.take(k as int), id@),
        decreases k,
    {
        assert(pps@.take(k as int).drop_last() =~= pps@.take(k - 1));
        assert(pps@.take(k as int).last() == pps@[k - 1]);
        if str_eq(&pps[k - 1].id, id) {
            return Some(pps[k - 1].provider_id.clone());
        }
        k = k - 1;
    }
    None
}

pub open spec fn group_views(gs: Seq<(String, Vec<MatchCandidate>)>) -> Seq<
    (Seq<char>, Seq<CandidateView>),
> {
    gs.map_values(|g: (String, Vec<MatchCandidate>)| (g.0@, cand_views(g.1@)))
}

fn group_by_provider(candidates: &Vec<MatchCandidate>, pps: &Vec<ProviderProductRow>) -> (r: Vec<
    (String, Vec<MatchCandidate>),
>)
    ensures
        group_views(r@) == groups(cand_views(candidates@), pps@),
{
    let ghost cv = cand_views(candidates@);
    let mut gs: Vec<(String, Vec<MatchCandidate>)> = Vec::new();
    for k in 0..candidates.len()
        invariant
            cv == cand_views(candidates@),
            group_views(gs@) == groups(cv.take(k as int), pps@),
    {
        let c = &candidates[k];
        assert(cv.take(k + 1).drop_last() =~= cv.take(k as int));
        assert(cv.take(k + 1).last() == cand_view(*c));
        match find_provider(pps, &c.provider_product_id) {
            None => {},
            Some(p) => {
                let ghost gv = group_views(gs@);
                let mut i = gs.len();
                assert(gv.take(i as int) =~= gv);
                while i > 0 && !str_eq(&gs[i - 1].0, &p)
                    invariant
                        i <= gs@.len(),
                        gv == group_views(gs@),
                        group_index(gv, p@) == group_index(gv.take(i as int), p@),
                    decreases i,
                {
                    assert(gv.take(i as int).drop_last() =~= gv.take(i - 1));
                    assert(gv.take(i as int).last() == gv[i - 1]);
                    i = i - 1;
                }
                if i > 0 {
                    assert(gv.take(i as int).last() == gv[i - 1]);
                    let ghost old_g = gs@;
                    let mut entry = gs.remove(i - 1);
                    let d = c.duplicate();
                    let ghost old_v = cand_views(entry.1@);
                    entry.1.push(d);
                    assert(cand_views(entry.1@) =~= old_v.push(cand_view(*c)));
                    gs.insert(i - 1, entry);
                    assert(group_views(gs@) =~= gv.update(i - 1, (p@, gv[i - 1].1.push(cand_view(*c)))));
                } else {
                    let mut v: Vec<MatchCandidate> = Vec::new();
                    v.push(c.duplicate());
                    assert(cand_views(v@) =~= seq![cand_view(*c)]);
                    let ghost old_g = gs@;
                    gs.push((p, v));
                    assert(group_views(gs@) =~= gv.push((p@, seq![cand_view(*c)])));
                }
            },
        }
    }
    assert(cv.take(candidates.len() as int) =~= cv);
    gs
}

/// The links made from `candidates` (see [`links`]).
fn link_winners(candidates: &Vec<MatchCandidate>, pps: &Vec<ProviderProductRow>) -> (r: Vec<
    MatchCandidate,
>)
    ensures
        cand_views(r@) == links(cand_views(candidates@), pps@),
{
    let gs = group_by_provider(candidates, pps);
    let ghost gv = group_views(gs@);
    let mut out: Vec<MatchCandidate> = Vec::new();
    for i in 0..gs.len()
        invariant
            gv == group_views(gs@),
            cand_views(out@) == winners_of(gv.take(i as int)),
    {
        assert(gv.take(i + 1).drop_last() =~= gv.take(i as int));
        assert(gv.take(i + 1).last().1 == cand_views(gs@[i as int].1@));
        let ws = assign_group(&gs[i].1);
        let ghost o = cand_views(out@);
        for j in 0..ws.len()
            invariant
                cand_views(out@) == o + cand_views(ws@).take(j as int),
        {
            let ghost before = cand_views(out@);
            let d = ws[j].duplicate();
            out.push(d);
            assert(cand_views(out@) =~= before.push(cand_view(d)));
            assert(cand_views(ws@)[j as int] == cand_view(ws@[j as int]));
            assert(cand_views(out@) =~= o + cand_views(ws@).take(j + 1));
        }
        assert(cand_views(ws@).take(ws.len() as int) =~= cand_views(ws@));
    }
    assert(gv.take(gs.len() as int) =~= gv);
    out
}

/// Re-links provider products from already-stored comparisons: the
/// candidates are grouped by the provider of their provider product
/// (candidates of unknown provider products are dropped) and each group is
/// assigned greedily. Returns the counts and the winners to link, group
/// after group in order of first appearance.
pub fn link_matches(
    provider_products: &Vec<ProviderProductRow>,
    candidates: &Vec<MatchCandidate>,
) -> (r: (LinkSummary, Vec<MatchCandidate>))
    ensures
        cand_views(r.1@) == links(cand_views(candidates@), provider_products@),
        r.0.matched == r.1@.len(),
        r.0.provider_products == provider_products@.len(),
{
    let winners = link_winners(candidates, provider_products);
    (LinkSummary { provider_products: provider_products.len(), matched: winners.len() }, winners)
}

/// Whether a stored comparison qualifies as a linking candidate.
pub open spec fn above_threshold(c: CandidateView) -> bool {
    c.2 >= MIN_SCORE
}

/// Every (provider product, canonical product) pair, provider product by
/// provider product.
pub open spec fn all_pairs(pps: Seq<ProviderProductRow>, products: Seq<ProductRow>) -> Seq<
    (Seq<char>, Seq<char>),
>
    decreases pps.len(),
{
    if pps.len() == 0 {
        seq![]
    } else {
        all_pairs(pps.drop_last(), products) + products.map_values(
            |p: ProductRow| (pps.last().id@, p.id@),
        )
    }
}

/// The pairs of `pairs` that still need a score, given those already
/// stored: the first occurrence of each pair that is not stored.
pub open spec fn pending_pairs(
    pairs: Seq<(Seq<char>, Seq<char>)>,
    stored: Seq<(Seq<char>, Seq<char>)>,
) -> Seq<(Seq<char>, Seq<char>)>
    decreases pairs.len(),
{
    if pairs.len() == 0 {
        seq![]
    } else {
        let prev = pending_pairs(pairs.drop_last(), stored);
        let x = pairs.last();
        if stored.contains(x) || prev.contains(x) {
            prev
        } else {
            prev.push(x)
        }
    }
}

pub open spec fn stored_pairs(stored: Seq<CandidateView>) -> Seq<(Seq<char>, Seq<char>)> {
    stored.map_values(|c: CandidateView| (c.0, c.1))
}

pub open spec fn string_pairs(v: Seq<(String, String)>) -> Seq<(Seq<char>, Seq<char>)> {
    v.map_values(|p: (String, String)| (p.0@, p.1@))
}

fn pair_in(v: &Vec<(String, String)>, a: &String, b: &String) -> (r: bool)
    ensures
        r == string_pairs(v@).contains((a@, b@)),
{
    for k in 0..v.len()
        invariant
            forall|m: int| 0 <= m < k ==> string_pairs(v@)[m] != (a@, b@),
    {
        if str_eq(&v[k].0, a) && str_eq(&v[k].1, b) {
            assert(string_pairs(v@)[k as int] == (a@, b@));
            return true;
        }
    }
    false
}

fn stored_has(stored: &Vec<MatchCandidate>, a: &String, b: &String) -> (r: bool)
    ensures
        r == stored_pairs(cand_views(stored@)).contains((a@, b@)),
{
    for k in 0..stored.len()
        invariant
            forall|m: int| 0 <= m < k ==> stored_pairs(cand_views(stored@))[m] != (a@, b@),
    {
        if str_eq(&stored[k].provider_product_id, a) && str_eq(&stored[k].product_id, b) {
            assert(stored_pairs(cand_views(stored@))[k as int] == (a@, b@));
            return true;
        }
    }
    false
}

/// The comparisons still to score, in the order they are to be scored:
/// every (provider product, canonical product) pair, provider product by
/// provider product, that is neither stored already nor a repeat of an
/// earlier pair.
pub fn backfill_pairs(
    provider_products: &Vec<ProviderProductRow>,
    products: &Vec<ProductRow>,
    stored: &Vec<MatchCandidate>,
) -> (r: Vec<(String, String)>)
    ensures
        string_pairs(r@) == pending_pairs(
            all_pairs(provider_products@, products@),
            stored_pairs(cand_views(stored@)),
        ),
{
    let ghost st = stored_pairs(cand_views(stored@));
    let mut out: Vec<(String, String)> = Vec::new();
    for i in 0..provider_products.len()
        invariant
            st == stored_pairs(cand_views(stored@)),
            string_pairs(out@) == pending_pairs(all_pairs(provider_products@.take(i as int), products@), st),
    {
        let pp = &provider_products[i];
        let ghost pre = all_pairs(provider_products@.take(i as int), products@);
        let ghost row = products@.map_values(|p: ProductRow| (pp.id@, p.id@));
        assert(provider_products@.take(i + 1).drop_last() =~= provider_products@.take(i as int));
        assert(provider_products@.take(i + 1).last() == *pp);
        assert(all_pairs(provider_products@.take(i + 1), products@) == pre + row);
        for j in 0..products.len()
            invariant
                st == stored_pairs(cand_views(stored@)),
                row == products@.map_values(|p: ProductRow| (pp.id@, p.id@)),
                string_pairs(out@) == pending_pairs(pre + row.take(j as int), st),
        {
            let product = &products[j];
            assert((pre + row.take(j + 1)).drop_last() =~= pre + row.take(j as int));
            assert((pre + row.take(j + 1)).last() == (pp.id@, product.id@));
            let known = stored_has(stored, &pp.id, &product.id) || pair_in(&out, &pp.id, &product.id);
            if !known {
                let ghost o = string_pairs(out@);
                out.push((pp.id.clone(), product.id.clone()));
                assert(string_pairs(out@) =~= o.push((pp.id@, product.id@)));
            }
        }
        assert(row.take(products.len() as int) =~= row);
    }
    assert(provider_products@.take(provider_products.len() as int) =~= provider_products@);
    out
}

/// One scored comparison as stored: the candidate and whether the insert
/// created the row or found it already there.
pub open spec fn scored_view(s: (MatchCandidate, MatchInsert)) -> (CandidateView, bool) {
    (cand_view(s.0), s.1 == MatchInsert::Created)
}

/// How many of the scored comparisons were created.
pub open spec fn created_count(scored: Seq<(CandidateView, bool)>) -> nat
    decreases scored.len(),
{
    if scored.len() == 0 {
        0
    } else {
        created_count(scored.drop_last()) + if scored.last().1 {
            1nat
        } else {
            0
        }
    }
}

/// The linking candidates: the stored comparisons at or above the
/// threshold, then the newly scored ones at or above it.
pub open spec fn linking_candidates(
    stored: Seq<CandidateView>,
    scored: Seq<(CandidateView, bool)>,
) -> Seq<CandidateView> {
    stored.filter(|c: CandidateView| above_threshold(c)) + scored.map_values(
        |s: (CandidateView, bool)| s.0,
    ).filter(|c: CandidateView| above_threshold(c))
}

/// Finishes a match-products run once the missing comparisons are scored
/// and stored: `stored` are the comparisons found before the backfill and
/// `scored` the ones scored during it, each with the outcome of its insert.
/// The candidates at or above [`MIN_SCORE`] are linked per provider (see
/// [`link_matches`]). Returns the counts (new comparisons created, those
/// already stored, provider products, links) and the winners to link.
pub fn match_products(
    provider_products: &Vec<ProviderProductRow>,
    stored: &Vec<MatchCandidate>,
    scored: &Vec<(MatchCandidate, MatchInsert)>,
) -> (r: (MatchSummary, Vec<MatchCandidate>))
    ensures
        cand_views(r.1@) == links(
            linking_candidates(
                cand_views(stored@),
                scored@.map_values(|s: (MatchCandidate, MatchInsert)| scored_view(s)),
            ),
            provider_products@,
        ),
        r.0.computed as nat == created_count(
            scored@.map_values(|s: (MatchCandidate, MatchInsert)| scored_view(s)),
        ),
        r.0.already_stored == stored@.len(),
        r.0.provider_products == provider_products@.len(),
        r.0.matched == r.1@.len(),
{
    let ghost sv = cand_views(stored@);
    let ghost kv = scored@.map_values(|s: (MatchCandidate, MatchInsert)| scored_view(s));
    let ghost pred = |c: CandidateView| above_threshold(c);
    let mut candidates: Vec<MatchCandidate> = Vec::new();
    for k in 0..stored.len()
        invariant
            sv == cand_views(stored@),
            pred == (|c: CandidateView| above_threshold(c)),
            cand_views(candidates@) == sv.take(k as int).filter(pred),
    {
        assert(sv.take(k + 1) =~= sv.take(k as int).push(sv[k as int]));
        proof {
            lemma_filter_push(sv.take(k as int), sv[k as int], pred);
        }
        if stored[k].score >= MIN_SCORE {
            let ghost o = cand_views(candidates@);
            candidates.push(stored[k].duplicate());
            assert(cand_views(candidates@) =~= o.push(sv[k as int]));
        }
    }
    assert(sv.take(stored.len() as int) =~= sv);
    let ghost head = cand_views(candidates@);
    let ghost kc = kv.map_values(|s: (CandidateView, bool)| s.0);
    let mut computed: usize = 0;
    for k in 0..scored.len()
        invariant
            kv == scored@.map_values(|s: (MatchCandidate, MatchInsert)| scored_view(s)),
            kc == kv.map_values(|s: (CandidateView, bool)| s.0),
            pred == (|c: CandidateView| above_threshold(c)),
            cand_views(candidates@) == head + kc.take(k as int).filter(pred),
            computed as nat == created_count(kv.take(k as int)),
            computed <= k,
    {
        assert(kc.take(k + 1) =~= kc.take(k as int).push(kc[k as int]));
        assert(kv.take(k + 1).drop_last() =~= kv.take(k as int));
        assert(kc[k as int] == cand_view(scored@[k as int].0));
        proof {
            lemma_filter_push(kc.take(k as int), kc[k as int], pred);
        }
        let (c, ins) = (&scored[k].0, &scored[k].1);
        if *ins == MatchInsert::Created {
            computed = computed + 1;
        }
        if c.score >= MIN_SCORE {
            let ghost o = cand_views(candidates@);
            candidates.push(c.duplicate());
            assert(cand_views(candidates@) =~= o.push(kc[k as int]));
        }
    }
    assert(kc.take(scored.len() as int) =~= kc);
    assert(kv.take(scored.len() as int) =~= kv);
    assert(cand_views(candidates@) == linking_candidates(sv, kv));
    let winners = link_winners(&candidates, provider_products);
    (
        MatchSummary {
            computed,
            already_stored: stored.len(),
            provider_products: provider_products.len(),
            matched: winners.len(),
        },
        winners,
    )
}

} // verus!
