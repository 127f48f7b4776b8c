//! The chain tracer and its consumption bookkeeping.
//!
//! Starting from each grid entry, the tracer walks outward through grid
//! neighbors in a fixed priority (right, then bottom, then left), absorbing
//! and reducing connectable primitives into a single growing chain.  Every
//! absorbed primitive's slot is recorded in the consumption tracker so it is
//! never folded into a chain twice, and so that tracing terminates: each
//! absorption permanently consumes one previously unconsumed slot.

use vstd::prelude::*;
use crate::geom::{Loc, Stroke, Feature, Settings, loc_in_range, right_of, bottom_of, left_of};
use crate::element::{Element, ElemModel, views, clone_elements, spec_try_chain, spec_reduce};
use crate::pathdata::{unify, spec_unify, is_seg};

verus! {

/// The grid index entries have pairwise distinct locations.
pub open spec fn locs_distinct(g: Seq<(Loc, Vec<Element>)>) -> bool {
    forall|k1: int, k2: int| #![trigger g[k1], g[k2]]
        0 <= k1 < k2 < g.len() ==> g[k1].0 != g[k2].0
}

/// Every location of the grid index admits neighbor derivation.
pub open spec fn locs_in_range(g: Seq<(Loc, Vec<Element>)>) -> bool {
    forall|k: int| 0 <= k < g.len() ==> loc_in_range((#[trigger] g[k]).0)
}

/// Does some grid entry carry this location?
pub open spec fn has_loc(g: Seq<(Loc, Vec<Element>)>, l: Loc) -> bool {
    exists|k: int| 0 <= k < g.len() && (#[trigger] g[k]).0 == l
}

/// The index of the entry carrying `l` (meaningful when `has_loc`).
pub open spec fn loc_entry(g: Seq<(Loc, Vec<Element>)>, l: Loc) -> int {
    choose|k: int| 0 <= k < g.len() && (#[trigger] g[k]).0 == l
}

/// The primitive sequence stored at `l` (meaningful when `has_loc`).
pub open spec fn elems_at(g: Seq<(Loc, Vec<Element>)>, l: Loc) -> Seq<Element> {
    g[loc_entry(g, l)].1@
}

/// A (location, slot-index) pair naming an actual primitive of the grid.
pub open spec fn valid_slot(g: Seq<(Loc, Vec<Element>)>, p: (Loc, usize)) -> bool {
    exists|k: int| 0 <= k < g.len() && (#[trigger] g[k]).0 == p.0 && (p.1 as int) < g[k].1@.len()
}

/// With distinct locations, any entry carrying `l` is the entry `loc_entry`
/// names.
pub proof fn lemma_loc_entry(g: Seq<(Loc, Vec<Element>)>, l: Loc, k: int)
    requires
        locs_distinct(g),
        0 <= k < g.len(),
        g[k].0 == l,
    ensures
        has_loc(g, l),
        loc_entry(g, l) == k,
{
    assert(has_loc(g, l));
    let k2 = loc_entry(g, l);
    if k2 != k {
        let lo = if k2 < k { k2 } else { k };
        let hi = if k2 < k { k } else { k2 };
        assert(g[lo].0 != g[hi].0);
        assert(false);
    }
}

/// How many of the first `n` slots at location `l` are not yet consumed.
pub open spec fn slot_count(l: Loc, n: int, eaten: Seq<(Loc, usize)>) -> int
    decreases n,
{
    if n <= 0 {
        0
    } else {
        slot_count(l, n - 1, eaten) + if eaten.contains((l, (n - 1) as usize)) {
            0int
        } else {
            1int
        }
    }
}

/// How many slots of the whole grid are not yet consumed.
pub open spec fn uneaten_total(g: Seq<(Loc, Vec<Element>)>, eaten: Seq<(Loc, usize)>) -> int
    decreases g.len(),
{
    if g.len() == 0 {
        0
    } else {
        uneaten_total(g.drop_last(), eaten) + slot_count(g.last().0, g.last().1@.len() as int, eaten)
    }
}

pub proof fn lemma_slot_count_bounds(l: Loc, n: int, eaten: Seq<(Loc, usize)>)
    ensures
        0 <= slot_count(l, n, eaten),
        slot_count(l, n, eaten) <= (if n >= 0 { n } else { 0 }),
    decreases n,
{
    if n > 0 {
        lemma_slot_count_bounds(l, n - 1, eaten);
    }
}

pub proof fn lemma_uneaten_total_nonneg(g: Seq<(Loc, Vec<Element>)>, eaten: Seq<(Loc, usize)>)
    ensures
        uneaten_total(g, eaten) >= 0,
    decreases g.len(),
{
    if g.len() > 0 {
        lemma_uneaten_total_nonneg(g.drop_last(), eaten);
        lemma_slot_count_bounds(g.last().0, g.last().1@.len() as int, eaten);
    }
}

/// Membership in a sequence extended by one element.
pub proof fn lemma_contains_push(s: Seq<(Loc, usize)>, p: (Loc, usize), q: (Loc, usize))
    ensures
        s.push(p).contains(q) <==> (s.contains(q) || q == p),
{
    if s.push(p).contains(q) {
        let i = choose|i: int| 0 <= i < s.push(p).len() && s.push(p)[i] == q;
        if i < s.len() {
            assert(s[i] == q);
        }
    }
    if s.contains(q) {
        let i = choose|i: int| 0 <= i < s.len() && s[i] == q;
        assert(s.push(p)[i] == q);
    }
    if q == p {
        assert(s.push(p)[s.len() as int] == q);
    }
}

/// Consuming one more slot never raises a per-location count, and strictly
/// lowers it when the slot belongs to that location's first `n` slots and
/// was not yet consumed.
pub proof fn lemma_slot_count_push(l: Loc, n: int, eaten: Seq<(Loc, usize)>, p: (Loc, usize))
    ensures
        slot_count(l, n, eaten.push(p)) <= slot_count(l, n, eaten),
        p.0 == l && (p.1 as int) < n && !eaten.contains(p) ==> slot_count(l, n, eaten.push(p))
            < slot_count(l, n, eaten),
    decreases n,
{
    if n > 0 {
        lemma_slot_count_push(l, n - 1, eaten, p);
        lemma_contains_push(eaten, p, (l, (n - 1) as usize));
        if p.0 == l && (p.1 as int) < n && !eaten.contains(p) {
            if p.1 as int == n - 1 {
                assert((l, (n - 1) as usize) == p);
            }
        }
    }
}

/// Consuming a previously unconsumed slot of the grid strictly lowers the
/// number of unconsumed slots; consuming anything never raises it.
pub proof fn lemma_uneaten_total_push(
    g: Seq<(Loc, Vec<Element>)>,
    eaten: Seq<(Loc, usize)>,
    p: (Loc, usize),
)
    ensures
        uneaten_total(g, eaten.push(p)) <= uneaten_total(g, eaten),
        valid_slot(g, p) && !eaten.contains(p) ==> uneaten_total(g, eaten.push(p))
            < uneaten_total(g, eaten),
    decreases g.len(),
{
    if g.len() == 0 {
    } else {
        let rest = g.drop_last();
        let last = g.last();
        lemma_slot_count_push(last.0, last.1@.len() as int, eaten, p);
        lemma_uneaten_total_push(rest, eaten, p);
        if valid_slot(g, p) && !eaten.contains(p) {
            let k = choose|k: int|
                0 <= k < g.len() && (#[trigger] g[k]).0 == p.0 && (p.1 as int) < g[k].1@.len();
            if k == g.len() - 1 {
                assert(uneaten_total(g, eaten.push(p)) < uneaten_total(g, eaten));
            } else {
                assert(rest[k] == g[k]);
                assert(valid_slot(rest, p));
            }
        }
    }
}

/// Extending the consumption record by an unrecorded pair keeps it
/// duplicate-free.
pub proof fn lemma_no_dups_push(s: Seq<(Loc, usize)>, p: (Loc, usize))
    requires
        s.no_duplicates(),
        !s.contains(p),
    ensures
        s.push(p).no_duplicates(),
{
    assert forall|i: int, j: int|
        0 <= i < s.push(p).len() && 0 <= j < s.push(p).len() && i != j implies s.push(p)[i]
        != s.push(p)[j] by {
        if i < s.len() && j < s.len() {
        } else if i < s.len() {
            assert(s[i] == s.push(p)[i]);
            if s.push(p)[i] == p {
                assert(s.contains(p));
            }
        } else if j < s.len() {
            assert(s[j] == s.push(p)[j]);
            if s.push(p)[j] == p {
                assert(s.contains(p));
            }
        }
    }
}

/// One absorption step on the chain: a candidate that reduce-collapses with
/// the tail replaces the tail by the reduced element; one that does not is
/// appended as a new chain member (and is then the tail).
pub open spec fn fold_step(chain: Seq<ElemModel>, cand: ElemModel) -> Seq<ElemModel> {
    if chain.len() > 0 && spec_reduce(chain.last(), cand) is Some {
        chain.update(chain.len() - 1, spec_reduce(chain.last(), cand)->Some_0)
    } else {
        chain.push(cand)
    }
}

/// Fold a picked slot's oriented candidates into the chain, in order.
pub open spec fn spec_fold_cands(chain: Seq<ElemModel>, cands: Seq<ElemModel>) -> Seq<ElemModel>
    decreases cands.len(),
{
    if cands.len() == 0 {
        chain
    } else {
        spec_fold_cands(fold_step(chain, cands[0]), cands.drop_first())
    }
}

/// The chain after absorbing, in order, the slots `idxs` of the location's
/// primitive sequence `entry`: each slot's element is oriented by
/// `try_chain` against the then-current tail and folded in.
pub open spec fn chain_after_slots(
    entry: Seq<ElemModel>,
    chain: Seq<ElemModel>,
    idxs: Seq<usize>,
) -> Seq<ElemModel>
    decreases idxs.len(),
{
    if idxs.len() == 0 {
        chain
    } else {
        chain_after_slots(
            entry,
            spec_fold_cands(chain, spec_try_chain(chain.last(), entry[idxs[0] as int])->Some_0),
            idxs.drop_first(),
        )
    }
}

/// The slot indices the record gained past its first `n0` entries.
pub open spec fn new_idxs(n0: int, eaten: Seq<(Loc, usize)>) -> Seq<usize> {
    Seq::new((eaten.len() - n0) as nat, |j: int| eaten[n0 + j].1)
}

/// The `j`-th absorbed slot was legitimate: its index names a primitive of
/// the location, the slot was unconsumed at that moment, its element
/// try-chained against the then-current chain tail, and it was the first
/// such slot in index order.
pub open spec fn slot_step_ok(
    entry: Seq<ElemModel>,
    chain0: Seq<ElemModel>,
    idxs: Seq<usize>,
    eaten: Seq<(Loc, usize)>,
    n0: int,
    l: Loc,
    j: int,
) -> bool {
    let prior_chain = chain_after_slots(entry, chain0, idxs.take(j));
    let prior_eaten = eaten.take(n0 + j);
    let idx = idxs[j] as int;
    &&& 0 <= idx < entry.len()
    &&& !prior_eaten.contains((l, idxs[j]))
    &&& spec_try_chain(prior_chain.last(), entry[idx]) is Some
    &&& forall|i2: int|
        0 <= i2 < idx ==> #[trigger] prior_eaten.contains((l, i2 as usize)) || spec_try_chain(
            prior_chain.last(),
            entry[i2],
        ) is None
}

/// Absorbing one more slot folds its candidates into the chain built so far.
pub proof fn lemma_chain_after_push(
    entry: Seq<ElemModel>,
    chain: Seq<ElemModel>,
    idxs: Seq<usize>,
    x: usize,
)
    ensures
        chain_after_slots(entry, chain, idxs.push(x)) == ({
            let c2 = chain_after_slots(entry, chain, idxs);
            spec_fold_cands(c2, spec_try_chain(c2.last(), entry[x as int])->Some_0)
        }),
    decreases idxs.len(),
{
    if idxs.len() == 0 {
        assert(idxs.push(x)[0] == x);
        assert(idxs.push(x).drop_first() =~= Seq::<usize>::empty());
        assert(chain_after_slots(entry, chain, idxs) == chain);
        let folded = spec_fold_cands(chain, spec_try_chain(chain.last(), entry[x as int])->Some_0);
        assert(chain_after_slots(entry, folded, Seq::<usize>::empty()) == folded);
        assert(chain_after_slots(entry, chain, idxs.push(x)) == folded);
    } else {
        assert(idxs.push(x)[0] == idxs[0]);
        assert(idxs.push(x).drop_first() =~= idxs.drop_first().push(x));
        lemma_chain_after_push(
            entry,
            spec_fold_cands(chain, spec_try_chain(chain.last(), entry[idxs[0] as int])->Some_0),
            idxs.drop_first(),
            x,
        );
    }
}

/// The grid index as pure models: each entry's location with its element
/// models.  The deterministic specification of the whole pass below is
/// phrased over this, so that two grids with equal models have equal runs.
pub open spec fn grid_model(g: Seq<(Loc, Vec<Element>)>) -> Seq<(Loc, Seq<ElemModel>)> {
    Seq::new(g.len(), |k: int| (g[k].0, views(g[k].1@)))
}

pub open spec fn m_has_loc(gm: Seq<(Loc, Seq<ElemModel>)>, l: Loc) -> bool {
    exists|k: int| 0 <= k < gm.len() && (#[trigger] gm[k]).0 == l
}

/// The index of the model entry carrying `l` (meaningful when `m_has_loc`).
pub open spec fn m_loc_entry(gm: Seq<(Loc, Seq<ElemModel>)>, l: Loc) -> int {
    choose|k: int| 0 <= k < gm.len() && (#[trigger] gm[k]).0 == l
}

/// The primitive models stored at `l` (meaningful when `m_has_loc`).
pub open spec fn m_entry(gm: Seq<(Loc, Seq<ElemModel>)>, l: Loc) -> Seq<ElemModel> {
    gm[m_loc_entry(gm, l)].1
}

pub open spec fn m_entry_len(gm: Seq<(Loc, Seq<ElemModel>)>, l: Loc) -> int {
    if m_has_loc(gm, l) {
        m_entry(gm, l).len() as int
    } else {
        0
    }
}

/// The first unconsumed slot at `l`, scanning from index `j`, whose element
/// try-chains against `tail`; with it, the oriented candidates.
pub open spec fn m_pick_from(
    entry: Seq<ElemModel>,
    eaten: Seq<(Loc, usize)>,
    l: Loc,
    tail: ElemModel,
    j: int,
) -> Option<(usize, Seq<ElemModel>)>
    decreases entry.len() - j,
{
    if j < 0 || j >= entry.len() {
        None
    } else if !eaten.contains((l, j as usize)) && spec_try_chain(tail, entry[j]) is Some {
        Some((j as usize, spec_try_chain(tail, entry[j])->Some_0))
    } else {
        m_pick_from(entry, eaten, l, tail, j + 1)
    }
}

/// What one pick at `l` yields.
pub open spec fn m_pick(
    gm: Seq<(Loc, Seq<ElemModel>)>,
    eaten: Seq<(Loc, usize)>,
    l: Loc,
    tail: ElemModel,
) -> Option<(usize, Seq<ElemModel>)> {
    if m_has_loc(gm, l) {
        m_pick_from(m_entry(gm, l), eaten, l, tail, 0)
    } else {
        None
    }
}

/// What the scan returns: the least acceptable index at or past `j`, with
/// everything before it rejected.
/// What the scan guarantees of any entry, however long: a picked slot is in
/// range and unconsumed.
pub proof fn lemma_m_pick_from_bounds(
    entry: Seq<ElemModel>,
    eaten: Seq<(Loc, usize)>,
    l: Loc,
    tail: ElemModel,
    j: int,
)
    requires
        0 <= j,
    ensures
        match m_pick_from(entry, eaten, l, tail, j) {
            Some(p) => (p.0 as int) < entry.len() && !eaten.contains((l, p.0)),
            None => true,
        },
    decreases entry.len() - j,
{
    if j < entry.len() {
        if !eaten.contains((l, j as usize)) && spec_try_chain(tail, entry[j]) is Some {
            if j <= usize::MAX as int {
            } else {
                assert((j as usize) as int <= usize::MAX as int);
            }
        } else {
            lemma_m_pick_from_bounds(entry, eaten, l, tail, j + 1);
        }
    }
}

pub proof fn lemma_m_pick_from_props(
    entry: Seq<ElemModel>,
    eaten: Seq<(Loc, usize)>,
    l: Loc,
    tail: ElemModel,
    j: int,
)
    requires
        0 <= j,
        entry.len() <= usize::MAX,
    ensures
        match m_pick_from(entry, eaten, l, tail, j) {
            Some(p) => j <= (p.0 as int) && (p.0 as int) < entry.len() && !eaten.contains(
                (l, p.0),
            )
                && spec_try_chain(tail, entry[p.0 as int]) is Some && p.1 == spec_try_chain(
                tail,
                entry[p.0 as int],
            )->Some_0 && forall|j2: int|
                j <= j2 < p.0 as int ==> #[trigger] eaten.contains((l, j2 as usize))
                    || spec_try_chain(tail, entry[j2]) is None,
            None => forall|j2: int|
                j <= j2 < entry.len() ==> #[trigger] eaten.contains((l, j2 as usize))
                    || spec_try_chain(tail, entry[j2]) is None,
        },
    decreases entry.len() - j,
{
    if j < entry.len() {
        if !(!eaten.contains((l, j as usize)) && spec_try_chain(tail, entry[j]) is Some) {
            lemma_m_pick_from_props(entry, eaten, l, tail, j + 1);
        }
    }
}

/// The absorption loop at one location: pick, consume, fold the candidates
/// into the chain, repeat until nothing there chains against the tail.
/// Returns the extended consumption record and the extended chain.
pub open spec fn m_absorb(
    gm: Seq<(Loc, Seq<ElemModel>)>,
    eaten: Seq<(Loc, usize)>,
    l: Loc,
    chain: Seq<ElemModel>,
) -> (Seq<(Loc, usize)>, Seq<ElemModel>)
    decreases slot_count(l, m_entry_len(gm, l), eaten),
    via m_absorb_decreases
{
    if chain.len() == 0 {
        (eaten, chain)
    } else {
        match m_pick(gm, eaten, l, chain.last()) {
            Option::None => (eaten, chain),
            Option::Some((i, cands)) => m_absorb(
                gm,
                eaten.push((l, i)),
                l,
                spec_fold_cands(chain, cands),
            ),
        }
    }
}

#[via_fn]
proof fn m_absorb_decreases(
    gm: Seq<(Loc, Seq<ElemModel>)>,
    eaten: Seq<(Loc, usize)>,
    l: Loc,
    chain: Seq<ElemModel>,
) {
    lemma_slot_count_bounds(l, m_entry_len(gm, l), eaten);
    if chain.len() > 0 {
        match m_pick(gm, eaten, l, chain.last()) {
            Option::None => {},
            Option::Some(p) => {
                lemma_m_pick_from_bounds(m_entry(gm, l), eaten, l, chain.last(), 0);
                lemma_slot_count_push(l, m_entry_len(gm, l), eaten, (l, p.0));
                lemma_slot_count_bounds(l, m_entry_len(gm, l), eaten.push((l, p.0)));
            },
        }
    }
}

pub open spec fn m_all_eaten(
    gm: Seq<(Loc, Seq<ElemModel>)>,
    eaten: Seq<(Loc, usize)>,
    l: Loc,
) -> bool {
    m_has_loc(gm, l) && forall|i: int|
        0 <= i < m_entry(gm, l).len() ==> #[trigger] eaten.contains((l, i as usize))
}

/// One probe of a neighbor: skipped when fully consumed or the chain is
/// empty; otherwise the absorption loop runs, and the probe succeeds
/// exactly when it consumed something.
pub open spec fn m_absorb_reduce(
    gm: Seq<(Loc, Seq<ElemModel>)>,
    eaten: Seq<(Loc, usize)>,
    l: Loc,
    chain: Seq<ElemModel>,
) -> Option<(Seq<(Loc, usize)>, Seq<ElemModel>)> {
    if m_all_eaten(gm, eaten, l) {
        None
    } else if chain.len() == 0 {
        None
    } else {
        let stepped = m_absorb(gm, eaten, l, chain);
        if stepped.0.len() > eaten.len() {
            Some(stepped)
        } else {
            None
        }
    }
}

/// How many slots of the model grid are not yet consumed.
pub open spec fn m_uneaten_total(
    gm: Seq<(Loc, Seq<ElemModel>)>,
    eaten: Seq<(Loc, usize)>,
) -> int
    decreases gm.len(),
{
    if gm.len() == 0 {
        0
    } else {
        m_uneaten_total(gm.drop_last(), eaten) + slot_count(
            gm.last().0,
            gm.last().1.len() as int,
            eaten,
        )
    }
}

pub proof fn lemma_m_uneaten_total_nonneg(
    gm: Seq<(Loc, Seq<ElemModel>)>,
    eaten: Seq<(Loc, usize)>,
)
    ensures
        m_uneaten_total(gm, eaten) >= 0,
    decreases gm.len(),
{
    if gm.len() > 0 {
        lemma_m_uneaten_total_nonneg(gm.drop_last(), eaten);
        lemma_slot_count_bounds(gm.last().0, gm.last().1.len() as int, eaten);
    }
}

pub proof fn lemma_m_uneaten_total_push(
    gm: Seq<(Loc, Seq<ElemModel>)>,
    eaten: Seq<(Loc, usize)>,
    p: (Loc, usize),
)
    ensures
        m_uneaten_total(gm, eaten.push(p)) <= m_uneaten_total(gm, eaten),
        (exists|k: int|
            0 <= k < gm.len() && (#[trigger] gm[k]).0 == p.0 && (p.1 as int) < gm[k].1.len())
            && !eaten.contains(p) ==> m_uneaten_total(gm, eaten.push(p)) < m_uneaten_total(
            gm,
            eaten,
        ),
    decreases gm.len(),
{
    if gm.len() > 0 {
        let rest = gm.drop_last();
        lemma_slot_count_push(gm.last().0, gm.last().1.len() as int, eaten, p);
        lemma_m_uneaten_total_push(rest, eaten, p);
        if (exists|k: int|
            0 <= k < gm.len() && (#[trigger] gm[k]).0 == p.0 && (p.1 as int) < gm[k].1.len())
            && !eaten.contains(p) {
            let k = choose|k: int|
                0 <= k < gm.len() && (#[trigger] gm[k]).0 == p.0 && (p.1 as int) < gm[k].1.len();
            if k < gm.len() - 1 {
                assert(rest[k] == gm[k]);
                assert(exists|k2: int|
                    0 <= k2 < rest.len() && (#[trigger] rest[k2]).0 == p.0 && (p.1 as int)
                        < rest[k2].1.len());
            }
        }
    }
}

/// The absorption loop extends the record by unconsumed actual slots only,
/// so the unconsumed-slot total never grows and strictly shrinks whenever
/// the record did grow.
pub proof fn lemma_m_absorb_props(
    gm: Seq<(Loc, Seq<ElemModel>)>,
    eaten: Seq<(Loc, usize)>,
    l: Loc,
    chain: Seq<ElemModel>,
)
    ensures
        ({
            let stepped = m_absorb(gm, eaten, l, chain);
            &&& eaten.is_prefix_of(stepped.0)
            &&& m_uneaten_total(gm, stepped.0) <= m_uneaten_total(gm, eaten)
            &&& stepped.0.len() > eaten.len() ==> m_uneaten_total(gm, stepped.0)
                < m_uneaten_total(gm, eaten)
        }),
    decreases slot_count(l, m_entry_len(gm, l), eaten),
{
    lemma_slot_count_bounds(l, m_entry_len(gm, l), eaten);
    assert(eaten.is_prefix_of(eaten)) by {
        assert(eaten =~= eaten.take(eaten.len() as int));
    }
    if chain.len() > 0 {
        match m_pick(gm, eaten, l, chain.last()) {
            Option::None => {},
            Option::Some(p) => {
                lemma_m_pick_from_bounds(m_entry(gm, l), eaten, l, chain.last(), 0);
                let pushed = eaten.push((l, p.0));
                assert(m_has_loc(gm, l));
                let k = m_loc_entry(gm, l);
                assert(0 <= k < gm.len() && gm[k].0 == l);
                assert(gm[k].1 == m_entry(gm, l));
                lemma_m_uneaten_total_push(gm, eaten, (l, p.0));
                lemma_slot_count_push(l, m_entry_len(gm, l), eaten, (l, p.0));
                assert(m_entry_len(gm, l) == m_entry(gm, l).len() as int);
                assert((p.0 as int) < m_entry_len(gm, l));
                assert(!eaten.contains((l, p.0)));
                assert(slot_count(l, m_entry_len(gm, l), pushed) < slot_count(
                    l,
                    m_entry_len(gm, l),
                    eaten,
                ));
                lemma_slot_count_bounds(l, m_entry_len(gm, l), pushed);
                lemma_m_absorb_props(gm, pushed, l, spec_fold_cands(chain, p.1));
                let stepped = m_absorb(gm, eaten, l, chain);
                assert(eaten.is_prefix_of(stepped.0)) by {
                    assert(pushed.is_prefix_of(stepped.0));
                    assert(eaten =~= stepped.0.take(eaten.len() as int));
                }
            },
        }
    }
}

/// The chain tracer, deterministically: probe right, then bottom, then
/// left; on the first probe that absorbs, continue from that neighbor with
/// the extended chain; otherwise the chain is terminal.  Returns the final
/// consumption record and the final chain.
pub open spec fn m_trace(
    gm: Seq<(Loc, Seq<ElemModel>)>,
    eaten: Seq<(Loc, usize)>,
    l: Loc,
    chain: Seq<ElemModel>,
) -> (Seq<(Loc, usize)>, Seq<ElemModel>)
    decreases m_uneaten_total(gm, eaten),
    via m_trace_decreases
{
    match m_absorb_reduce(gm, eaten, right_of(l), chain) {
        Option::Some(step) => m_trace(gm, step.0, right_of(l), step.1),
        Option::None => match m_absorb_reduce(gm, eaten, bottom_of(l), chain) {
            Option::Some(step) => m_trace(gm, step.0, bottom_of(l), step.1),
            Option::None => match m_absorb_reduce(gm, eaten, left_of(l), chain) {
                Option::Some(step) => m_trace(gm, step.0, left_of(l), step.1),
                Option::None => (eaten, chain),
            },
        },
    }
}

#[via_fn]
proof fn m_trace_decreases(
    gm: Seq<(Loc, Seq<ElemModel>)>,
    eaten: Seq<(Loc, usize)>,
    l: Loc,
    chain: Seq<ElemModel>,
) {
    lemma_m_uneaten_total_nonneg(gm, eaten);
    lemma_m_absorb_props(gm, eaten, right_of(l), chain);
    lemma_m_absorb_props(gm, eaten, bottom_of(l), chain);
    lemma_m_absorb_props(gm, eaten, left_of(l), chain);
    lemma_m_uneaten_total_nonneg(gm, m_absorb(gm, eaten, right_of(l), chain).0);
    lemma_m_uneaten_total_nonneg(gm, m_absorb(gm, eaten, bottom_of(l), chain).0);
    lemma_m_uneaten_total_nonneg(gm, m_absorb(gm, eaten, left_of(l), chain).0);
}

/// The whole pass from entry `k` on: one trace per entry in grid order,
/// threading the consumption record.  Returns the traced chains, each with
/// its entry's location, and the final record.
pub open spec fn m_run(
    gm: Seq<(Loc, Seq<ElemModel>)>,
    k: int,
    eaten: Seq<(Loc, usize)>,
) -> (Seq<(Loc, Seq<ElemModel>)>, Seq<(Loc, usize)>)
    decreases gm.len() - k,
{
    if k < 0 || k >= gm.len() {
        (Seq::empty(), eaten)
    } else {
        let step = m_trace(gm, eaten, gm[k].0, gm[k].1);
        let rest = m_run(gm, k + 1, step.0);
        (seq![(gm[k].0, step.1)] + rest.0, rest.1)
    }
}

/// The first `n` phase-one entries as models: location and chain models.
pub open spec fn phase_models(ph: Seq<(Loc, Vec<Element>)>, n: int) -> Seq<(Loc, Seq<ElemModel>)> {
    Seq::new(n as nat, |j: int| (ph[j].0, views(ph[j].1@)))
}

/// The deterministic result of one optimize pass over a grid model: trace
/// every entry starting from the empty consumption record, then collect
/// every traced chain member whose slot was not consumed.
pub open spec fn spec_optimize(gm: Seq<(Loc, Seq<ElemModel>)>) -> Seq<ElemModel> {
    let run = m_run(gm, 0, Seq::empty());
    spec_collect(run.0, run.1)
}

/// With distinct locations, the model grid's entry for `l` is the views of
/// the grid's entry for `l`.
pub proof fn lemma_model_entry(g: Seq<(Loc, Vec<Element>)>, l: Loc)
    requires
        locs_distinct(g),
    ensures
        m_has_loc(grid_model(g), l) == has_loc(g, l),
        has_loc(g, l) ==> m_entry(grid_model(g), l) == views(elems_at(g, l)),
{
    let gm = grid_model(g);
    if has_loc(g, l) {
        let k = loc_entry(g, l);
        assert(0 <= k < g.len() && g[k].0 == l);
        assert(gm[k].0 == l);
        assert(m_has_loc(gm, l));
        let k2 = m_loc_entry(gm, l);
        assert(0 <= k2 < gm.len() && gm[k2].0 == l);
        assert(g[k2].0 == l);
        lemma_loc_entry(g, l, k2);
        assert(m_entry(gm, l) == gm[k].1);
        assert(gm[k].1 == views(g[k].1@));
    }
    if m_has_loc(gm, l) {
        let k2 = m_loc_entry(gm, l);
        assert(0 <= k2 < gm.len() && gm[k2].0 == l);
        assert(g[k2].0 == l);
        assert(has_loc(g, l));
    }
}

/// The path optimizer for one pass: the grid index it reads, and the
/// consumption tracker it fills while tracing.
pub struct Optimizer {
    /// The grid index: location, and the ordered primitives found there.
    pub elements: Vec<(Loc, Vec<Element>)>,
    /// Consumed slots: location of the entry, and the index of the element
    /// within that entry's sequence.
    pub eaten: Vec<(Loc, usize)>,
}

impl Optimizer {
    /// Well-formedness: the grid has unique, range-safe locations; the
    /// tracker holds only actual slots and holds no slot twice.
    pub open spec fn wf(self) -> bool {
        &&& locs_distinct(self.elements@)
        &&& locs_in_range(self.elements@)
        &&& self.eaten@.no_duplicates()
        &&& forall|j: int|
            0 <= j < self.eaten@.len() ==> valid_slot(self.elements@, #[trigger] self.eaten@[j])
    }

    /// Can some unconsumed primitive at `l` extend a chain whose tail model
    /// is `tail`?
    pub open spec fn can_pick(self, l: Loc, tail: ElemModel) -> bool {
        exists|k: int, i: int| #![trigger self.elements@[k].1@[i]]
            0 <= k < self.elements@.len() && self.elements@[k].0 == l
                && 0 <= i < self.elements@[k].1@.len()
                && !self.eaten@.contains((l, i as usize))
                && spec_try_chain(tail, self.elements@[k].1@[i]@) is Some
    }

    /// A fresh optimizer over a grid index, with nothing consumed yet.
    pub fn new(elements: Vec<(Loc, Vec<Element>)>) -> (o: Optimizer)
        ensures
            o.elements == elements,
            o.eaten@ == Seq::<(Loc, usize)>::empty(),
    {
        Optimizer { elements, eaten: vec![] }
    }

    /// Has the specific slot `(loc, index)` already been consumed?
    pub fn eaten(&self, loc: &Loc, index: usize) -> (r: bool)
        ensures
            r == self.eaten@.contains((*loc, index)),
    {
        let mut j: usize = 0;
        while j < self.eaten.len()
            invariant
                j <= self.eaten@.len(),
                forall|m: int| 0 <= m < j ==> self.eaten@[m] != (*loc, index),
            decreases self.eaten@.len() - j,
        {
            let (l, i) = self.eaten[j];
            if l == *loc && i == index {
                return true;
            }
            j += 1;
        }
        false
    }

    /// Has any slot at `loc` been consumed?
    pub fn half_eaten(&self, loc: &Loc) -> (r: bool)
        ensures
            r == exists|j: int| 0 <= j < self.eaten@.len() && (#[trigger] self.eaten@[j]).0 == *loc,
    {
        let mut j: usize = 0;
        while j < self.eaten.len()
            invariant
                j <= self.eaten@.len(),
                forall|m: int| 0 <= m < j ==> (#[trigger] self.eaten@[m]).0 != *loc,
            decreases self.eaten@.len() - j,
        {
            let (l, _i) = self.eaten[j];
            if l == *loc {
                return true;
            }
            j += 1;
        }
        false
    }

    /// Look the location up in the grid index: the first entry carrying it.
    pub fn get(&self, loc: &Loc) -> (r: Option<&Vec<Element>>)
        ensures
            match r {
                Some(v) => has_loc(self.elements@, *loc) && exists|k: int|
                    0 <= k < self.elements@.len() && (#[trigger] self.elements@[k]).0 == *loc
                        && v@ == self.elements@[k].1@ && (forall|m: int|
                        0 <= m < k ==> (#[trigger] self.elements@[m]).0 != *loc),
                None => !has_loc(self.elements@, *loc),
            },
    {
        let mut k: usize = 0;
        while k < self.elements.len()
            invariant
                k <= self.elements@.len(),
                forall|m: int| 0 <= m < k ==> (#[trigger] self.elements@[m]).0 != *loc,
            decreases self.elements@.len() - k,
        {
            if self.elements[k].0 == *loc {
                return Some(&self.elements[k].1);
            }
            k += 1;
        }
        None
    }

    /// Is the location present, with every one of its slots consumed?
    pub open spec fn spec_all_eaten(self, l: Loc) -> bool {
        has_loc(self.elements@, l) && forall|i: int|
            0 <= i < elems_at(self.elements@, l).len() ==> #[trigger] self.eaten@.contains(
                (l, i as usize),
            )
    }

    /// Check whether every slot at `loc` is already consumed.  A location
    /// absent from the grid counts as not fully consumed, exactly as in the
    /// picking guard it serves.
    pub fn all_eaten(&self, loc: &Loc) -> (r: bool)
        requires
            locs_distinct(self.elements@),
        ensures
            r == self.spec_all_eaten(*loc),
    {
        match self.get(loc) {
            Some(elements) => {
                let ghost k = choose|k: int|
                    0 <= k < self.elements@.len() && (#[trigger] self.elements@[k]).0 == *loc
                        && elements@ == self.elements@[k].1@;
                proof {
                    lemma_loc_entry(self.elements@, *loc, k);
                }
                let mut i: usize = 0;
                while i < elements.len()
                    invariant
                        i <= elements@.len(),
                        elements@ == elems_at(self.elements@, *loc),
                        has_loc(self.elements@, *loc),
                        forall|m: int|
                            0 <= m < i ==> #[trigger] self.eaten@.contains((*loc, m as usize)),
                    decreases elements@.len() - i,
                {
                    if !self.eaten(loc, i) {
                        proof {
                            assert(!self.eaten@.contains((*loc, i as usize)));
                        }
                        return false;
                    }
                    i += 1;
                }
                true
            },
            None => false,
        }
    }

    /// Pick the first unconsumed primitive at `loc` that chains against the
    /// given chain tail, returning its slot index and the oriented
    /// candidates for appending it.  `None` when nothing there can chain.
    pub fn pick(&self, loc: &Loc, last_elm: &Element) -> (r: Option<(usize, Vec<Element>)>)
        requires
            locs_distinct(self.elements@),
        ensures
            match r {
                Some(p) => {
                    &&& has_loc(self.elements@, *loc)
                    &&& (p.0 as int) < elems_at(self.elements@, *loc).len()
                    &&& !self.eaten@.contains((*loc, p.0))
                    &&& spec_try_chain(last_elm@, elems_at(self.elements@, *loc)[p.0 as int]@)
                        is Some
                    &&& views(p.1@) == spec_try_chain(
                        last_elm@,
                        elems_at(self.elements@, *loc)[p.0 as int]@,
                    )->Some_0
                    &&& forall|j: int|
                        0 <= j < p.0 as int ==> #[trigger] self.eaten@.contains((*loc, j as usize))
                            || spec_try_chain(last_elm@, elems_at(self.elements@, *loc)[j]@)
                            is None
                    &&& self.can_pick(*loc, last_elm@)
                },
                None => !self.can_pick(*loc, last_elm@),
            },
            ({
                let mp = m_pick(grid_model(self.elements@), self.eaten@, *loc, last_elm@);
                match r {
                    Some(p) => mp == Some((p.0, views(p.1@))),
                    None => mp is None,
                }
            }),
    {
        match self.get(loc) {
            Some(elements) => {
                let ghost k = choose|k: int|
                    0 <= k < self.elements@.len() && (#[trigger] self.elements@[k]).0 == *loc
                        && elements@ == self.elements@[k].1@;
                proof {
                    lemma_loc_entry(self.elements@, *loc, k);
                }
                let mut i: usize = 0;
                while i < elements.len()
                    invariant
                        i <= elements@.len(),
                        elements@ == elems_at(self.elements@, *loc),
                        elements@ == self.elements@[loc_entry(self.elements@, *loc)].1@,
                        0 <= loc_entry(self.elements@, *loc) < self.elements@.len(),
                        self.elements@[loc_entry(self.elements@, *loc)].0 == *loc,
                        locs_distinct(self.elements@),
                        has_loc(self.elements@, *loc),
                        forall|j: int|
                            0 <= j < i ==> #[trigger] self.eaten@.contains((*loc, j as usize))
                                || spec_try_chain(last_elm@, elements@[j]@) is None,
                    decreases elements@.len() - i,
                {
                    if !self.eaten(loc, i) {
                        match last_elm.try_chain(&elements[i]) {
                            Some(chained) => {
                                proof {
                                    let ghost ke = loc_entry(self.elements@, *loc);
                                    assert(self.elements@[ke].1@[i as int] == elements@[i as int]);
                                    assert(self.can_pick(*loc, last_elm@));
                                    lemma_model_entry(self.elements@, *loc);
                                    let entryv = m_entry(grid_model(self.elements@), *loc);
                                    assert(entryv == views(elements@));
                                    assert(entryv.len() == elements@.len());
                                    assert(elements@.len() <= usize::MAX) by {
                                        assert(elements@.len() == elements.len());
                                    }
                                    assert(entryv[i as int] == elements@[i as int]@);
                                    assert forall|j2: int|
                                        0 <= j2 < i as int implies #[trigger] self.eaten@.contains(
                                        (*loc, j2 as usize),
                                    ) || spec_try_chain(last_elm@, entryv[j2]) is None by {
                                        assert(entryv[j2] == elements@[j2]@);
                                    }
                                    lemma_m_pick_from_props(
                                        entryv,
                                        self.eaten@,
                                        *loc,
                                        last_elm@,
                                        0,
                                    );
                                    match m_pick_from(entryv, self.eaten@, *loc, last_elm@, 0) {
                                        Option::None => {
                                            assert(self.eaten@.contains((*loc, (i as int) as usize))
                                                || spec_try_chain(
                                                last_elm@,
                                                entryv[i as int],
                                            ) is None);
                                            assert((i as int) as usize == i);
                                            assert(false);
                                        },
                                        Option::Some(q) => {
                                            if (q.0 as int) < i as int {
                                                assert(self.eaten@.contains(
                                                    (*loc, ((q.0 as int)) as usize),
                                                ) || spec_try_chain(
                                                    last_elm@,
                                                    entryv[q.0 as int],
                                                ) is None);
                                                assert(((q.0 as int)) as usize == q.0);
                                                assert(false);
                                            } else if (q.0 as int) > i as int {
                                                assert(self.eaten@.contains(
                                                    (*loc, (i as int) as usize),
                                                ) || spec_try_chain(
                                                    last_elm@,
                                                    entryv[i as int],
                                                ) is None);
                                                assert((i as int) as usize == i);
                                                assert(false);
                                            }
                                        },
                                    }
                                }
                                return Some((i, chained));
                            },
                            None => {},
                        }
                    }
                    i += 1;
                }
                proof {
                    if self.can_pick(*loc, last_elm@) {
                        let (k2, i2) = choose|k2: int, i2: int|
                            #![trigger self.elements@[k2].1@[i2]]
                            0 <= k2 < self.elements@.len() && self.elements@[k2].0 == *loc && 0
                                <= i2 < self.elements@[k2].1@.len() && !self.eaten@.contains(
                                (*loc, i2 as usize),
                            ) && spec_try_chain(last_elm@, self.elements@[k2].1@[i2]@) is Some;
                        lemma_loc_entry(self.elements@, *loc, k2);
                        assert(self.eaten@.contains((*loc, i2 as usize)) || spec_try_chain(
                            last_elm@,
                            elements@[i2]@,
                        ) is None);
                        assert(false);
                    }
                    lemma_model_entry(self.elements@, *loc);
                    let entryv = m_entry(grid_model(self.elements@), *loc);
                    assert(entryv == views(elements@));
                    assert(elements@.len() <= usize::MAX) by {
                        assert(elements@.len() == elements.len());
                    }
                    lemma_m_pick_from_props(entryv, self.eaten@, *loc, last_elm@, 0);
                    match m_pick_from(entryv, self.eaten@, *loc, last_elm@, 0) {
                        Option::None => {},
                        Option::Some(q) => {
                            assert(entryv[q.0 as int] == elements@[q.0 as int]@);
                            assert(false);
                        },
                    }
                }
                None
            },
            None => {
                proof {
                    if self.can_pick(*loc, last_elm@) {
                        let (k2, i2) = choose|k2: int, i2: int|
                            #![trigger self.elements@[k2].1@[i2]]
                            0 <= k2 < self.elements@.len() && self.elements@[k2].0 == *loc && 0
                                <= i2 < self.elements@[k2].1@.len() && !self.eaten@.contains(
                                (*loc, i2 as usize),
                            ) && spec_try_chain(last_elm@, self.elements@[k2].1@[i2]@) is Some;
                        assert(has_loc(self.elements@, *loc));
                    }
                    lemma_model_entry(self.elements@, *loc);
                }
                None
            },
        }
    }

    /// Absorb every primitive at `loc` that chains against the (evolving)
    /// chain tail: mark its slot consumed, then either reduce it into the
    /// tail or append it as a new chain member.  Returns the extended chain
    /// and whether anything was absorbed.
    ///
    /// The contract pins the whole outcome: the final record and returned
    /// chain equal [`m_absorb`] of the entry state, the deterministic
    /// specification of this loop; equivalently, the returned chain is
    /// [`chain_after_slots`] of the consumed slots' elements folded into the
    /// input chain, each consumed slot was at its moment the first
    /// unconsumed slot whose element try-chained against the then-current
    /// tail ([`slot_step_ok`]), and on return nothing unconsumed at `loc`
    /// chains against the final tail (the location is exhausted).
    pub fn absorb(&mut self, loc: &Loc, chain: Vec<Element>) -> (res: (Vec<Element>, bool))
        requires
            old(self).wf(),
            chain@.len() > 0,
        ensures
            final(self).wf(),
            final(self).elements == old(self).elements,
            old(self).eaten@.is_prefix_of(final(self).eaten@),
            forall|j: int|
                old(self).eaten@.len() <= j < final(self).eaten@.len()
                    ==> (#[trigger] final(self).eaten@[j]).0 == *loc,
            res.1 == (final(self).eaten@.len() > old(self).eaten@.len()),
            !res.1 ==> *final(self) == *old(self) && views(res.0@) == views(chain@),
            uneaten_total(final(self).elements@, final(self).eaten@) <= uneaten_total(
                old(self).elements@,
                old(self).eaten@,
            ),
            res.1 ==> uneaten_total(final(self).elements@, final(self).eaten@) < uneaten_total(
                old(self).elements@,
                old(self).eaten@,
            ),
            old(self).can_pick(*loc, chain@.last()@) ==> res.1,
            res.1 ==> old(self).can_pick(*loc, chain@.last()@),
            res.1 ==> has_loc(old(self).elements@, *loc),
            res.0@.len() >= chain@.len(),
            forall|m: int| 0 <= m < chain@.len() - 1 ==> views(res.0@)[m] == #[trigger] views(
                chain@,
            )[m],
            !final(self).can_pick(*loc, res.0@.last()@),
            m_absorb(grid_model(old(self).elements@), old(self).eaten@, *loc, views(chain@)) == (
                final(self).eaten@,
                views(res.0@),
            ),
            views(res.0@) == chain_after_slots(
                views(elems_at(old(self).elements@, *loc)),
                views(chain@),
                new_idxs(old(self).eaten@.len() as int, final(self).eaten@),
            ),
            forall|j: int|
                0 <= j < new_idxs(old(self).eaten@.len() as int, final(self).eaten@).len()
                    ==> #[trigger] slot_step_ok(
                    views(elems_at(old(self).elements@, *loc)),
                    views(chain@),
                    new_idxs(old(self).eaten@.len() as int, final(self).eaten@),
                    final(self).eaten@,
                    old(self).eaten@.len() as int,
                    *loc,
                    j,
                ),
    {
        let ghost orig = chain@;
        let ghost entryv = views(elems_at(old(self).elements@, *loc));
        let ghost n0 = old(self).eaten@.len() as int;
        let ghost chain0 = views(chain@);
        let ghost gm = grid_model(old(self).elements@);
        proof {
            assert(new_idxs(n0, old(self).eaten@) =~= Seq::<usize>::empty());
            assert(chain_after_slots(entryv, chain0, Seq::<usize>::empty()) == chain0);
        }
        proof {
            lemma_uneaten_total_nonneg(old(self).elements@, old(self).eaten@);
        }
        let mut chain = chain;
        let mut ate = false;
        let mut done = false;
        while !done
            invariant
                self.wf(),
                self.elements == old(self).elements,
                old(self).eaten@.is_prefix_of(self.eaten@),
                forall|j: int|
                    old(self).eaten@.len() <= j < self.eaten@.len() ==> (#[trigger] self.eaten@[j]).0
                        == *loc,
                ate == (self.eaten@.len() > old(self).eaten@.len()),
                !ate ==> *self == *old(self) && views(chain@) == views(orig),
                uneaten_total(self.elements@, self.eaten@) <= uneaten_total(
                    old(self).elements@,
                    old(self).eaten@,
                ),
                ate ==> uneaten_total(self.elements@, self.eaten@) < uneaten_total(
                    old(self).elements@,
                    old(self).eaten@,
                ),
                ate ==> has_loc(old(self).elements@, *loc),
                ate ==> old(self).can_pick(*loc, orig.last()@),
                chain@.len() >= orig.len(),
                orig.len() > 0,
                forall|m: int|
                    0 <= m < orig.len() - 1 ==> views(chain@)[m] == #[trigger] views(orig)[m],
                done ==> !self.can_pick(*loc, chain@.last()@),
                uneaten_total(self.elements@, self.eaten@) >= 0,
                n0 == old(self).eaten@.len() as int,
                entryv == views(elems_at(old(self).elements@, *loc)),
                chain0 == views(orig),
                gm == grid_model(old(self).elements@),
                m_absorb(gm, self.eaten@, *loc, views(chain@)) == m_absorb(
                    gm,
                    old(self).eaten@,
                    *loc,
                    chain0,
                ),
                done ==> m_pick(gm, self.eaten@, *loc, views(chain@).last()) is None,
                views(chain@) == chain_after_slots(entryv, chain0, new_idxs(n0, self.eaten@)),
                forall|j: int|
                    0 <= j < new_idxs(n0, self.eaten@).len() ==> #[trigger] slot_step_ok(
                        entryv,
                        chain0,
                        new_idxs(n0, self.eaten@),
                        self.eaten@,
                        n0,
                        *loc,
                        j,
                    ),
            decreases
                uneaten_total(self.elements@, self.eaten@),
                (if done {
                    0int
                } else {
                    1int
                }),
        {
            proof {
                lemma_uneaten_total_nonneg(self.elements@, self.eaten@);
            }
            let tl = chain.len();
            let ghost prior = views(chain@);
            let ghost idxs_pre = new_idxs(n0, self.eaten@);
            proof {
                assert(chain@[tl - 1]@ == prior.last()) by {
                    assert(views(chain@)[tl - 1] == chain@[tl - 1]@);
                }
            }
            let picked = self.pick(loc, &chain[tl - 1]);
            match picked {
                None => {
                    proof {
                        assert(grid_model(self.elements@) == gm);
                        assert(m_pick(gm, self.eaten@, *loc, views(chain@).last()) is None) by {
                            assert(chain@[tl - 1]@ == views(chain@).last());
                        }
                    }
                    done = true;
                },
                Some((index, cands)) => {
                    let ghost pre_eaten = self.eaten@;
                    proof {
                        if !ate {
                            assert(chain@.len() == orig.len()) by {
                                assert(views(chain@).len() == views(orig).len());
                            }
                            assert(chain@[orig.len() - 1]@ == views(chain@)[orig.len() - 1]);
                            assert(orig[orig.len() - 1]@ == views(orig)[orig.len() - 1]);
                            assert(old(self).can_pick(*loc, orig.last()@));
                        }
                    }
                    proof {
                        let ghost ke = loc_entry(self.elements@, *loc);
                        assert(valid_slot(self.elements@, (*loc, index))) by {
                            assert(self.elements@[ke].0 == *loc);
                            assert((index as int) < self.elements@[ke].1@.len());
                        }
                        lemma_no_dups_push(self.eaten@, (*loc, index));
                        lemma_uneaten_total_push(self.elements@, self.eaten@, (*loc, index));
                    }
                    self.eaten.push((*loc, index));
                    proof {
                        assert forall|j: int|
                            0 <= j < self.eaten@.len() implies valid_slot(
                            self.elements@,
                            #[trigger] self.eaten@[j],
                        ) by {
                            if j < pre_eaten.len() {
                                assert(self.eaten@[j] == pre_eaten[j]);
                            }
                        }
                        assert(old(self).eaten@.is_prefix_of(self.eaten@)) by {
                            assert(old(self).eaten@ =~= self.eaten@.take(
                                old(self).eaten@.len() as int,
                            ));
                        }
                    }
                    ate = true;
                    let ghost candsv = views(cands@);
                    let ghost pre_fold = views(chain@);
                    proof {
                        assert(candsv.skip(0int) =~= candsv);
                    }
                    let mut ci: usize = 0;
                    while ci < cands.len()
                        invariant
                            chain@.len() >= orig.len(),
                            orig.len() > 0,
                            forall|m: int|
                                0 <= m < orig.len() - 1 ==> views(chain@)[m] == #[trigger] views(
                                    orig,
                                )[m],
                            ci <= cands@.len(),
                            candsv == views(cands@),
                            spec_fold_cands(pre_fold, candsv) == spec_fold_cands(
                                views(chain@),
                                candsv.skip(ci as int),
                            ),
                            pre_eaten.len() >= n0,
                            self.eaten@ == pre_eaten.push((*loc, index)),
                        decreases cands@.len() - ci,
                    {
                        let ghost pre_chain = chain@;
                        let tl2 = chain.len();
                        proof {
                            assert(chain@[tl2 - 1]@ == views(pre_chain).last()) by {
                                assert(views(chain@)[tl2 - 1] == chain@[tl2 - 1]@);
                            }
                            assert(cands@[ci as int]@ == candsv[ci as int]);
                        }
                        let red = chain[tl2 - 1].reduce(&cands[ci]);
                        match red {
                            Some(r) => {
                                let _tail = chain.pop();
                                chain.push(r);
                                proof {
                                    assert(views(chain@) =~= fold_step(
                                        views(pre_chain),
                                        candsv[ci as int],
                                    )) by {
                                        let vpre = views(pre_chain);
                                        assert(views(chain@).len() == vpre.len());
                                        assert(forall|m: int|
                                            0 <= m < vpre.len() - 1 ==> chain@[m] == pre_chain[m]);
                                        assert(forall|m: int|
                                            0 <= m < views(chain@).len() ==> views(chain@)[m]
                                                == #[trigger] chain@[m]@);
                                        assert(forall|m: int|
                                            0 <= m < vpre.len() ==> vpre[m]
                                                == #[trigger] pre_chain[m]@);
                                    }
                                }
                            },
                            None => {
                                chain.push(cands[ci].clone());
                                proof {
                                    assert(views(chain@) =~= fold_step(
                                        views(pre_chain),
                                        candsv[ci as int],
                                    )) by {
                                        let vpre = views(pre_chain);
                                        assert(views(chain@).len() == vpre.len() + 1);
                                        assert(forall|m: int|
                                            0 <= m < vpre.len() ==> chain@[m] == pre_chain[m]);
                                        assert(forall|m: int|
                                            0 <= m < views(chain@).len() ==> views(chain@)[m]
                                                == #[trigger] chain@[m]@);
                                        assert(forall|m: int|
                                            0 <= m < vpre.len() ==> vpre[m]
                                                == #[trigger] pre_chain[m]@);
                                    }
                                }
                            },
                        }
                        proof {
                            assert(candsv.skip(ci as int)[0] == candsv[ci as int]);
                            assert(candsv.skip(ci as int).drop_first() =~= candsv.skip(ci + 1));
                            assert(spec_fold_cands(views(pre_chain), candsv.skip(ci as int))
                                == spec_fold_cands(views(chain@), candsv.skip(ci + 1)));
                            assert forall|m: int| 0 <= m < orig.len() - 1 implies views(chain@)[m]
                                == views(orig)[m] by {
                                assert(chain@[m] == pre_chain[m]);
                                assert(views(chain@)[m] == chain@[m]@);
                                assert(views(pre_chain)[m] == pre_chain[m]@);
                            }
                        }
                        ci += 1;
                    }
                    proof {
                        assert(candsv.skip(cands@.len() as int) =~= Seq::<ElemModel>::empty());
                        assert(spec_fold_cands(views(chain@), Seq::<ElemModel>::empty()) == views(
                            chain@,
                        ));
                        assert(views(chain@) == spec_fold_cands(pre_fold, candsv));
                        assert(pre_eaten.len() >= n0);
                        assert(self.eaten@ == pre_eaten.push((*loc, index)));
                        assert forall|j: int|
                            0 <= j < idxs_pre.len() implies #[trigger] self.eaten@[n0 + j]
                            == pre_eaten[n0 + j] by {
                            assert(0 <= n0 + j < pre_eaten.len());
                        }
                        assert(new_idxs(n0, self.eaten@) =~= idxs_pre.push(index));
                        lemma_chain_after_push(entryv, chain0, idxs_pre, index);
                        assert(entryv[index as int] == elems_at(old(self).elements@, *loc)[
                            index as int]@);
                        assert(prior.last() == chain_after_slots(entryv, chain0, idxs_pre).last());
                        assert(views(chain@) == chain_after_slots(
                            entryv,
                            chain0,
                            new_idxs(n0, self.eaten@),
                        ));
                        let cnt = idxs_pre.len() as int;
                        assert forall|j: int|
                            0 <= j < new_idxs(n0, self.eaten@).len() implies #[trigger] slot_step_ok(
                            entryv,
                            chain0,
                            new_idxs(n0, self.eaten@),
                            self.eaten@,
                            n0,
                            *loc,
                            j,
                        ) by {
                            let idxs_new = new_idxs(n0, self.eaten@);
                            if j < cnt {
                                assert(idxs_new.take(j) =~= idxs_pre.take(j));
                                assert(self.eaten@.take(n0 + j) =~= pre_eaten.take(n0 + j));
                                assert(idxs_new[j] == idxs_pre[j]);
                                assert(slot_step_ok(
                                    entryv,
                                    chain0,
                                    idxs_pre,
                                    pre_eaten,
                                    n0,
                                    *loc,
                                    j,
                                ));
                            } else {
                                assert(j == cnt);
                                assert(idxs_new.take(j) =~= idxs_pre);
                                assert(self.eaten@.take(n0 + j) =~= pre_eaten);
                                assert(idxs_new[j] == index);
                            }
                        }
                        assert(pre_fold == prior);
                        assert(grid_model(self.elements@) == gm);
                        assert(m_pick(gm, pre_eaten, *loc, prior.last()) == Some((index, candsv)));
                        assert(prior.len() > 0);
                        assert(m_absorb(gm, pre_eaten, *loc, prior) == m_absorb(
                            gm,
                            pre_eaten.push((*loc, index)),
                            *loc,
                            spec_fold_cands(prior, candsv),
                        ));
                        assert(m_absorb(gm, self.eaten@, *loc, views(chain@)) == m_absorb(
                            gm,
                            old(self).eaten@,
                            *loc,
                            chain0,
                        ));
                    }
                },
            }
            proof {
                lemma_uneaten_total_nonneg(self.elements@, self.eaten@);
            }
        }
        proof {
            assert(m_absorb(gm, self.eaten@, *loc, views(chain@)) == (
                self.eaten@,
                views(chain@),
            ));
            if !ate && old(self).can_pick(*loc, orig.last()@) {
                assert(chain@.len() == orig.len()) by {
                    assert(views(chain@).len() == views(orig).len());
                }
                assert(chain@[orig.len() - 1]@ == views(chain@)[orig.len() - 1]);
                assert(orig[orig.len() - 1]@ == views(orig)[orig.len() - 1]);
                assert(!self.can_pick(*loc, chain@.last()@));
                assert(false);
            }
            assert forall|m: int| 0 <= m < orig.len() - 1 implies views(chain@)[m] == views(
                orig,
            )[m] by {
            }
        }
        (chain, ate)
    }

    /// Try to extend the chain from `loc`: skip the location entirely when
    /// all its slots are consumed, otherwise absorb and reduce whatever
    /// chains there.  `Some` exactly when at least one slot was absorbed.
    pub fn absorb_reduce(&mut self, loc: &Loc, chain: &Vec<Element>) -> (r: Option<Vec<Element>>)
        requires
            old(self).wf(),
        ensures
            final(self).wf(),
            final(self).elements == old(self).elements,
            old(self).eaten@.is_prefix_of(final(self).eaten@),
            forall|j: int|
                old(self).eaten@.len() <= j < final(self).eaten@.len()
                    ==> (#[trigger] final(self).eaten@[j]).0 == *loc,
            (r is Some) == (final(self).eaten@.len() > old(self).eaten@.len()),
            r is None ==> *final(self) == *old(self),
            uneaten_total(final(self).elements@, final(self).eaten@) <= uneaten_total(
                old(self).elements@,
                old(self).eaten@,
            ),
            r is Some ==> uneaten_total(final(self).elements@, final(self).eaten@) < uneaten_total(
                old(self).elements@,
                old(self).eaten@,
            ),
            r is Some ==> has_loc(old(self).elements@, *loc),
            r is Some ==> r->0@.len() >= chain@.len() && forall|m: int|
                0 <= m < chain@.len() - 1 ==> views(r->0@)[m] == #[trigger] views(chain@)[m],
            chain@.len() > 0 && old(self).can_pick(*loc, chain@.last()@) ==> r is Some,
            r is Some ==> chain@.len() > 0 && old(self).can_pick(*loc, chain@.last()@),
            r is Some ==> views(r->0@) == chain_after_slots(
                views(elems_at(old(self).elements@, *loc)),
                views(chain@),
                new_idxs(old(self).eaten@.len() as int, final(self).eaten@),
            ),
            r is Some ==> !final(self).can_pick(*loc, r->0@.last()@),
            forall|j: int|
                0 <= j < new_idxs(old(self).eaten@.len() as int, final(self).eaten@).len()
                    ==> #[trigger] slot_step_ok(
                    views(elems_at(old(self).elements@, *loc)),
                    views(chain@),
                    new_idxs(old(self).eaten@.len() as int, final(self).eaten@),
                    final(self).eaten@,
                    old(self).eaten@.len() as int,
                    *loc,
                    j,
                ),
            r is None && chain@.len() > 0 ==> !old(self).can_pick(*loc, chain@.last()@),
            ({
                let mar = m_absorb_reduce(
                    grid_model(old(self).elements@),
                    old(self).eaten@,
                    *loc,
                    views(chain@),
                );
                match r {
                    Some(nc) => mar == Some((final(self).eaten@, views(nc@))),
                    None => mar is None,
                }
            }),
    {
        proof {
            lemma_model_entry(self.elements@, *loc);
            if has_loc(self.elements@, *loc) {
                assert(m_entry(grid_model(self.elements@), *loc).len() == views(
                    elems_at(self.elements@, *loc),
                ).len());
                assert(views(elems_at(self.elements@, *loc)).len() == elems_at(
                    self.elements@,
                    *loc,
                ).len());
            }
            assert(self.spec_all_eaten(*loc) == m_all_eaten(
                grid_model(self.elements@),
                self.eaten@,
                *loc,
            ));
        }
        if self.all_eaten(loc) {
            proof {
                if chain@.len() > 0 && self.can_pick(*loc, chain@.last()@) {
                    let (k2, i2) = choose|k2: int, i2: int|
                        #![trigger self.elements@[k2].1@[i2]]
                        0 <= k2 < self.elements@.len() && self.elements@[k2].0 == *loc && 0 <= i2
                            < self.elements@[k2].1@.len() && !self.eaten@.contains(
                            (*loc, i2 as usize),
                        ) && spec_try_chain(chain@.last()@, self.elements@[k2].1@[i2]@) is Some;
                    lemma_loc_entry(self.elements@, *loc, k2);
                    assert(self.eaten@.contains((*loc, i2 as usize)));
                    assert(false);
                }
            }
            return None;
        }
        if chain.len() == 0 {
            return None;
        }
        let cloned = clone_elements(chain);
        proof {
            assert(cloned@.len() == chain@.len()) by {
                assert(views(cloned@).len() == views(chain@).len());
            }
            assert(cloned@[chain@.len() - 1]@ == views(cloned@)[chain@.len() - 1]);
            assert(chain@[chain@.len() - 1]@ == views(chain@)[chain@.len() - 1]);
            assert(cloned@.last()@ == chain@.last()@);
        }
        let (new_chain, ate) = self.absorb(loc, cloned);
        proof {
            assert(views(cloned@) == views(chain@));
            assert(m_absorb(
                grid_model(old(self).elements@),
                old(self).eaten@,
                *loc,
                views(chain@),
            ) == (self.eaten@, views(new_chain@)));
        }
        if ate {
            Some(new_chain)
        } else {
            None
        }
    }

    /// Trace a chain outward from `loc`, absorbing in the fixed neighbor
    /// priority: right, then bottom, then left.  A successful absorption
    /// recurses from that neighbor with the extended chain; when no
    /// direction yields anything the chain is terminal and returned
    /// unchanged.  Tracing terminates because every absorption permanently
    /// consumes a previously unconsumed slot.
    ///
    /// The contract determines the outcome completely: the final record and
    /// the returned chain equal [`m_trace`] of the entry state — the
    /// deterministic specification of tracing, which carries the extended
    /// chain (tail included) through every recursion.  Alongside it stand
    /// the derived facts callers use directly: the state and chain are
    /// untouched when no direction can pick; the first consumed slots form
    /// one absorption block at the first pickable direction, whose extended
    /// chain survives into the result ([`absorb_block_ok`]); and every
    /// consumed slot lies on the starting row or below, since the upward
    /// neighbor is never probed.
    pub fn trace(&mut self, loc: &Loc, chain: &Vec<Element>) -> (r: Vec<Element>)
        requires
            old(self).wf(),
            loc_in_range(*loc),
        ensures
            final(self).wf(),
            final(self).elements == old(self).elements,
            old(self).eaten@.is_prefix_of(final(self).eaten@),
            r@.len() >= chain@.len(),
            forall|m: int|
                0 <= m < chain@.len() - 1 ==> views(r@)[m] == #[trigger] views(chain@)[m],
            uneaten_total(final(self).elements@, final(self).eaten@) <= uneaten_total(
                old(self).elements@,
                old(self).eaten@,
            ),
            final(self).eaten@.len() == old(self).eaten@.len() ==> *final(self) == *old(self)
                && views(r@) == views(chain@),
            chain@.len() > 0 && old(self).can_pick(right_of(*loc), chain@.last()@)
                ==> final(self).eaten@.len() > old(self).eaten@.len()
                    && (final(self).eaten@[old(self).eaten@.len() as int]).0 == right_of(*loc)
                    && exists|cnt: int| #[trigger] absorb_block_ok(
                        *old(self),
                        *final(self),
                        right_of(*loc),
                        views(chain@),
                        views(r@),
                        cnt,
                    ),
            chain@.len() > 0 && !old(self).can_pick(right_of(*loc), chain@.last()@)
                && old(self).can_pick(bottom_of(*loc), chain@.last()@)
                ==> final(self).eaten@.len() > old(self).eaten@.len()
                    && (final(self).eaten@[old(self).eaten@.len() as int]).0 == bottom_of(*loc)
                    && exists|cnt: int| #[trigger] absorb_block_ok(
                        *old(self),
                        *final(self),
                        bottom_of(*loc),
                        views(chain@),
                        views(r@),
                        cnt,
                    ),
            chain@.len() > 0 && !old(self).can_pick(right_of(*loc), chain@.last()@)
                && !old(self).can_pick(bottom_of(*loc), chain@.last()@)
                && old(self).can_pick(left_of(*loc), chain@.last()@)
                ==> final(self).eaten@.len() > old(self).eaten@.len()
                    && (final(self).eaten@[old(self).eaten@.len() as int]).0 == left_of(*loc)
                    && exists|cnt: int| #[trigger] absorb_block_ok(
                        *old(self),
                        *final(self),
                        left_of(*loc),
                        views(chain@),
                        views(r@),
                        cnt,
                    ),
            forall|j: int|
                old(self).eaten@.len() <= j < final(self).eaten@.len()
                    ==> (#[trigger] final(self).eaten@[j]).0.y >= loc.y,
            ({
                let mt = m_trace(
                    grid_model(old(self).elements@),
                    old(self).eaten@,
                    *loc,
                    views(chain@),
                );
                final(self).eaten@ == mt.0 && views(r@) == mt.1
            }),
            no_chainable(old(self).elements@) && tail_in_grid(old(self).elements@, chain@)
                ==> *final(self) == *old(self) && views(r@) == views(chain@),
            chain@.len() == 0 ==> *final(self) == *old(self) && views(r@) == views(chain@),
            chain@.len() > 0 && !old(self).can_pick(right_of(*loc), chain@.last()@) && !old(
                self,
            ).can_pick(bottom_of(*loc), chain@.last()@) && !old(self).can_pick(
                left_of(*loc),
                chain@.last()@,
            ) ==> *final(self) == *old(self) && views(r@) == views(chain@),
        decreases uneaten_total(self.elements@, self.eaten@),
    {
        proof {
            lemma_uneaten_total_nonneg(self.elements@, self.eaten@);
        }
        let right = loc.right();
        let absorbs = self.absorb_reduce(&right, chain);
        match absorbs {
            Some(ext) => {
                let ghost mid = *self;
                proof {
                    if no_chainable(old(self).elements@) && tail_in_grid(
                        old(self).elements@,
                        chain@,
                    ) {
                        lemma_no_chainable_cannot_pick(*old(self), right, chain@);
                        assert(false);
                    }
                }
                proof {
                    lemma_in_range_entry(self.elements@, right);
                    lemma_uneaten_total_nonneg(self.elements@, self.eaten@);
                }
                proof {
                    assert(ext@.len() >= chain@.len());
                }
                let r = self.trace(&right, &ext);
                proof {
                    assert(r@.len() >= ext@.len());
                    lemma_prefix_step(old(self).eaten@, mid.eaten@, self.eaten@);
                    assert forall|m: int| 0 <= m < chain@.len() - 1 implies views(r@)[m] == views(
                        chain@,
                    )[m] by {
                        assert(views(r@)[m] == views(ext@)[m]);
                    }
                    let ghost n0 = old(self).eaten@.len() as int;
                    let ghost cnt = mid.eaten@.len() - n0;
                    assert(mid.eaten@ =~= self.eaten@.take(mid.eaten@.len() as int));
                    assert(new_idxs(n0, self.eaten@.take(n0 + cnt)) == new_idxs(n0, mid.eaten@));
                    assert(views(ext@).len() == ext@.len());
                    assert(views(r@).len() >= views(ext@).len());
                    assert forall|m: int|
                        0 <= m < views(ext@).len() - 1 implies views(r@)[m] == views(ext@)[m] by {
                    }
                    assert(absorb_block_ok(*old(self), *self, right, views(chain@), views(r@), cnt));
                    assert forall|j: int|
                        n0 <= j < self.eaten@.len() implies (#[trigger] self.eaten@[j]).0.y >= loc.y by {
                        if j < mid.eaten@.len() {
                            assert(self.eaten@[j] == mid.eaten@[j]);
                            assert(mid.eaten@[j].0 == right);
                        }
                    }
                    assert(grid_model(mid.elements@) == grid_model(old(self).elements@));
                    assert(({
                        let mt = m_trace(
                            grid_model(old(self).elements@),
                            old(self).eaten@,
                            *loc,
                            views(chain@),
                        );
                        self.eaten@ == mt.0 && views(r@) == mt.1
                    }));
                }
                r
            },
            None => {
                let bottom = loc.bottom();
                let absorbs = self.absorb_reduce(&bottom, chain);
                match absorbs {
                    Some(ext) => {
                        let ghost mid = *self;
                proof {
                    if no_chainable(old(self).elements@) && tail_in_grid(
                        old(self).elements@,
                        chain@,
                    ) {
                        lemma_no_chainable_cannot_pick(*old(self), bottom, chain@);
                        assert(false);
                    }
                }
                        proof {
                            lemma_in_range_entry(self.elements@, bottom);
                            lemma_uneaten_total_nonneg(self.elements@, self.eaten@);
                        }
                        proof {
                            assert(ext@.len() >= chain@.len());
                        }
                        let r = self.trace(&bottom, &ext);
                        proof {
                            assert(r@.len() >= ext@.len());
                            lemma_prefix_step(old(self).eaten@, mid.eaten@, self.eaten@);
                            assert forall|m: int| 0 <= m < chain@.len() - 1 implies views(r@)[m]
                                == views(chain@)[m] by {
                                assert(views(r@)[m] == views(ext@)[m]);
                            }
                            let ghost n0 = old(self).eaten@.len() as int;
                            let ghost cnt = mid.eaten@.len() - n0;
                            assert(mid.eaten@ =~= self.eaten@.take(mid.eaten@.len() as int));
                            assert(new_idxs(n0, self.eaten@.take(n0 + cnt)) == new_idxs(n0, mid.eaten@));
                            assert(views(ext@).len() == ext@.len());
                            assert(views(r@).len() >= views(ext@).len());
                            assert forall|m: int|
                                0 <= m < views(ext@).len() - 1 implies views(r@)[m] == views(ext@)[m] by {
                            }
                            assert(absorb_block_ok(*old(self), *self, bottom, views(chain@), views(r@), cnt));
                            assert forall|j: int|
                                n0 <= j < self.eaten@.len() implies (#[trigger] self.eaten@[j]).0.y >= loc.y by {
                                if j < mid.eaten@.len() {
                                    assert(self.eaten@[j] == mid.eaten@[j]);
                                    assert(mid.eaten@[j].0 == bottom);
                                }
                            }
                            assert(grid_model(mid.elements@) == grid_model(old(self).elements@));
                            assert(({
                                let mt = m_trace(
                                    grid_model(old(self).elements@),
                                    old(self).eaten@,
                                    *loc,
                                    views(chain@),
                                );
                                self.eaten@ == mt.0 && views(r@) == mt.1
                            }));
                        }
                        r
                    },
                    None => {
                        let left = loc.left();
                        let absorbs = self.absorb_reduce(&left, chain);
                        match absorbs {
                            Some(ext) => {
                                let ghost mid = *self;
                proof {
                    if no_chainable(old(self).elements@) && tail_in_grid(
                        old(self).elements@,
                        chain@,
                    ) {
                        lemma_no_chainable_cannot_pick(*old(self), left, chain@);
                        assert(false);
                    }
                }
                                proof {
                                    lemma_in_range_entry(self.elements@, left);
                                    lemma_uneaten_total_nonneg(self.elements@, self.eaten@);
                                }
                                proof {
                                    assert(ext@.len() >= chain@.len());
                                }
                                let r = self.trace(&left, &ext);
                                proof {
                                    assert(r@.len() >= ext@.len());
                                    lemma_prefix_step(
                                        old(self).eaten@,
                                        mid.eaten@,
                                        self.eaten@,
                                    );
                                    assert forall|m: int|
                                        0 <= m < chain@.len() - 1 implies views(r@)[m] == views(
                                        chain@,
                                    )[m] by {
                                        assert(views(r@)[m] == views(ext@)[m]);
                                    }
                                    let ghost n0 = old(self).eaten@.len() as int;
                                    let ghost cnt = mid.eaten@.len() - n0;
                                    assert(mid.eaten@ =~= self.eaten@.take(mid.eaten@.len() as int));
                                    assert(new_idxs(n0, self.eaten@.take(n0 + cnt)) == new_idxs(n0, mid.eaten@));
                                    assert(views(ext@).len() == ext@.len());
                                    assert(views(r@).len() >= views(ext@).len());
                                    assert forall|m: int|
                                        0 <= m < views(ext@).len() - 1 implies views(r@)[m] == views(ext@)[m] by {
                                    }
                                    assert(absorb_block_ok(*old(self), *self, left, views(chain@), views(r@), cnt));
                                    assert forall|j: int|
                                        n0 <= j < self.eaten@.len() implies (#[trigger] self.eaten@[j]).0.y >= loc.y by {
                                        if j < mid.eaten@.len() {
                                            assert(self.eaten@[j] == mid.eaten@[j]);
                                            assert(mid.eaten@[j].0 == left);
                                        }
                                    }
                                }
                                r
                            },
                            None => {
                                let r = clone_elements(chain);
                                proof {
                                    assert(r@.len() == chain@.len()) by {
                                        assert(views(r@).len() == views(chain@).len());
                                    }
                                    assert(({
                                        let mt = m_trace(
                                            grid_model(old(self).elements@),
                                            old(self).eaten@,
                                            *loc,
                                            views(chain@),
                                        );
                                        self.eaten@ == mt.0 && views(r@) == mt.1
                                    }));
                                }
                                r
                            },
                        }
                    },
                }
            },
        }
    }

    /// Run one optimize pass: trace a chain from every grid entry in grid
    /// order, then emit, for every traced chain member whose slot was not
    /// consumed into some chain, that member.
    ///
    /// The contract determines the result completely: it equals
    /// [`spec_optimize`] of the grid's models — a pure function, so equal
    /// grids give equal results and the opaque settings bundle cannot
    /// influence them.  Alongside it, the ensures exhibits the pass as a
    /// chain of optimizer states stepping through [`trace_post`] from the
    /// empty consumption record, with conservation stated outright: emitted
    /// elements plus consumed slots account for every traced chain slot
    /// exactly once.  On a grid where nothing chains, the result is the
    /// whole grid unchanged.
    pub fn optimize(elements: &Vec<(Loc, Vec<Element>)>, _settings: &Settings) -> (r: Vec<Element>)
        requires
            locs_distinct(elements@),
            locs_in_range(elements@),
        ensures
            exists|states: Seq<Optimizer>, ph: Seq<(Loc, Seq<ElemModel>)>|
                #![trigger spec_collect(ph, states.last().eaten@)]
                {
                    &&& states.len() == elements@.len() + 1
                    &&& states[0].eaten@.len() == 0
                    &&& states[0].elements@.len() == elements@.len()
                    &&& forall|k: int|
                        0 <= k < elements@.len() ==> (#[trigger] states[0].elements@[k]).0
                            == elements@[k].0 && states[0].elements@[k].1@.len()
                            == elements@[k].1@.len()
                    &&& forall|k: int, m: int|
                        #![trigger states[0].elements@[k].1@[m]]
                        0 <= k < elements@.len() && 0 <= m < elements@[k].1@.len()
                            ==> states[0].elements@[k].1@[m]@ == elements@[k].1@[m]@
                    &&& ph.len() == elements@.len()
                    &&& forall|k: int| 0 <= k < ph.len() ==> (#[trigger] ph[k]).0 == elements@[k].0
                    &&& forall|k: int|
                        0 <= k < ph.len() ==> (#[trigger] ph[k]).1.len() >= elements@[k].1@.len()
                    &&& forall|k: int, m: int|
                        #![trigger ph[k].1[m]]
                        0 <= k < ph.len() && 0 <= m < elements@[k].1@.len() - 1 ==> ph[k].1[m]
                            == views(elements@[k].1@)[m]
                    &&& states.last().eaten@.no_duplicates()
                    &&& forall|j: int|
                        0 <= j < states.last().eaten@.len() ==> valid_slot(
                            elements@,
                            #[trigger] states.last().eaten@[j],
                        )
                    &&& forall|k: int|
                        0 <= k < elements@.len() ==> #[trigger] trace_post(
                            states[k],
                            states[k + 1],
                            elements@[k].0,
                            views(elements@[k].1@),
                            ph[k].1,
                        )
                    &&& views(r@) == spec_collect(ph, states.last().eaten@)
                    &&& views(r@).len() + crate::laws::consumed_total(ph, states.last().eaten@)
                        == crate::laws::total_slots(ph)
                },
            views(r@) == spec_optimize(grid_model(elements@)),
            no_chainable(elements@) ==> views(r@) == all_views(elements@),
    {
        let cloned = clone_grid(elements);
        let mut optimizer = Optimizer::new(cloned);
        proof {
            assert forall|k1: int, k2: int|
                0 <= k1 < k2 < optimizer.elements@.len() implies (#[trigger] optimizer.elements@[k1]).0
                != (#[trigger] optimizer.elements@[k2]).0 by {
                assert(optimizer.elements@[k1].0 == elements@[k1].0);
                assert(optimizer.elements@[k2].0 == elements@[k2].0);
                assert(elements@[k1].0 != elements@[k2].0);
            }
            assert forall|k: int|
                0 <= k < optimizer.elements@.len() implies loc_in_range(
                (#[trigger] optimizer.elements@[k]).0,
            ) by {
                assert(loc_in_range(elements@[k].0));
            }
            assert(optimizer.wf());
            assert forall|j: int, m: int|
                #![trigger optimizer.elements@[j].1@[m]]
                0 <= j < elements@.len() && 0 <= m < elements@[j].1@.len() implies optimizer.elements@[j].1@[m]@
                == elements@[j].1@[m]@ by {
                assert(views(optimizer.elements@[j].1@) == views(elements@[j].1@));
                assert(views(optimizer.elements@[j].1@)[m] == optimizer.elements@[j].1@[m]@);
                assert(views(elements@[j].1@)[m] == elements@[j].1@[m]@);
            }
        }
        let mut phase1: Vec<(Loc, Vec<Element>)> = Vec::new();
        let ghost mut states: Seq<Optimizer> = seq![optimizer];
        let ghost gme = grid_model(elements@);
        proof {
            assert forall|kk: int|
                0 <= kk < gme.len() implies grid_model(optimizer.elements@)[kk] == gme[kk] by {
                assert(grid_model(optimizer.elements@)[kk] == (
                    optimizer.elements@[kk].0,
                    views(optimizer.elements@[kk].1@),
                ));
                assert(views(optimizer.elements@[kk].1@) == views(elements@[kk].1@));
            }
            assert(grid_model(optimizer.elements@) =~= gme);
            assert(phase_models(phase1@, 0) =~= Seq::<(Loc, Seq<ElemModel>)>::empty());
            assert(phase_models(phase1@, 0) + m_run(gme, 0, optimizer.eaten@).0 =~= m_run(
                gme,
                0,
                optimizer.eaten@,
            ).0);
            assert(optimizer.eaten@ == Seq::<(Loc, usize)>::empty());
        }
        let mut k: usize = 0;
        while k < elements.len()
            invariant
                k <= elements@.len(),
                optimizer.wf(),
                states.len() == k + 1,
                states[0].eaten@.len() == 0,
                states[0].elements == optimizer.elements,
                states[k as int] == optimizer,
                forall|j: int|
                    0 <= j < k ==> #[trigger] trace_post(
                        states[j],
                        states[j + 1],
                        elements@[j].0,
                        views(elements@[j].1@),
                        views(phase1@[j].1@),
                    ),
                optimizer.elements@.len() == elements@.len(),
                forall|j: int|
                    0 <= j < elements@.len() ==> (#[trigger] optimizer.elements@[j]).0
                        == elements@[j].0 && optimizer.elements@[j].1@.len()
                        == elements@[j].1@.len(),
                locs_in_range(elements@),
                phase1@.len() == k,
                forall|j: int| 0 <= j < k ==> (#[trigger] phase1@[j]).0 == elements@[j].0,
                forall|j: int|
                    0 <= j < k ==> (#[trigger] phase1@[j]).1@.len() >= elements@[j].1@.len(),
                forall|j: int, m: int|
                    #![trigger phase1@[j].1@[m]]
                    0 <= j < k && 0 <= m < elements@[j].1@.len() - 1 ==> phase1@[j].1@[m]@
                        == elements@[j].1@[m]@,
                forall|j: int, m: int|
                    #![trigger optimizer.elements@[j].1@[m]]
                    0 <= j < elements@.len() && 0 <= m < elements@[j].1@.len()
                        ==> optimizer.elements@[j].1@[m]@ == elements@[j].1@[m]@,
                no_chainable(elements@) ==> optimizer.eaten@.len() == 0,
                no_chainable(elements@) ==> forall|j: int|
                    0 <= j < k ==> views((#[trigger] phase1@[j]).1@) == views(elements@[j].1@),
                gme == grid_model(elements@),
                grid_model(optimizer.elements@) == gme,
                gme.len() == elements@.len(),
                m_run(gme, 0, Seq::<(Loc, usize)>::empty()).1 == m_run(
                    gme,
                    k as int,
                    optimizer.eaten@,
                ).1,
                m_run(gme, 0, Seq::<(Loc, usize)>::empty()).0 == phase_models(phase1@, k as int)
                    + m_run(gme, k as int, optimizer.eaten@).0,
            decreases elements@.len() - k,
        {
            let entry = &elements[k];
            let loc = entry.0;
            let ghost pre_opt = optimizer;
            proof {
                assert(loc_in_range(elements@[k as int].0));
                if no_chainable(elements@) {
                    assert forall|k1: int, i1: int, k2: int, i2: int|
                        #![trigger optimizer.elements@[k1].1@[i1], optimizer.elements@[k2].1@[i2]]
                        0 <= k1 < optimizer.elements@.len() && 0 <= i1
                            < optimizer.elements@[k1].1@.len() && 0 <= k2
                            < optimizer.elements@.len() && 0 <= i2
                            < optimizer.elements@[k2].1@.len() implies spec_try_chain(
                        optimizer.elements@[k1].1@[i1]@,
                        optimizer.elements@[k2].1@[i2]@,
                    ) is None by {
                        assert(optimizer.elements@[k1].1@[i1]@ == elements@[k1].1@[i1]@);
                        assert(optimizer.elements@[k2].1@[i2]@ == elements@[k2].1@[i2]@);
                        assert(spec_try_chain(elements@[k1].1@[i1]@, elements@[k2].1@[i2]@)
                            is None);
                    }
                    assert(no_chainable(optimizer.elements@));
                    if entry.1@.len() > 0 {
                        let n = entry.1@.len() as int;
                        assert(optimizer.elements@[k as int].1@[n - 1]@ == elements@[k as int].1@[n
                            - 1]@);
                        assert(tail_in_grid(optimizer.elements@, entry.1@));
                    }
                }
            }
            let traced = optimizer.trace(&loc, &entry.1);
            proof {
                if no_chainable(elements@) {
                    assert(optimizer == pre_opt);
                    assert(views(traced@) == views(entry.1@));
                }
                if entry.1@.len() > 0 {
                    assert(entry.1@.last()@ == views(entry.1@).last()) by {
                        assert(views(entry.1@)[entry.1@.len() - 1] == entry.1@[entry.1@.len()
                            - 1]@);
                    }
                }
                assert(trace_post(pre_opt, optimizer, loc, views(entry.1@), views(traced@)));
            }
            proof {
                assert forall|m: int|
                    0 <= m < entry.1@.len() - 1 implies traced@[m]@ == entry.1@[m]@ by {
                    assert(views(traced@)[m] == views(entry.1@)[m]);
                    assert(views(traced@)[m] == traced@[m]@);
                    assert(views(entry.1@)[m] == entry.1@[m]@);
                }
            }
            let ghost pre_phase = phase1@;
            phase1.push((loc, traced));
            proof {
                states = states.push(optimizer);
                assert(gme[k as int].0 == elements@[k as int].0);
                assert(gme[k as int].1 == views(elements@[k as int].1@));
                assert(grid_model(pre_opt.elements@) == gme);
                assert(m_trace(gme, pre_opt.eaten@, gme[k as int].0, gme[k as int].1) == (
                    optimizer.eaten@,
                    views(traced@),
                ));
                assert(m_run(gme, k as int, pre_opt.eaten@) == (
                    seq![(gme[k as int].0, views(traced@))] + m_run(
                        gme,
                        k + 1,
                        optimizer.eaten@,
                    ).0,
                    m_run(gme, k + 1, optimizer.eaten@).1,
                ));
                assert(phase_models(phase1@, k + 1) =~= phase_models(pre_phase, k as int) + seq![
                    (gme[k as int].0, views(traced@)),
                ]);
                assert(phase_models(pre_phase, k as int) =~= phase_models(phase1@, k as int));
                assert(phase_models(phase1@, k as int) + (seq![(gme[k as int].0, views(traced@))]
                    + m_run(gme, k + 1, optimizer.eaten@).0) =~= phase_models(phase1@, k + 1)
                    + m_run(gme, k + 1, optimizer.eaten@).0);
            }
            k += 1;
        }
        let ghost consumedv = optimizer.eaten@;
        let ghost phv: Seq<(Loc, Seq<ElemModel>)> = phase_models(phase1@, phase1@.len() as int);
        proof {
            assert(m_run(gme, elements@.len() as int, consumedv) == (
                Seq::<(Loc, Seq<ElemModel>)>::empty(),
                consumedv,
            ));
            assert(m_run(gme, 0, Seq::<(Loc, usize)>::empty()).1 == consumedv);
            assert(m_run(gme, 0, Seq::<(Loc, usize)>::empty()).0 =~= phv);
        }
        let mut optimized: Vec<Element> = Vec::new();
        let mut k2: usize = 0;
        while k2 < phase1.len()
            invariant
                k2 <= phase1@.len(),
                phv == phase_models(phase1@, phase1@.len() as int),
                consumedv == optimizer.eaten@,
                views(optimized@) == spec_collect(phv.take(k2 as int), consumedv),
            decreases phase1@.len() - k2,
        {
            let entry = &phase1[k2];
            let ghost chainv = views(entry.1@);
            let mut i: usize = 0;
            while i < entry.1.len()
                invariant
                    i <= entry.1@.len(),
                    entry == &phase1@[k2 as int],
                    chainv == views(entry.1@),
                    k2 < phase1@.len(),
                    phv == phase_models(phase1@, phase1@.len() as int),
                    consumedv == optimizer.eaten@,
                    views(optimized@) == spec_collect(phv.take(k2 as int), consumedv)
                        + collect_entry(entry.0, chainv, consumedv, i as int),
                decreases entry.1@.len() - i,
            {
                let ghost pre = views(optimized@);
                if !optimizer.eaten(&entry.0, i) {
                    optimized.push(entry.1[i].clone());
                    proof {
                        assert(views(optimized@) =~= pre.push(chainv[i as int])) by {
                            assert(views(optimized@).len() == pre.len() + 1);
                            assert(forall|m: int|
                                0 <= m < pre.len() ==> views(optimized@)[m] == #[trigger] pre[m]);
                            assert(views(optimized@)[pre.len() as int] == chainv[i as int]);
                        }
                        assert(pre.push(chainv[i as int]) =~= spec_collect(
                            phv.take(k2 as int),
                            consumedv,
                        ) + collect_entry(entry.0, chainv, consumedv, i + 1));
                    }
                } else {
                    proof {
                        assert(views(optimized@) =~= spec_collect(phv.take(k2 as int), consumedv)
                            + collect_entry(entry.0, chainv, consumedv, i + 1));
                    }
                }
                i += 1;
            }
            proof {
                assert(phv.take(k2 + 1).drop_last() =~= phv.take(k2 as int));
                assert(phv.take(k2 + 1).last() == phv[k2 as int]);
                assert(phv[k2 as int].0 == entry.0);
                assert(phv[k2 as int].1 == chainv);
                assert(views(optimized@) =~= spec_collect(phv.take(k2 + 1), consumedv));
            }
            k2 += 1;
        }
        proof {
            assert(phv.take(phase1@.len() as int) =~= phv);
            assert forall|j: int|
                0 <= j < consumedv.len() implies valid_slot(
                elements@,
                #[trigger] consumedv[j],
            ) by {
                assert(valid_slot(optimizer.elements@, consumedv[j]));
                let kk = choose|kk: int|
                    0 <= kk < optimizer.elements@.len() && (#[trigger] optimizer.elements@[kk]).0
                        == consumedv[j].0 && (consumedv[j].1 as int)
                        < optimizer.elements@[kk].1@.len();
                assert(elements@[kk].0 == consumedv[j].0);
                assert((consumedv[j].1 as int) < elements@[kk].1@.len());
            }
            assert forall|k: int, m: int|
                #![trigger phv[k].1[m]]
                0 <= k < phv.len() && 0 <= m < elements@[k].1@.len() - 1 implies phv[k].1[m]
                == views(elements@[k].1@)[m] by {
                assert(phv[k].1[m] == views(phase1@[k].1@)[m]);
                assert(views(phase1@[k].1@)[m] == phase1@[k].1@[m]@);
                assert(views(elements@[k].1@)[m] == elements@[k].1@[m]@);
            }
            assert(views(optimized@) == spec_collect(phv, consumedv));
            assert(states.last() == optimizer);
            assert forall|kk: int|
                0 <= kk < elements@.len() implies #[trigger] trace_post(
                states[kk],
                states[kk + 1],
                elements@[kk].0,
                views(elements@[kk].1@),
                phv[kk].1,
            ) by {
                assert(phv[kk].1 == views(phase1@[kk].1@));
            }
            assert(views(optimized@) == spec_collect(phv, states.last().eaten@));
            crate::laws::lemma_conservation(phv, consumedv);
            assert(spec_optimize(gme) == spec_collect(phv, consumedv)) by {
                assert(m_run(gme, 0, Seq::<(Loc, usize)>::empty()).0 == phv);
                assert(m_run(gme, 0, Seq::<(Loc, usize)>::empty()).1 == consumedv);
            }
            assert(views(optimized@) == spec_optimize(grid_model(elements@)));
            if no_chainable(elements@) {
                assert(consumedv =~= Seq::<(Loc, usize)>::empty());
                assert forall|kk: int|
                    0 <= kk < elements@.len() implies (#[trigger] phv[kk]).1 == views(
                    elements@[kk].1@,
                ) by {
                    assert(phv[kk].1 == views(phase1@[kk].1@));
                }
                lemma_collect_empty_flat(phv, elements@);
            }
        }
        optimized
    }

    /// Group a finalized element list into buckets and unify the stroke
    /// classes: the unified solid path, the unified dashed path, then the
    /// decoration lines, then the text labels, then the already-unified
    /// pass-through paths, each category keeping its original relative
    /// order.
    pub fn merge_paths(&self, elements: &Vec<Element>) -> (r: Vec<Element>)
        ensures
            views(r@) == spec_merge(views(elements@)),
    {
        broadcast use vstd::prelude::Seq::lemma_filter_push;

        let ghost vs = views(elements@);
        let mut solid_paths: Vec<Element> = Vec::new();
        let mut dashed_paths: Vec<Element> = Vec::new();
        let mut arrows: Vec<Element> = Vec::new();
        let mut text: Vec<Element> = Vec::new();
        let mut passthrough: Vec<Element> = Vec::new();
        let mut i: usize = 0;
        while i < elements.len()
            invariant
                i <= elements@.len(),
                vs == views(elements@),
                vs.len() == elements@.len(),
                forall|j: int| 0 <= j < elements@.len() ==> vs[j] == (#[trigger] elements@[j])@,
                views(solid_paths@) == vs.take(i as int).filter(solid_pred()),
                views(dashed_paths@) == vs.take(i as int).filter(dashed_pred()),
                views(arrows@) == vs.take(i as int).filter(decor_pred()),
                views(text@) == vs.take(i as int).filter(text_pred()),
                views(passthrough@) == vs.take(i as int).filter(path_pred()),
                forall|j: int| 0 <= j < solid_paths@.len() ==> is_seg((#[trigger] solid_paths@[j])@),
                forall|j: int|
                    0 <= j < dashed_paths@.len() ==> is_seg((#[trigger] dashed_paths@[j])@),
            decreases elements@.len() - i,
        {
            let ghost pre_solid = views(solid_paths@);
            let ghost pre_dashed = views(dashed_paths@);
            let ghost pre_arrows = views(arrows@);
            let ghost pre_text = views(text@);
            let ghost pre_pass = views(passthrough@);
            let elm = &elements[i];
            match elm {
                Element::Line(_, _, stroke, feature) => {
                    match feature {
                        Feature::Arrow => {
                            arrows.push(elm.clone());
                        },
                        Feature::Circle => {
                            arrows.push(elm.clone());
                        },
                        Feature::Nothing => {
                            match stroke {
                                Stroke::Solid => {
                                    solid_paths.push(elm.clone());
                                },
                                Stroke::Dashed => {
                                    dashed_paths.push(elm.clone());
                                },
                            }
                        },
                    }
                },
                Element::Arc(_, _, _, _) => {
                    solid_paths.push(elm.clone());
                },
                Element::Text(_, _) => {
                    text.push(elm.clone());
                },
                Element::Path(_, _, _, _) => {
                    passthrough.push(elm.clone());
                },
            }
            proof {
                let x = vs[i as int];
                assert(vs.take(i + 1) =~= vs.take(i as int).push(x));
                lemma_views_push_grow(pre_solid, solid_paths@, vs.take(i as int), solid_pred(), x);
                lemma_views_push_grow(
                    pre_dashed,
                    dashed_paths@,
                    vs.take(i as int),
                    dashed_pred(),
                    x,
                );
                lemma_views_push_grow(pre_arrows, arrows@, vs.take(i as int), decor_pred(), x);
                lemma_views_push_grow(pre_text, text@, vs.take(i as int), text_pred(), x);
                lemma_views_push_grow(pre_pass, passthrough@, vs.take(i as int), path_pred(), x);
            }
            i += 1;
        }
        proof {
            assert(vs.take(vs.len() as int) =~= vs);
        }
        let unified_solid = unify(&solid_paths, Stroke::Solid);
        let unified_dashed = unify(&dashed_paths, Stroke::Dashed);
        let mut merged: Vec<Element> = Vec::new();
        merged.push(unified_solid);
        merged.push(unified_dashed);
        append_all(&mut merged, &arrows);
        append_all(&mut merged, &text);
        append_all(&mut merged, &passthrough);
        proof {
            assert(views(merged@) =~= spec_merge(vs));
        }
        merged
    }
}

/// Is this a member of the solid unification bucket: a plain solid line, or
/// an arc (arcs are never dashed in this model)?
pub open spec fn is_solid_member(e: ElemModel) -> bool {
    match e {
        ElemModel::Line(_, _, st, f) => st == Stroke::Solid && f == Feature::Nothing,
        ElemModel::Arc(_, _, _, _) => true,
        _ => false,
    }
}

/// Is this a member of the dashed unification bucket: a plain dashed line?
pub open spec fn is_dashed_member(e: ElemModel) -> bool {
    match e {
        ElemModel::Line(_, _, st, f) => st == Stroke::Dashed && f == Feature::Nothing,
        _ => false,
    }
}

/// Is this a decoration: a line with an arrow or circle ending?
pub open spec fn is_decor(e: ElemModel) -> bool {
    match e {
        ElemModel::Line(_, _, _, f) => f == Feature::Arrow || f == Feature::Circle,
        _ => false,
    }
}

/// Is this a text label?
pub open spec fn is_text_el(e: ElemModel) -> bool {
    e is Text
}

/// Is this an already-unified pass-through path?
pub open spec fn is_path_el(e: ElemModel) -> bool {
    e is Path
}

pub open spec fn solid_pred() -> spec_fn(ElemModel) -> bool {
    |e: ElemModel| is_solid_member(e)
}

pub open spec fn dashed_pred() -> spec_fn(ElemModel) -> bool {
    |e: ElemModel| is_dashed_member(e)
}

pub open spec fn decor_pred() -> spec_fn(ElemModel) -> bool {
    |e: ElemModel| is_decor(e)
}

pub open spec fn text_pred() -> spec_fn(ElemModel) -> bool {
    |e: ElemModel| is_text_el(e)
}

pub open spec fn path_pred() -> spec_fn(ElemModel) -> bool {
    |e: ElemModel| is_path_el(e)
}

/// What the classifier/merger produces for a finalized element list.
pub open spec fn spec_merge(s: Seq<ElemModel>) -> Seq<ElemModel> {
    seq![
        spec_unify(s.filter(solid_pred()), Stroke::Solid),
        spec_unify(s.filter(dashed_pred()), Stroke::Dashed),
    ] + s.filter(decor_pred()) + s.filter(text_pred()) + s.filter(path_pred())
}

/// One partition step: when the bucket gained exactly the elements of the
/// step's filter, its views match the filter of the grown prefix.
proof fn lemma_views_push_grow(
    pre: Seq<ElemModel>,
    bucket: Seq<Element>,
    prefix: Seq<ElemModel>,
    pred: spec_fn(ElemModel) -> bool,
    x: ElemModel,
)
    requires
        pre == prefix.filter(pred),
        pred(x) ==> views(bucket).len() == pre.len() + 1 && (forall|m: int|
            0 <= m < pre.len() ==> views(bucket)[m] == #[trigger] pre[m]) && views(bucket)[pre.len() as int]
            == x,
        !pred(x) ==> views(bucket) == pre,
    ensures
        views(bucket) == prefix.push(x).filter(pred),
{
    broadcast use vstd::prelude::Seq::lemma_filter_push;

    if pred(x) {
        assert(views(bucket) =~= pre.push(x));
    }
}

/// Append clones of every element of `src` to `dst`, preserving models.
fn append_all(dst: &mut Vec<Element>, src: &Vec<Element>)
    ensures
        views(final(dst)@) == views(old(dst)@) + views(src@),
{
    let mut i: usize = 0;
    while i < src.len()
        invariant
            i <= src@.len(),
            dst@.len() == old(dst)@.len() + i,
            forall|m: int| 0 <= m < old(dst)@.len() ==> (#[trigger] dst@[m])@ == old(dst)@[m]@,
            forall|m: int|
                old(dst)@.len() <= m < old(dst)@.len() + i ==> (#[trigger] dst@[m])@ == src@[m
                    - old(dst)@.len()]@,
        decreases src@.len() - i,
    {
        dst.push(src[i].clone());
        i += 1;
    }
    proof {
        assert forall|m: int|
            0 <= m < dst@.len() implies views(dst@)[m] == (views(old(dst)@) + views(src@))[m] by {
            assert(views(dst@)[m] == dst@[m]@);
            if m < old(dst)@.len() {
                assert(views(old(dst)@)[m] == old(dst)@[m]@);
            } else {
                assert(views(src@)[m - old(dst)@.len()] == src@[m - old(dst)@.len()]@);
            }
        }
        assert(views(dst@) =~= views(old(dst)@) + views(src@));
    }
}

/// No primitive of the grid chains against any other: `try_chain` fails
/// for every ordered pair of grid primitives.
pub open spec fn no_chainable(g: Seq<(Loc, Vec<Element>)>) -> bool {
    forall|k1: int, i1: int, k2: int, i2: int|
        #![trigger g[k1].1@[i1], g[k2].1@[i2]]
        0 <= k1 < g.len() && 0 <= i1 < g[k1].1@.len() && 0 <= k2 < g.len() && 0 <= i2
            < g[k2].1@.len() ==> spec_try_chain(g[k1].1@[i1]@, g[k2].1@[i2]@) is None
}

/// The chain's tail is (by model) one of the grid's own primitives.
pub open spec fn tail_in_grid(g: Seq<(Loc, Vec<Element>)>, chain: Seq<Element>) -> bool {
    chain.len() > 0 ==> exists|k: int, i: int|
        #![trigger g[k].1@[i]]
        0 <= k < g.len() && 0 <= i < g[k].1@.len() && g[k].1@[i]@ == chain.last()@
}

/// The models of every primitive of the grid, in grid order.
pub open spec fn all_views(g: Seq<(Loc, Vec<Element>)>) -> Seq<ElemModel>
    decreases g.len(),
{
    if g.len() == 0 {
        Seq::empty()
    } else {
        all_views(g.drop_last()) + views(g.last().1@)
    }
}

/// The elements a phase-one entry contributes to the final output: those of
/// its first `n` chain members whose slot is not recorded as consumed, in
/// chain order.
pub open spec fn collect_entry(
    l: Loc,
    chain: Seq<ElemModel>,
    eaten: Seq<(Loc, usize)>,
    n: int,
) -> Seq<ElemModel>
    decreases n,
{
    if n <= 0 {
        Seq::empty()
    } else {
        collect_entry(l, chain, eaten, n - 1) + if eaten.contains((l, (n - 1) as usize)) {
            Seq::empty()
        } else {
            seq![chain[n - 1]]
        }
    }
}

/// The final output of the optimize pass: for every traced chain, in grid
/// order, the chain members whose slot was not consumed.
pub open spec fn spec_collect(
    ph: Seq<(Loc, Seq<ElemModel>)>,
    eaten: Seq<(Loc, usize)>,
) -> Seq<ElemModel>
    decreases ph.len(),
{
    if ph.len() == 0 {
        Seq::empty()
    } else {
        spec_collect(ph.drop_last(), eaten) + collect_entry(
            ph.last().0,
            ph.last().1,
            eaten,
            ph.last().1.len() as int,
        )
    }
}

/// Clone a grid index, preserving every location and every element model.
pub fn clone_grid(g: &Vec<(Loc, Vec<Element>)>) -> (r: Vec<(Loc, Vec<Element>)>)
    ensures
        r@.len() == g@.len(),
        forall|k: int|
            0 <= k < g@.len() ==> (#[trigger] r@[k]).0 == g@[k].0 && views(r@[k].1@) == views(
                g@[k].1@,
            ) && r@[k].1@.len() == g@[k].1@.len(),
{
    let mut r: Vec<(Loc, Vec<Element>)> = Vec::new();
    let mut k: usize = 0;
    while k < g.len()
        invariant
            k <= g@.len(),
            r@.len() == k,
            forall|j: int|
                0 <= j < k ==> (#[trigger] r@[j]).0 == g@[j].0 && views(r@[j].1@) == views(
                    g@[j].1@,
                ) && r@[j].1@.len() == g@[j].1@.len(),
        decreases g@.len() - k,
    {
        let entry = &g[k];
        let copied = clone_elements(&entry.1);
        proof {
            assert(copied@.len() == entry.1@.len()) by {
                assert(views(copied@).len() == views(entry.1@).len());
            }
        }
        r.push((entry.0, copied));
        k += 1;
    }
    r
}

/// With nothing consumed, an entry contributes its whole chain.
pub proof fn lemma_collect_entry_empty(l: Loc, chain: Seq<ElemModel>, n: int)
    requires
        0 <= n <= chain.len(),
    ensures
        collect_entry(l, chain, Seq::empty(), n) == chain.take(n),
    decreases n,
{
    if n > 0 {
        lemma_collect_entry_empty(l, chain, n - 1);
        assert(!Seq::<(Loc, usize)>::empty().contains((l, (n - 1) as usize)));
        assert(chain.take(n) =~= chain.take(n - 1).push(chain[n - 1]));
        assert(collect_entry(l, chain, Seq::empty(), n) =~= chain.take(n));
    } else {
        assert(collect_entry(l, chain, Seq::empty(), n) =~= chain.take(n));
    }
}

/// With nothing consumed, the collected output is every chain in order;
/// when each chain is an entry's own primitives, that is the whole grid.
pub proof fn lemma_collect_empty_flat(ph: Seq<(Loc, Seq<ElemModel>)>, g: Seq<(Loc, Vec<Element>)>)
    requires
        ph.len() == g.len(),
        forall|k: int| 0 <= k < g.len() ==> (#[trigger] ph[k]).1 == views(g[k].1@),
    ensures
        spec_collect(ph, Seq::empty()) == all_views(g),
    decreases g.len(),
{
    if g.len() > 0 {
        assert forall|k: int|
            0 <= k < g.drop_last().len() implies (#[trigger] ph.drop_last()[k]).1 == views(
            g.drop_last()[k].1@,
        ) by {
            assert(ph.drop_last()[k] == ph[k]);
            assert(g.drop_last()[k] == g[k]);
        }
        lemma_collect_empty_flat(ph.drop_last(), g.drop_last());
        lemma_collect_entry_empty(ph.last().0, ph.last().1, ph.last().1.len() as int);
        assert(ph.last().1.take(ph.last().1.len() as int) =~= ph.last().1);
        assert(ph[g.len() - 1].1 == views(g[g.len() - 1].1@));
        assert(spec_collect(ph, Seq::empty()) =~= all_views(g));
    }
}

/// The first `cnt` slots the tracer consumed after state `pre` form one
/// absorption block at location `l`: all at `l`, each legitimate per
/// [`slot_step_ok`], and the chain they build out of `chain0` survives as a
/// prefix (up to its replaceable tail) of the finally returned chain `rv`.
pub open spec fn absorb_block_ok(
    pre: Optimizer,
    post: Optimizer,
    l: Loc,
    chain0: Seq<ElemModel>,
    rv: Seq<ElemModel>,
    cnt: int,
) -> bool {
    let n0 = pre.eaten@.len() as int;
    let block = post.eaten@.take(n0 + cnt);
    let idxs = new_idxs(n0, block);
    let entry = views(elems_at(pre.elements@, l));
    let ext = chain_after_slots(entry, chain0, idxs);
    &&& 1 <= cnt <= post.eaten@.len() - n0
    &&& forall|j: int| 0 <= j < cnt ==> (#[trigger] post.eaten@[n0 + j]).0 == l
    &&& forall|j: int|
        0 <= j < cnt ==> #[trigger] slot_step_ok(entry, chain0, idxs, block, n0, l, j)
    &&& rv.len() >= ext.len()
    &&& forall|m: int| 0 <= m < ext.len() - 1 ==> #[trigger] rv[m] == ext[m]
}

/// What one run of the chain tracer guarantees, as a relation between the
/// optimizer state before (`pre`) and after (`post`), the starting
/// location, the starting chain models `chain0` and the returned chain
/// models `rv`.  These are exactly the tracer's postconditions.
pub open spec fn trace_post(
    pre: Optimizer,
    post: Optimizer,
    l: Loc,
    chain0: Seq<ElemModel>,
    rv: Seq<ElemModel>,
) -> bool {
    &&& post.elements == pre.elements
    &&& pre.eaten@.is_prefix_of(post.eaten@)
    &&& rv.len() >= chain0.len()
    &&& forall|m: int| 0 <= m < chain0.len() - 1 ==> rv[m] == #[trigger] chain0[m]
    &&& post.eaten@.len() == pre.eaten@.len() ==> post == pre && rv == chain0
    &&& chain0.len() == 0 ==> post == pre && rv == chain0
    &&& chain0.len() > 0 && !pre.can_pick(right_of(l), chain0.last()) && !pre.can_pick(
        bottom_of(l),
        chain0.last(),
    ) && !pre.can_pick(left_of(l), chain0.last()) ==> post == pre && rv == chain0
    &&& chain0.len() > 0 && pre.can_pick(right_of(l), chain0.last()) ==> post.eaten@.len()
        > pre.eaten@.len() && (post.eaten@[pre.eaten@.len() as int]).0 == right_of(l) && exists|
        cnt: int,
    | #[trigger] absorb_block_ok(pre, post, right_of(l), chain0, rv, cnt)
    &&& chain0.len() > 0 && !pre.can_pick(right_of(l), chain0.last()) && pre.can_pick(
        bottom_of(l),
        chain0.last(),
    ) ==> post.eaten@.len() > pre.eaten@.len() && (post.eaten@[pre.eaten@.len() as int]).0
        == bottom_of(l) && exists|cnt: int| #[trigger] absorb_block_ok(
        pre,
        post,
        bottom_of(l),
        chain0,
        rv,
        cnt,
    )
    &&& chain0.len() > 0 && !pre.can_pick(right_of(l), chain0.last()) && !pre.can_pick(
        bottom_of(l),
        chain0.last(),
    ) && pre.can_pick(left_of(l), chain0.last()) ==> post.eaten@.len() > pre.eaten@.len() && (
    post.eaten@[pre.eaten@.len() as int]).0 == left_of(l) && exists|cnt: int| #[trigger] absorb_block_ok(
        pre,
        post,
        left_of(l),
        chain0,
        rv,
        cnt,
    )
    &&& forall|j: int|
        pre.eaten@.len() <= j < post.eaten@.len() ==> (#[trigger] post.eaten@[j]).0.y >= l.y
}

/// On a grid where no primitive chains against any other, a chain whose
/// tail is itself a grid primitive can pick nowhere.
pub proof fn lemma_no_chainable_cannot_pick(o: Optimizer, l: Loc, chain: Seq<Element>)
    requires
        no_chainable(o.elements@),
        tail_in_grid(o.elements@, chain),
        chain.len() > 0,
    ensures
        !o.can_pick(l, chain.last()@),
{
    if o.can_pick(l, chain.last()@) {
        let (k2, i2) = choose|k2: int, i2: int|
            #![trigger o.elements@[k2].1@[i2]]
            0 <= k2 < o.elements@.len() && o.elements@[k2].0 == l && 0 <= i2
                < o.elements@[k2].1@.len() && !o.eaten@.contains((l, i2 as usize))
                && spec_try_chain(chain.last()@, o.elements@[k2].1@[i2]@) is Some;
        let (k1, i1) = choose|k1: int, i1: int|
            #![trigger o.elements@[k1].1@[i1]]
            0 <= k1 < o.elements@.len() && 0 <= i1 < o.elements@[k1].1@.len()
                && o.elements@[k1].1@[i1]@ == chain.last()@;
        assert(spec_try_chain(o.elements@[k1].1@[i1]@, o.elements@[k2].1@[i2]@) is None);
        assert(false);
    }
}

/// A location carried by some grid entry of a well-formed grid is in range.
pub proof fn lemma_in_range_entry(g: Seq<(Loc, Vec<Element>)>, l: Loc)
    requires
        locs_in_range(g),
        has_loc(g, l),
    ensures
        loc_in_range(l),
{
    let k = choose|k: int| 0 <= k < g.len() && (#[trigger] g[k]).0 == l;
    assert(loc_in_range(g[k].0));
}

/// Prefix ordering of the consumption record is transitive, and earlier
/// entries keep their positions.
pub proof fn lemma_prefix_step(a: Seq<(Loc, usize)>, b: Seq<(Loc, usize)>, c: Seq<(Loc, usize)>)
    requires
        a.is_prefix_of(b),
        b.is_prefix_of(c),
    ensures
        a.is_prefix_of(c),
        forall|j: int| 0 <= j < b.len() ==> c[j] == b[j],
{
    assert(a =~= c.take(a.len() as int));
}

} // verus!
