//! The library-wide laws, stated and proved over the same spec functions the
//! executable contracts use.

use vstd::prelude::*;
use crate::geom::{Loc, Point, Stroke, Feature};
use crate::element::{ElemModel, spec_try_chain, spec_reduce};
use crate::numfmt::{digit_char, dec_str, int_str};
use crate::pathdata::{
    is_seg, seg_start, seg_end, point_str, line_draw, arc_draw, cmd_str, unify_data,
};
use crate::optimizer::{
    Optimizer, collect_entry, spec_collect, spec_merge, solid_pred, dashed_pred, is_decor,
    is_text_el, is_solid_member, is_dashed_member,
};

verus! {

/// Idempotence of consumption: a well-formed optimizer — and every
/// optimizer reachable from `new` through `trace`, which all preserve
/// well-formedness — never holds the same (location, slot-index) pair twice
/// in its consumption tracker.
pub proof fn lemma_consumption_idempotent(o: Optimizer)
    requires
        o.wf(),
    ensures
        forall|j1: int, j2: int|
            0 <= j1 < j2 < o.eaten@.len() ==> o.eaten@[j1] != o.eaten@[j2],
{
}

/// How many of the first `n` slots at location `l` the record marks
/// consumed.
pub open spec fn consumed_count(l: Loc, n: int, eaten: Seq<(Loc, usize)>) -> int
    decreases n,
{
    if n <= 0 {
        0
    } else {
        consumed_count(l, n - 1, eaten) + if eaten.contains((l, (n - 1) as usize)) {
            1int
        } else {
            0int
        }
    }
}

/// The number of traced chain slots over all entries.
pub open spec fn total_slots(ph: Seq<(Loc, Seq<ElemModel>)>) -> int
    decreases ph.len(),
{
    if ph.len() == 0 {
        0
    } else {
        total_slots(ph.drop_last()) + ph.last().1.len()
    }
}

/// The number of consumed chain slots over all entries.
pub open spec fn consumed_total(ph: Seq<(Loc, Seq<ElemModel>)>, eaten: Seq<(Loc, usize)>) -> int
    decreases ph.len(),
{
    if ph.len() == 0 {
        0
    } else {
        consumed_total(ph.drop_last(), eaten) + consumed_count(
            ph.last().0,
            ph.last().1.len() as int,
            eaten,
        )
    }
}

/// Within one entry, every slot is either emitted or consumed, never both:
/// emitted count plus consumed count is the slot count.
pub proof fn lemma_conservation_entry(l: Loc, chain: Seq<ElemModel>, eaten: Seq<(Loc, usize)>, n: int)
    requires
        n >= 0,
    ensures
        collect_entry(l, chain, eaten, n).len() + consumed_count(l, n, eaten) == n,
    decreases n,
{
    if n > 0 {
        lemma_conservation_entry(l, chain, eaten, n - 1);
    }
}

/// Conservation: every slot of every traced chain is accounted for exactly
/// once in the collected output — it is either emitted as one element or
/// marked consumed, never both and never neither.
pub proof fn lemma_conservation(ph: Seq<(Loc, Seq<ElemModel>)>, eaten: Seq<(Loc, usize)>)
    ensures
        spec_collect(ph, eaten).len() + consumed_total(ph, eaten) == total_slots(ph),
    decreases ph.len(),
{
    if ph.len() > 0 {
        lemma_conservation(ph.drop_last(), eaten);
        lemma_conservation_entry(ph.last().0, ph.last().1, eaten, ph.last().1.len() as int);
    }
}

/// Chaining correctness: two plain line segments of the same stroke that
/// share the chaining endpoint chain into exactly one oriented candidate,
/// and reducing that candidate into the tail yields the single line from
/// the tail's start to the other line's far end.
pub proof fn lemma_chain_then_reduce(s1: Point, e1: Point, s2: Point, e2: Point, st: Stroke)
    requires
        s2 == e1 || e2 == e1,
    ensures
        ({
            let tail = ElemModel::Line(s1, e1, st, Feature::Nothing);
            let other = ElemModel::Line(s2, e2, st, Feature::Nothing);
            let far = if s2 == e1 {
                e2
            } else {
                s2
            };
            let cand = if s2 == e1 {
                ElemModel::Line(s2, e2, st, Feature::Nothing)
            } else {
                ElemModel::Line(e2, s2, st, Feature::Nothing)
            };
            spec_try_chain(tail, other) == Some(seq![cand]) && spec_reduce(tail, cand) == Some(
                ElemModel::Line(s1, far, st, Feature::Nothing),
            )
        }),
{
}

/// Classification stability: no decorated line and no text label is ever
/// part of a solid or dashed unification bucket, and every decorated line
/// and text label of the input reappears unchanged in the merged output.
pub proof fn lemma_classification_stability(s: Seq<ElemModel>)
    ensures
        forall|i: int|
            0 <= i < s.filter(solid_pred()).len() ==> !is_decor(
                #[trigger] s.filter(solid_pred())[i],
            ) && !is_text_el(s.filter(solid_pred())[i]),
        forall|i: int|
            0 <= i < s.filter(dashed_pred()).len() ==> !is_decor(
                #[trigger] s.filter(dashed_pred())[i],
            ) && !is_text_el(s.filter(dashed_pred())[i]),
        forall|e: ElemModel|
            s.contains(e) && (is_decor(e) || is_text_el(e)) ==> #[trigger] spec_merge(s).contains(
                e,
            ),
{
    broadcast use vstd::prelude::Seq::lemma_filter_pred;

    assert forall|i: int|
        0 <= i < s.filter(solid_pred()).len() implies !is_decor(#[trigger] s.filter(solid_pred())[i])
        && !is_text_el(s.filter(solid_pred())[i]) by {
        assert(is_solid_member(s.filter(solid_pred())[i]));
    }
    assert forall|i: int|
        0 <= i < s.filter(dashed_pred()).len() implies !is_decor(
        #[trigger] s.filter(dashed_pred())[i],
    ) && !is_text_el(s.filter(dashed_pred())[i]) by {
        assert(is_dashed_member(s.filter(dashed_pred())[i]));
    }
    assert forall|e: ElemModel|
        s.contains(e) && (is_decor(e) || is_text_el(e)) implies #[trigger] spec_merge(s).contains(
        e,
    ) by {
        let i = choose|i: int| 0 <= i < s.len() && s[i] == e;
        if is_decor(e) {
            s.lemma_filter_contains(crate::optimizer::decor_pred(), i);
            let j = choose|j: int|
                0 <= j < s.filter(crate::optimizer::decor_pred()).len() && s.filter(
                    crate::optimizer::decor_pred(),
                )[j] == e;
            assert(spec_merge(s)[2 + j] == e);
        } else {
            s.lemma_filter_contains(crate::optimizer::text_pred(), i);
            let j = choose|j: int|
                0 <= j < s.filter(crate::optimizer::text_pred()).len() && s.filter(
                    crate::optimizer::text_pred(),
                )[j] == e;
            assert(spec_merge(s)[2 + s.filter(crate::optimizer::decor_pred()).len() + j] == e);
        }
    }
}

/// Determinism and settings-independence of the pass: the optimize result
/// is a function of the grid's models alone — two grids with equal models
/// give equal results, and no rendering setting enters the specification.
pub proof fn lemma_optimize_deterministic(
    g1: Seq<(Loc, Vec<crate::element::Element>)>,
    g2: Seq<(Loc, Vec<crate::element::Element>)>,
)
    requires
        crate::optimizer::grid_model(g1) == crate::optimizer::grid_model(g2),
    ensures
        crate::optimizer::spec_optimize(crate::optimizer::grid_model(g1))
            == crate::optimizer::spec_optimize(crate::optimizer::grid_model(g2)),
{
}

/// No character of `cs` is the move command letter.
pub open spec fn no_move(cs: Seq<char>) -> bool {
    forall|j: int| 0 <= j < cs.len() ==> cs[j] != 'M'
}

proof fn lemma_dec_str_no_move(n: int)
    ensures
        no_move(dec_str(n)),
    decreases n,
{
    if n <= 9 {
        assert(dec_str(n) =~= seq![digit_char(n)]);
    } else {
        lemma_dec_str_no_move(n / 10);
        assert(dec_str(n) =~= dec_str(n / 10).push(digit_char(n % 10)));
    }
}

proof fn lemma_int_str_no_move(v: int)
    ensures
        no_move(int_str(v)),
{
    lemma_dec_str_no_move(v);
    lemma_dec_str_no_move(-v);
}

proof fn lemma_point_str_no_move(p: Point)
    ensures
        no_move(point_str(p)),
{
    lemma_int_str_no_move(p.x as int);
    lemma_int_str_no_move(p.y as int);
}

/// A continuation command (a bare draw) holds no move command letter.
proof fn lemma_draw_no_move(e: ElemModel, last: Option<Point>)
    requires
        is_seg(e),
        last == Some(seg_start(e)),
    ensures
        no_move(cmd_str(e, last)),
{
    match e {
        ElemModel::Line(_, t, _, _) => {
            lemma_point_str_no_move(t);
            assert(cmd_str(e, last) =~= line_draw(t));
        },
        ElemModel::Arc(s, t, r, sw) => {
            lemma_point_str_no_move(t);
            lemma_int_str_no_move(r as int);
            assert(cmd_str(e, last) =~= arc_draw(t, r, sw));
        },
        _ => {},
    }
}

proof fn lemma_unify_data_continuous(s: Seq<ElemModel>, first: ElemModel)
    requires
        forall|i: int| 0 <= i < s.len() ==> is_seg(#[trigger] s[i]),
        s.len() > 0 ==> seg_start(s[0]) == seg_end(first),
        forall|i: int| 1 <= i < s.len() ==> seg_start(#[trigger] s[i]) == seg_end(s[i - 1]),
    ensures
        no_move(unify_data(s, Some(seg_end(first)))),
    decreases s.len(),
{
    if s.len() > 0 {
        lemma_draw_no_move(s[0], Some(seg_end(first)));
        assert forall|i: int| 0 <= i < s.drop_first().len() implies is_seg(
            #[trigger] s.drop_first()[i],
        ) by {
            assert(s.drop_first()[i] == s[i + 1]);
        }
        assert forall|i: int| 1 <= i < s.drop_first().len() implies seg_start(
            #[trigger] s.drop_first()[i],
        ) == seg_end(s.drop_first()[i - 1]) by {
            assert(s.drop_first()[i] == s[i + 1]);
            assert(s.drop_first()[i - 1] == s[i]);
        }
        if s.drop_first().len() > 0 {
            assert(s.drop_first()[0] == s[1]);
        }
        lemma_unify_data_continuous(s.drop_first(), s[0]);
    }
}

/// Unification continuity: when every segment starts exactly where the
/// previous one ended, the produced path data holds exactly one move
/// command, at the very front — every later segment continues the path.
pub proof fn lemma_unify_continuity(s: Seq<ElemModel>)
    requires
        s.len() > 0,
        forall|i: int| 0 <= i < s.len() ==> is_seg(#[trigger] s[i]),
        forall|i: int| 1 <= i < s.len() ==> seg_start(#[trigger] s[i]) == seg_end(s[i - 1]),
    ensures
        unify_data(s, None).len() > 0,
        unify_data(s, None)[0] == 'M',
        forall|j: int| 1 <= j < unify_data(s, None).len() ==> unify_data(s, None)[j] != 'M',
{
    let head = cmd_str(s[0], None);
    let rest = unify_data(s.drop_first(), Some(seg_end(s[0])));
    assert(unify_data(s, None) =~= head + rest);
    lemma_point_str_no_move(seg_start(s[0]));
    match s[0] {
        ElemModel::Line(_, t, _, _) => {
            lemma_point_str_no_move(t);
            assert(head =~= seq!['M', ' '] + point_str(seg_start(s[0])) + seq![' '] + line_draw(t));
        },
        ElemModel::Arc(_, t, r, sw) => {
            lemma_point_str_no_move(t);
            lemma_int_str_no_move(r as int);
            assert(head =~= seq!['M', ' '] + point_str(seg_start(s[0])) + seq![' '] + arc_draw(
                t,
                r,
                sw,
            ));
        },
        _ => {},
    }
    assert(head[0] == 'M');
    assert(forall|j: int| 1 <= j < head.len() ==> head[j] != 'M');
    assert forall|i: int| 0 <= i < s.drop_first().len() implies is_seg(
        #[trigger] s.drop_first()[i],
    ) by {
        assert(s.drop_first()[i] == s[i + 1]);
    }
    assert forall|i: int| 1 <= i < s.drop_first().len() implies seg_start(
        #[trigger] s.drop_first()[i],
    ) == seg_end(s.drop_first()[i - 1]) by {
        assert(s.drop_first()[i] == s[i + 1]);
        assert(s.drop_first()[i - 1] == s[i]);
    }
    if s.drop_first().len() > 0 {
        assert(s.drop_first()[0] == s[1]);
    }
    lemma_unify_data_continuous(s.drop_first(), s[0]);
}

} // verus!
