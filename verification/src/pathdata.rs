//! The path unifier: serializes a run of same-stroke line/arc segments into
//! one compound path, deciding between a "continue" command and a
//! "move-then-draw" command by positional continuity.  The produced
//! path-data string is pinned down exactly, character by character.

use vstd::prelude::*;
use crate::geom::{Point, Stroke};
use crate::element::{Element, ElemModel, views};
use crate::numfmt::{int_str, push_i64, push_space};

verus! {

/// Is `e` a segment the unifier accepts (a line or an arc)?
pub open spec fn is_seg(e: ElemModel) -> bool {
    e is Line || e is Arc
}

/// The start point of a segment.
pub open spec fn seg_start(e: ElemModel) -> Point {
    match e {
        ElemModel::Line(s, _, _, _) => s,
        ElemModel::Arc(s, _, _, _) => s,
        ElemModel::Text(p, _) => p,
        ElemModel::Path(s, _, _, _) => s,
    }
}

/// The end point of a segment.
pub open spec fn seg_end(e: ElemModel) -> Point {
    match e {
        ElemModel::Line(_, e, _, _) => e,
        ElemModel::Arc(_, e, _, _) => e,
        ElemModel::Text(p, _) => p,
        ElemModel::Path(_, e, _, _) => e,
    }
}

/// `x y` for a point.
pub open spec fn point_str(p: Point) -> Seq<char> {
    int_str(p.x as int) + seq![' '] + int_str(p.y as int)
}

/// `L x y`: draw a straight segment to `t`.
pub open spec fn line_draw(t: Point) -> Seq<char> {
    seq!['L', ' '] + point_str(t)
}

/// `A r r 0 0 sweep x y`: draw an elliptical arc to `t` with both radii
/// `r`, zero rotation, large-arc flag 0, and the sweep direction of `sw`.
pub open spec fn arc_draw(t: Point, r: i64, sw: bool) -> Seq<char> {
    seq!['A', ' '] + int_str(r as int) + seq![' '] + int_str(r as int)
        + seq![' ', '0', ' ', '0', ' '] + (if sw { seq!['1'] } else { seq!['0'] })
        + seq![' '] + point_str(t)
}

/// The command one segment contributes, given the running last endpoint:
/// a bare draw when its start equals that endpoint, else a move followed
/// by the draw (beginning a new disconnected subpath).
pub open spec fn cmd_str(e: ElemModel, last: Option<Point>) -> Seq<char> {
    let cont = last == Some(seg_start(e));
    let draw = match e {
        ElemModel::Line(_, t, _, _) => line_draw(t),
        ElemModel::Arc(_, t, r, sw) => arc_draw(t, r, sw),
        _ => Seq::empty(),
    };
    if cont {
        draw
    } else {
        seq!['M', ' '] + point_str(seg_start(e)) + seq![' '] + draw
    }
}

/// The separator written before a command: a single space, except before
/// the very first command.
pub open spec fn sep_str(last: Option<Point>) -> Seq<char> {
    if last is Some {
        seq![' ']
    } else {
        Seq::empty()
    }
}

/// The running last endpoint after processing `s`, starting from `l0`.
pub open spec fn run_last(s: Seq<ElemModel>, l0: Option<Point>) -> Option<Point> {
    if s.len() == 0 {
        l0
    } else {
        Some(seg_end(s.last()))
    }
}

/// The whole path-data string for `s`, starting from last endpoint `l0`.
pub open spec fn unify_data(s: Seq<ElemModel>, l0: Option<Point>) -> Seq<char>
    decreases s.len(),
{
    if s.len() == 0 {
        Seq::empty()
    } else {
        sep_str(l0) + cmd_str(s[0], l0) + unify_data(s.drop_first(), Some(seg_end(s[0])))
    }
}

/// The unified path for `s`: its start is the first segment's start, its
/// end the last segment's end; an empty input yields a degenerate path at
/// the origin with empty data.
pub open spec fn spec_unify(s: Seq<ElemModel>, stroke: Stroke) -> ElemModel {
    if s.len() == 0 {
        ElemModel::Path(Point { x: 0, y: 0 }, Point { x: 0, y: 0 }, Seq::empty(), stroke)
    } else {
        ElemModel::Path(seg_start(s[0]), seg_end(s.last()), unify_data(s, None), stroke)
    }
}

/// Processing one more segment appends one separator and one command,
/// decided by the running last endpoint so far.
pub proof fn lemma_unify_data_push(s: Seq<ElemModel>, l0: Option<Point>, x: ElemModel)
    ensures
        unify_data(s.push(x), l0) == unify_data(s, l0) + sep_str(run_last(s, l0))
            + cmd_str(x, run_last(s, l0)),
    decreases s.len(),
{
    if s.len() == 0 {
        assert(s.push(x)[0] == x);
        assert(s.push(x).drop_first() =~= Seq::<ElemModel>::empty());
        assert(unify_data(s.push(x).drop_first(), Some(seg_end(x))) == Seq::<char>::empty());
        assert(unify_data(s.push(x), l0) =~= unify_data(s, l0) + sep_str(run_last(s, l0))
            + cmd_str(x, run_last(s, l0)));
    } else {
        assert(s.push(x).drop_first() =~= s.drop_first().push(x));
        lemma_unify_data_push(s.drop_first(), Some(seg_end(s[0])), x);
        assert(run_last(s.drop_first(), Some(seg_end(s[0]))) == run_last(s, l0));
        assert(unify_data(s.push(x), l0) =~= unify_data(s, l0) + sep_str(run_last(s, l0))
            + cmd_str(x, run_last(s, l0)));
    }
}

/// Serialize same-stroke line/arc segments into one compound [`Element::Path`].
/// Text and already-unified path elements are never accepted here.
pub fn unify(elements: &Vec<Element>, stroke: Stroke) -> (r: Element)
    requires
        forall|i: int| 0 <= i < elements@.len() ==> is_seg(#[trigger] elements@[i]@),
    ensures
        r@ == spec_unify(views(elements@), stroke),
{
    let ghost vs = views(elements@);
    let mut paths = String::new();
    let mut last_loc: Option<Point> = None;
    let mut start: Option<Point> = None;
    let mut i: usize = 0;
    while i < elements.len()
        invariant
            i <= elements@.len(),
            vs == views(elements@),
            vs.len() == elements@.len(),
            forall|j: int| 0 <= j < elements@.len() ==> is_seg(#[trigger] elements@[j]@),
            forall|j: int| 0 <= j < elements@.len() ==> vs[j] == elements@[j]@,
            paths@ == unify_data(vs.take(i as int), None),
            last_loc == run_last(vs.take(i as int), None),
            start == (if i == 0 { None::<Point> } else { Some(seg_start(vs[0])) }),
        decreases elements@.len() - i,
    {
        let ghost pre = vs.take(i as int);
        let ghost lastm = run_last(pre, None::<Point>);
        proof {
            assert(vs.take(i + 1) =~= pre.push(vs[i as int]));
            lemma_unify_data_push(pre, None, vs[i as int]);
        }
        match &elements[i] {
            Element::Line(s, e, _, _) => {
                if start.is_none() {
                    start = Some(*s);
                }
                let match_last_loc = match &last_loc {
                    Some(lp) => *s == *lp,
                    None => false,
                };
                if match_last_loc {
                    push_space(&mut paths);
                    append_line_draw(&mut paths, *e);
                } else {
                    if i > 0 {
                        push_space(&mut paths);
                    }
                    append_move(&mut paths, *s);
                    push_space(&mut paths);
                    append_line_draw(&mut paths, *e);
                }
                last_loc = Some(*e);
            },
            Element::Arc(s, e, rad, sw) => {
                if start.is_none() {
                    start = Some(*s);
                }
                let match_last_loc = match &last_loc {
                    Some(lp) => *s == *lp,
                    None => false,
                };
                if match_last_loc {
                    push_space(&mut paths);
                    append_arc_draw(&mut paths, *e, *rad, *sw);
                } else {
                    if i > 0 {
                        push_space(&mut paths);
                    }
                    append_move(&mut paths, *s);
                    push_space(&mut paths);
                    append_arc_draw(&mut paths, *e, *rad, *sw);
                }
                last_loc = Some(*e);
            },
            _ => {
                proof {
                    assert(false);
                }
            },
        }
        proof {
            assert(paths@ =~= unify_data(vs.take(i + 1), None));
        }
        i += 1;
    }
    proof {
        assert(vs.take(vs.len() as int) =~= vs);
    }
    let el_start = match &start {
        Some(s) => *s,
        None => Point::new(0, 0),
    };
    let el_end = match &last_loc {
        Some(e) => *e,
        None => Point::new(0, 0),
    };
    Element::Path(el_start, el_end, paths, stroke)
}

/// Append `M x y` for `p`.
fn append_move(s: &mut String, p: Point)
    ensures
        final(s)@ == old(s)@ + seq!['M', ' '] + point_str(p),
{
    proof {
        reveal_strlit("M ");
    }
    s.append("M ");
    proof {
        assert(s@ =~= old(s)@ + seq!['M', ' ']);
    }
    append_point(s, p);
}

/// Append `L x y` for `p`.
fn append_line_draw(s: &mut String, p: Point)
    ensures
        final(s)@ == old(s)@ + line_draw(p),
{
    proof {
        reveal_strlit("L ");
    }
    s.append("L ");
    proof {
        assert(s@ =~= old(s)@ + seq!['L', ' ']);
    }
    append_point(s, p);
}

/// Append `A r r 0 0 sweep x y`.
fn append_arc_draw(s: &mut String, p: Point, r: i64, sw: bool)
    ensures
        final(s)@ == old(s)@ + arc_draw(p, r, sw),
{
    proof {
        reveal_strlit("A ");
        reveal_strlit(" 0 0 ");
        reveal_strlit("1");
        reveal_strlit("0");
    }
    s.append("A ");
    push_i64(s, r);
    push_space(s);
    push_i64(s, r);
    s.append(" 0 0 ");
    if sw {
        s.append("1");
    } else {
        s.append("0");
    }
    push_space(s);
    append_point(s, p);
    proof {
        assert(s@ =~= old(s)@ + arc_draw(p, r, sw));
    }
}

/// Append `x y` for `p`.
fn append_point(s: &mut String, p: Point)
    ensures
        final(s)@ == old(s)@ + point_str(p),
{
    push_i64(s, p.x);
    push_space(s);
    push_i64(s, p.y);
    proof {
        assert(s@ =~= old(s)@ + point_str(p));
    }
}

} // verus!
