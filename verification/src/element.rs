//! The renderable primitives and the capability protocol the tracer relies
//! on: `try_chain` (can one primitive extend a chain ending at another,
//! possibly reversed?) and `reduce` (do two chainable primitives collapse
//! into one simplified primitive?).

use vstd::prelude::*;
use crate::geom::{Point, Stroke, Feature};

verus! {

/// A renderable primitive.
pub enum Element {
    /// A straight segment: start, end, stroke class, end decoration.
    Line(Point, Point, Stroke, Feature),
    /// An elliptical arc: start, end, radius (both radii equal), sweep flag.
    Arc(Point, Point, i64, bool),
    /// A text label at a position.
    Text(Point, String),
    /// An already-unified compound path: start, end, path data, stroke class.
    Path(Point, Point, String, Stroke),
}

/// The mathematical model of an [`Element`]: the same shape with the string
/// payloads abstracted to character sequences.
pub enum ElemModel {
    Line(Point, Point, Stroke, Feature),
    Arc(Point, Point, i64, bool),
    Text(Point, Seq<char>),
    Path(Point, Point, Seq<char>, Stroke),
}

impl View for Element {
    type V = ElemModel;

    open spec fn view(&self) -> ElemModel {
        match self {
            Element::Line(s, e, st, f) => ElemModel::Line(*s, *e, *st, *f),
            Element::Arc(s, e, r, sw) => ElemModel::Arc(*s, *e, *r, *sw),
            Element::Text(p, t) => ElemModel::Text(*p, t@),
            Element::Path(s, e, d, st) => ElemModel::Path(*s, *e, d@, *st),
        }
    }
}

/// The models of a sequence of elements.
pub open spec fn views(s: Seq<Element>) -> Seq<ElemModel> {
    s.map_values(|e: Element| e@)
}

impl Clone for Element {
    fn clone(&self) -> (r: Element)
        ensures
            r@ == self@,
    {
        match self {
            Element::Line(s, e, st, f) => Element::Line(*s, *e, *st, *f),
            Element::Arc(s, e, r, sw) => Element::Arc(*s, *e, *r, *sw),
            Element::Text(p, t) => Element::Text(*p, t.clone()),
            Element::Path(s, e, d, st) => Element::Path(*s, *e, d.clone(), *st),
        }
    }
}

/// What `try_chain` answers: whether `other` can extend a chain whose tail is
/// `tail`, and if so, the oriented candidates to append.  Only plain line
/// segments chain: both must be `Line`s with feature `Nothing` and the same
/// stroke, and `other` must touch the tail's end point, in either
/// orientation (it is reversed when its end is the connecting point).
pub open spec fn spec_try_chain(tail: ElemModel, other: ElemModel) -> Option<Seq<ElemModel>> {
    match (tail, other) {
        (ElemModel::Line(_s1, e1, st1, f1), ElemModel::Line(s2, e2, st2, f2)) => {
            if st1 == st2 && f1 == Feature::Nothing && f2 == Feature::Nothing {
                if s2 == e1 {
                    Some(seq![ElemModel::Line(s2, e2, st2, f2)])
                } else if e2 == e1 {
                    Some(seq![ElemModel::Line(e2, s2, st2, f2)])
                } else {
                    None
                }
            } else {
                None
            }
        },
        _ => None,
    }
}

/// What `reduce` answers: whether a just-absorbed candidate collapses with
/// the chain tail into one simplified primitive.  Two plain line segments of
/// the same stroke whose endpoints meet merge into a single line spanning
/// from the tail's start to the candidate's end.
pub open spec fn spec_reduce(tail: ElemModel, candidate: ElemModel) -> Option<ElemModel> {
    match (tail, candidate) {
        (ElemModel::Line(s1, e1, st1, f1), ElemModel::Line(s2, e2, st2, f2)) => {
            if st1 == st2 && f1 == Feature::Nothing && f2 == Feature::Nothing && s2 == e1 {
                Some(ElemModel::Line(s1, e2, st1, Feature::Nothing))
            } else {
                None
            }
        },
        _ => None,
    }
}

impl Element {
    /// Can `other` extend a chain whose tail is `self`?  On success, returns
    /// the oriented candidates describing how `other` is appended.
    pub fn try_chain(&self, other: &Element) -> (r: Option<Vec<Element>>)
        ensures
            r is Some <==> spec_try_chain(self@, other@) is Some,
            r is Some ==> views(r->Some_0@) == spec_try_chain(self@, other@)->Some_0,
    {
        match (self, other) {
            (Element::Line(_s1, e1, st1, f1), Element::Line(s2, e2, st2, f2)) => {
                if *st1 == *st2 && *f1 == Feature::Nothing && *f2 == Feature::Nothing {
                    if *s2 == *e1 {
                        let v = vec![Element::Line(*s2, *e2, *st2, *f2)];
                        proof {
                            assert(views(v@) =~= spec_try_chain(self@, other@)->Some_0);
                        }
                        Some(v)
                    } else if *e2 == *e1 {
                        let v = vec![Element::Line(*e2, *s2, *st2, *f2)];
                        proof {
                            assert(views(v@) =~= spec_try_chain(self@, other@)->Some_0);
                        }
                        Some(v)
                    } else {
                        None
                    }
                } else {
                    None
                }
            },
            _ => None,
        }
    }

    /// Do `self` (the chain tail) and a just-absorbed `candidate` collapse
    /// into a single simplified primitive?
    pub fn reduce(&self, candidate: &Element) -> (r: Option<Element>)
        ensures
            r is Some <==> spec_reduce(self@, candidate@) is Some,
            r is Some ==> r->0@ == spec_reduce(self@, candidate@)->Some_0,
    {
        match (self, candidate) {
            (Element::Line(s1, e1, st1, f1), Element::Line(s2, e2, st2, f2)) => {
                if *st1 == *st2 && *f1 == Feature::Nothing && *f2 == Feature::Nothing && *s2 == *e1 {
                    Some(Element::Line(*s1, *e2, *st1, Feature::Nothing))
                } else {
                    None
                }
            },
            _ => None,
        }
    }
}

/// Clone a vector of elements, preserving every model.
pub fn clone_elements(v: &Vec<Element>) -> (r: Vec<Element>)
    ensures
        views(r@) == views(v@),
{
    let mut r: Vec<Element> = Vec::new();
    let mut i: usize = 0;
    while i < v.len()
        invariant
            i <= v.len(),
            r@.len() == i,
            forall|j: int| 0 <= j < i ==> r@[j]@ == v@[j]@,
        decreases v.len() - i,
    {
        r.push(v[i].clone());
        i += 1;
    }
    proof {
        assert(views(r@) =~= views(v@));
    }
    r
}

} // verus!
