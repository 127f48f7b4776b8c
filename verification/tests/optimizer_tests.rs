use path_optimizer::element::Element;
use path_optimizer::geom::{Feature, Loc, Point, Settings, Stroke};
use path_optimizer::optimizer::Optimizer;
use path_optimizer::pathdata::unify;

fn line(x1: i64, y1: i64, x2: i64, y2: i64, stroke: Stroke, feature: Feature) -> Element {
    Element::Line(Point::new(x1, y1), Point::new(x2, y2), stroke, feature)
}

fn solid_line(x1: i64, y1: i64, x2: i64, y2: i64) -> Element {
    line(x1, y1, x2, y2, Stroke::Solid, Feature::Nothing)
}

#[test]
fn unify_continuation_no_redundant_move() {
    let elems = vec![solid_line(0, 0, 1, 0), solid_line(1, 0, 2, 0)];
    match unify(&elems, Stroke::Solid) {
        Element::Path(s, e, d, st) => {
            assert_eq!(d, "M 0 0 L 1 0 L 2 0");
            assert_eq!(s, Point::new(0, 0));
            assert_eq!(e, Point::new(2, 0));
            assert_eq!(st, Stroke::Solid);
        },
        _ => panic!("unify must return a path"),
    }
}

#[test]
fn unify_discontinuity_two_moves() {
    let elems = vec![solid_line(0, 0, 1, 0), solid_line(5, 5, 6, 5)];
    match unify(&elems, Stroke::Solid) {
        Element::Path(s, e, d, _) => {
            assert_eq!(d, "M 0 0 L 1 0 M 5 5 L 6 5");
            assert_eq!(d.matches('M').count(), 2);
            assert_eq!(s, Point::new(0, 0));
            assert_eq!(e, Point::new(6, 5));
        },
        _ => panic!("unify must return a path"),
    }
}

#[test]
fn unify_empty_input_degenerate_path() {
    let elems: Vec<Element> = vec![];
    match unify(&elems, Stroke::Dashed) {
        Element::Path(s, e, d, st) => {
            assert_eq!(d, "");
            assert_eq!(s, Point::new(0, 0));
            assert_eq!(e, Point::new(0, 0));
            assert_eq!(st, Stroke::Dashed);
        },
        _ => panic!("unify must return a path"),
    }
}

#[test]
fn unify_arc_commands() {
    let elems = vec![
        Element::Arc(Point::new(0, 0), Point::new(2, 2), 3, true),
        Element::Arc(Point::new(2, 2), Point::new(4, 0), 3, false),
    ];
    match unify(&elems, Stroke::Solid) {
        Element::Path(s, e, d, _) => {
            assert_eq!(d, "M 0 0 A 3 3 0 0 1 2 2 A 3 3 0 0 0 4 0");
            assert_eq!(s, Point::new(0, 0));
            assert_eq!(e, Point::new(4, 0));
        },
        _ => panic!("unify must return a path"),
    }
}

#[test]
fn unify_line_then_arc_continuation() {
    let elems = vec![solid_line(0, 0, 1, 1), Element::Arc(Point::new(1, 1), Point::new(3, 1), 2, false)];
    match unify(&elems, Stroke::Solid) {
        Element::Path(_, _, d, _) => {
            assert_eq!(d, "M 0 0 L 1 1 A 2 2 0 0 0 3 1");
        },
        _ => panic!("unify must return a path"),
    }
}

#[test]
fn unify_negative_coordinates() {
    let elems = vec![solid_line(-1, -2, 3, 4)];
    match unify(&elems, Stroke::Solid) {
        Element::Path(_, _, d, _) => {
            assert_eq!(d, "M -1 -2 L 3 4");
        },
        _ => panic!("unify must return a path"),
    }
}

#[test]
fn unify_extreme_coordinates() {
    let elems = vec![solid_line(i64::MAX, i64::MIN, 0, 0)];
    match unify(&elems, Stroke::Solid) {
        Element::Path(_, _, d, _) => {
            assert_eq!(d, "M 9223372036854775807 -9223372036854775808 L 0 0");
        },
        _ => panic!("unify must return a path"),
    }
}

#[test]
fn try_chain_forward_orientation() {
    let tail = solid_line(0, 0, 1, 0);
    let other = solid_line(1, 0, 2, 0);
    let cands = tail.try_chain(&other).expect("must chain");
    assert_eq!(cands.len(), 1);
    match &cands[0] {
        Element::Line(s, e, st, f) => {
            assert_eq!(*s, Point::new(1, 0));
            assert_eq!(*e, Point::new(2, 0));
            assert_eq!(*st, Stroke::Solid);
            assert_eq!(*f, Feature::Nothing);
        },
        _ => panic!("candidate must be a line"),
    }
}

#[test]
fn try_chain_reversed_orientation() {
    let tail = solid_line(0, 0, 1, 0);
    let other = solid_line(2, 0, 1, 0);
    let cands = tail.try_chain(&other).expect("must chain");
    assert_eq!(cands.len(), 1);
    match &cands[0] {
        Element::Line(s, e, _, _) => {
            assert_eq!(*s, Point::new(1, 0));
            assert_eq!(*e, Point::new(2, 0));
        },
        _ => panic!("candidate must be a line"),
    }
}

#[test]
fn try_chain_rejects_disconnected_and_mismatched() {
    let tail = solid_line(0, 0, 1, 0);
    assert!(tail.try_chain(&solid_line(5, 5, 6, 5)).is_none());
    assert!(tail.try_chain(&line(1, 0, 2, 0, Stroke::Dashed, Feature::Nothing)).is_none());
    assert!(tail.try_chain(&line(1, 0, 2, 0, Stroke::Solid, Feature::Arrow)).is_none());
    assert!(tail.try_chain(&Element::Text(Point::new(1, 0), String::from("x"))).is_none());
}

#[test]
fn chain_then_reduce_collinear_merge() {
    let tail = solid_line(0, 0, 1, 0);
    let other = solid_line(1, 0, 2, 0);
    let cands = tail.try_chain(&other).expect("must chain");
    let reduced = tail.reduce(&cands[0]).expect("must reduce");
    match reduced {
        Element::Line(s, e, st, f) => {
            assert_eq!(s, Point::new(0, 0));
            assert_eq!(e, Point::new(2, 0));
            assert_eq!(st, Stroke::Solid);
            assert_eq!(f, Feature::Nothing);
        },
        _ => panic!("reduced element must be a line"),
    }
}

#[test]
fn reduce_rejects_disconnected() {
    let tail = solid_line(0, 0, 1, 0);
    assert!(tail.reduce(&solid_line(3, 3, 4, 3)).is_none());
}

#[test]
fn directional_priority_right_before_bottom() {
    let grid = vec![
        (Loc::new(0, 0), vec![solid_line(0, 0, 1, 0)]),
        (Loc::new(1, 0), vec![solid_line(1, 0, 2, 0)]),
        (Loc::new(0, 1), vec![solid_line(1, 0, 1, 1)]),
    ];
    let mut o = Optimizer::new(grid.clone());
    let chain = grid[0].1.clone();
    let loc = Loc::new(0, 0);
    o.trace(&loc, &chain);
    assert!(!o.eaten.is_empty());
    assert_eq!(o.eaten[0].0, Loc::new(1, 0));
    assert_eq!(o.eaten[0].1, 0);
}

#[test]
fn trace_bottom_when_right_empty() {
    let grid = vec![
        (Loc::new(0, 0), vec![solid_line(0, 0, 1, 1)]),
        (Loc::new(0, 1), vec![solid_line(1, 1, 1, 2)]),
    ];
    let mut o = Optimizer::new(grid.clone());
    let chain = grid[0].1.clone();
    let loc = Loc::new(0, 0);
    o.trace(&loc, &chain);
    assert_eq!(o.eaten.len(), 1);
    assert_eq!(o.eaten[0], (Loc::new(0, 1), 0));
}

#[test]
fn trace_left_when_right_and_bottom_empty() {
    let grid = vec![
        (Loc::new(5, 5), vec![solid_line(0, 0, 1, 0)]),
        (Loc::new(4, 5), vec![solid_line(1, 0, 1, 5)]),
    ];
    let mut o = Optimizer::new(grid.clone());
    let chain = grid[0].1.clone();
    let loc = Loc::new(5, 5);
    o.trace(&loc, &chain);
    assert_eq!(o.eaten.len(), 1);
    assert_eq!(o.eaten[0], (Loc::new(4, 5), 0));
}

#[test]
fn trace_never_probes_up() {
    // The location above holds a chainable line, but tracing only probes
    // right, bottom and left, so nothing is absorbed.
    let grid = vec![
        (Loc::new(0, 0), vec![solid_line(0, 0, 1, 0)]),
        (Loc::new(0, -1), vec![solid_line(1, 0, 2, 0)]),
    ];
    let mut o = Optimizer::new(grid.clone());
    let chain = grid[0].1.clone();
    let loc = Loc::new(0, 0);
    o.trace(&loc, &chain);
    assert!(o.eaten.is_empty());
}

#[test]
fn consumption_never_duplicated() {
    let grid = vec![
        (Loc::new(0, 0), vec![solid_line(0, 0, 1, 0)]),
        (Loc::new(1, 0), vec![solid_line(1, 0, 2, 0), solid_line(2, 0, 3, 0)]),
    ];
    let mut o = Optimizer::new(grid.clone());
    for (loc, chain) in &grid {
        o.trace(loc, chain);
    }
    for a in 0..o.eaten.len() {
        for b in (a + 1)..o.eaten.len() {
            assert!(o.eaten[a] != o.eaten[b]);
        }
    }
}

#[test]
fn optimize_merges_adjacent_lines_and_conserves_slots() {
    let grid = vec![
        (Loc::new(0, 0), vec![solid_line(0, 0, 1, 0)]),
        (Loc::new(1, 0), vec![solid_line(1, 0, 2, 0)]),
    ];
    let out = Optimizer::optimize(&grid, &Settings::new());
    assert_eq!(out.len(), 1);
    match &out[0] {
        Element::Line(s, e, _, _) => {
            assert_eq!(*s, Point::new(0, 0));
            assert_eq!(*e, Point::new(2, 0));
        },
        _ => panic!("expected a merged line"),
    }
}

#[test]
fn optimize_disconnected_grid_keeps_everything() {
    let grid = vec![
        (Loc::new(0, 0), vec![solid_line(0, 0, 1, 0)]),
        (Loc::new(5, 5), vec![solid_line(50, 50, 51, 50)]),
    ];
    let out = Optimizer::optimize(&grid, &Settings::new());
    assert_eq!(out.len(), 2);
}

#[test]
fn optimize_empty_grid() {
    let grid: Vec<(Loc, Vec<Element>)> = vec![];
    let out = Optimizer::optimize(&grid, &Settings::new());
    assert!(out.is_empty());
}

#[test]
fn optimize_entry_with_no_primitives() {
    let grid = vec![(Loc::new(0, 0), Vec::<Element>::new())];
    let out = Optimizer::optimize(&grid, &Settings::new());
    assert!(out.is_empty());
}

#[test]
fn optimize_terminates_on_looping_chains() {
    // The two locations chain into each other in a loop; tracing must still
    // terminate because every absorption consumes a slot for good.  Here the
    // mutual absorption consumes every slot, so nothing is left to emit.
    let grid = vec![
        (Loc::new(0, 0), vec![solid_line(0, 0, 1, 0)]),
        (Loc::new(1, 0), vec![solid_line(1, 0, 0, 0), solid_line(0, 0, 1, 0)]),
    ];
    let out = Optimizer::optimize(&grid, &Settings::new());
    assert_eq!(out.len(), 0);
}

#[test]
fn all_eaten_and_half_eaten_track_slots() {
    let grid = vec![
        (Loc::new(0, 0), vec![solid_line(0, 0, 1, 0)]),
        (Loc::new(1, 0), vec![solid_line(1, 0, 2, 0), solid_line(9, 9, 8, 8)]),
    ];
    let mut o = Optimizer::new(grid.clone());
    let start = Loc::new(0, 0);
    let neighbor = Loc::new(1, 0);
    assert!(!o.half_eaten(&neighbor));
    assert!(!o.all_eaten(&neighbor));
    assert!(!o.all_eaten(&Loc::new(7, 7)));
    o.trace(&start, &grid[0].1);
    assert!(o.half_eaten(&neighbor));
    assert!(o.eaten(&neighbor, 0));
    assert!(!o.eaten(&neighbor, 1));
    assert!(!o.all_eaten(&neighbor));
}

#[test]
fn get_looks_locations_up() {
    let grid = vec![(Loc::new(2, 3), vec![solid_line(0, 0, 1, 0)])];
    let o = Optimizer::new(grid);
    assert!(o.get(&Loc::new(2, 3)).is_some());
    assert_eq!(o.get(&Loc::new(2, 3)).unwrap().len(), 1);
    assert!(o.get(&Loc::new(3, 2)).is_none());
}

#[test]
fn pick_finds_first_unconsumed_chainable() {
    let grid = vec![
        (Loc::new(1, 0), vec![
            Element::Text(Point::new(0, 0), String::from("a")),
            solid_line(1, 0, 2, 0),
        ]),
    ];
    let o = Optimizer::new(grid);
    let tail = solid_line(0, 0, 1, 0);
    let (index, cands) = o.pick(&Loc::new(1, 0), &tail).expect("must pick");
    assert_eq!(index, 1);
    assert_eq!(cands.len(), 1);
}

#[test]
fn merge_paths_orders_and_separates_classes() {
    let o = Optimizer::new(vec![]);
    let input = vec![
        line(0, 0, 1, 0, Stroke::Solid, Feature::Arrow),
        Element::Text(Point::new(9, 9), String::from("hi")),
        Element::Path(Point::new(7, 7), Point::new(8, 8), String::from("M 7 7 L 8 8"), Stroke::Solid),
        solid_line(0, 0, 1, 0),
        line(4, 4, 5, 4, Stroke::Dashed, Feature::Nothing),
        Element::Arc(Point::new(1, 0), Point::new(2, 1), 1, true),
        line(3, 3, 2, 2, Stroke::Dashed, Feature::Circle),
    ];
    let out = o.merge_paths(&input);
    assert_eq!(out.len(), 6);
    match &out[0] {
        Element::Path(_, _, d, st) => {
            assert_eq!(*st, Stroke::Solid);
            assert_eq!(d, "M 0 0 L 1 0 A 1 1 0 0 1 2 1");
        },
        _ => panic!("first output must be the unified solid path"),
    }
    match &out[1] {
        Element::Path(_, _, d, st) => {
            assert_eq!(*st, Stroke::Dashed);
            assert_eq!(d, "M 4 4 L 5 4");
        },
        _ => panic!("second output must be the unified dashed path"),
    }
    match &out[2] {
        Element::Line(_, _, _, f) => assert_eq!(*f, Feature::Arrow),
        _ => panic!("third output must be the arrow line"),
    }
    match &out[3] {
        Element::Line(_, _, _, f) => assert_eq!(*f, Feature::Circle),
        _ => panic!("fourth output must be the circle line"),
    }
    match &out[4] {
        Element::Text(p, t) => {
            assert_eq!(*p, Point::new(9, 9));
            assert_eq!(t, "hi");
        },
        _ => panic!("fifth output must be the text"),
    }
    match &out[5] {
        Element::Path(_, _, d, _) => assert_eq!(d, "M 7 7 L 8 8"),
        _ => panic!("sixth output must be the pass-through path"),
    }
}

#[test]
fn merge_paths_decorations_never_unified() {
    let o = Optimizer::new(vec![]);
    let input = vec![
        line(0, 0, 1, 0, Stroke::Solid, Feature::Arrow),
        line(1, 0, 2, 0, Stroke::Dashed, Feature::Circle),
    ];
    let out = o.merge_paths(&input);
    assert_eq!(out.len(), 4);
    match &out[0] {
        Element::Path(_, _, d, _) => assert_eq!(d, ""),
        _ => panic!("first output must be the (empty) solid path"),
    }
    match &out[1] {
        Element::Path(_, _, d, _) => assert_eq!(d, ""),
        _ => panic!("second output must be the (empty) dashed path"),
    }
    assert!(matches!(&out[2], Element::Line(_, _, _, Feature::Arrow)));
    assert!(matches!(&out[3], Element::Line(_, _, _, Feature::Circle)));
}

#[test]
fn absorb_merges_collinear_neighbor() {
    let loc = Loc::new(1, 0);
    let grid = vec![(loc, vec![solid_line(1, 0, 2, 0)])];
    let mut o = Optimizer::new(grid);
    let chain = vec![solid_line(0, 0, 1, 0)];
    let (out, ate) = o.absorb(&loc, chain);
    assert!(ate);
    assert_eq!(out.len(), 1);
    match &out[0] {
        Element::Line(s, e, _, _) => {
            assert_eq!(*s, Point::new(0, 0));
            assert_eq!(*e, Point::new(2, 0));
        },
        _ => panic!("absorbed chain must hold the merged line"),
    }
    assert_eq!(o.eaten.len(), 1);
    assert_eq!(o.eaten[0], (loc, 0));
}

#[test]
fn absorb_exhausts_colocated_primitives() {
    let loc = Loc::new(1, 0);
    let grid = vec![(loc, vec![solid_line(1, 0, 2, 0), solid_line(2, 0, 3, 0)])];
    let mut o = Optimizer::new(grid);
    let chain = vec![solid_line(0, 0, 1, 0)];
    let (out, ate) = o.absorb(&loc, chain);
    assert!(ate);
    assert_eq!(out.len(), 1);
    match &out[0] {
        Element::Line(s, e, _, _) => {
            assert_eq!(*s, Point::new(0, 0));
            assert_eq!(*e, Point::new(3, 0));
        },
        _ => panic!("absorbed chain must hold the merged line"),
    }
    assert_eq!(o.eaten.len(), 2);
    assert_eq!(o.eaten[0], (loc, 0));
    assert_eq!(o.eaten[1], (loc, 1));
}
