//! Path optimizer for grid-anchored diagram primitives.
//!
//! Primitives (lines, arcs, text labels) are indexed by the grid cell they
//! originate from.  The optimizer chains adjacent connectable primitives into
//! longer continuous paths, records which slots were absorbed so that no
//! primitive is emitted twice, and groups the survivors by visual class,
//! unifying each stroke class into a single compound path.

pub mod geom;
pub mod element;
pub mod numfmt;
pub mod pathdata;
pub mod optimizer;
pub mod laws;
