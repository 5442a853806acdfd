//! Red-Blue Hackenbush with exact values.
//!
//! A position is a graph anchored at the ground whose edges belong to Blue or
//! to Red; a move cuts an edge of the mover's colour, and whatever the cut
//! disconnects from the ground falls away. The value of a position is a
//! surreal number, held as an identity of a table that grows one generation
//! at a time.
//!
//! - [`surreals`]: the table, its constructions and identities;
//!   [`arena`] and [`order`] are its model, [`growth`], [`identity`] and
//!   [`lineage`] what is proved of it.
//! - [`hackenbush`]: positions and moves; [`board`] is their model, [`cuts`]
//!   what is proved of pairs of moves, [`graph`] and [`chance`] the
//!   operations taken from `petgraph` and `rand`.
//! - [`computer`]: the search; [`worth`] states the value it computes,
//!   [`choices`] and [`valuation`] what is proved of it, and [`settling`]
//!   that every valid position has a value.
pub mod arena;
pub mod board;
pub mod chance;
pub mod choices;
pub mod computer;
pub mod cuts;
pub mod error;
pub mod graph;
pub mod growth;
pub mod hackenbush;
pub mod identity;
pub mod lineage;
pub mod order;
pub mod settling;
pub mod surreals;
pub mod valuation;
pub mod worth;
