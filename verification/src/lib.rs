//! Exhaustive search for the assemblies of a set of rigid pieces on a
//! cylindrical grid of 6 x 3 x 2 cells.
//!
//! An assembly places every piece within a target shape so that no two pieces
//! share a cell and a given set of cells is filled. A piece can be moved
//! around the cylinder, moved up, and mirrored; it cannot be turned otherwise.
//!
//! - [`geometry`]: pieces, placements, and the cells a placed piece occupies
//!   ([`piece_to_matrix`]).
//! - [`placement`]: all placements of a piece ([`positions_for_pieces`]) and
//!   its candidates for a target ([`get_matrices_for_piece`]).
//! - [`search`]: what the assemblies are, and the laws they obey.
//! - [`engine`]: the backtracking walk that lists them ([`find_assemblies`]).
//! - [`puzzle`]: the target, the cells to fill and the pieces of the puzzle
//!   that the library was made for.
//! - [`volume`]: the bit-array of occupied cells. It is `bitvec`'s, and its
//!   operations are the one part of the library that is trusted, not proved.

pub mod engine;
pub mod geometry;
pub mod placement;
pub mod puzzle;
pub mod search;
pub mod volume;

pub use engine::find_assemblies;
pub use geometry::{piece_fits, piece_in_depth, piece_to_matrix, Coord, Piece, Position};
pub use placement::{get_matrices_for_piece, positions_for_pieces};
pub use puzzle::{build_pieces, build_target_shape, must_fill_shape};
pub use volume::PuzzArray;
