//! The core of a join at the level of syntax: blocks of ordinary code are
//! analysed, rewritten and run as the strands of one fairly polled
//! computation.
//!
//! * [`syntax`] holds the tree that the passes work on, and its model.
//! * [`scope`] tracks which names are local at a point of a walk.
//! * [`path`] orders the paths of captures; [`sites`] finds the captures of a
//!   block; [`arbitrate`] decides which of them the blocks must share through
//!   a cell; [`captures`] redirects the references to those.
//! * [`trys`] makes fallible steps explicit, [`breaks`] turns the exits that
//!   leave a block into tagged results, [`awaits`] gives the cell free around
//!   suspension points.
//! * [`expand`] runs the passes in their order; [`strands`] proves what
//!   holds of the blocks that come out.
//! * [`scheduler`] is the poll round that drives the strands.
//! * [`polyfill`] holds the traits that an explicit fallible step calls.

pub mod arbitrate;
pub mod awaits;
pub mod breaks;
pub mod captures;
pub mod expand;
pub mod path;
pub mod polyfill;
pub mod scheduler;
pub mod scope;
pub mod sites;
pub mod strands;
pub mod syntax;
pub mod trys;

pub use expand::{join, join_auto_borrow};
