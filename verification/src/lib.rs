//! A layer of an editor's display that shows other text in the stead of ranges of
//! a buffer.
//!
//! The layer below hands over a text, *fold space*, and edits of it. This layer
//! displays that text with the concealed ranges replaced, *conceal space*: a
//! [`ConcealMap`] holds what is concealed and what of it is revealed, follows the
//! text below, and gives out [`ConcealSnapshot`]s of the displayed text. These
//! lead from points and offsets of one space to those of the other, and read the
//! displayed text by chunk, by row and by character.

pub mod animation;
pub mod apart;
pub mod bits;
pub mod chunks;
pub mod clipping;
pub mod coords;
pub mod counting;
pub mod cursor;
pub mod display;
pub mod edits;
pub mod fold;
pub mod follow;
pub mod grow;
pub mod hiding;
pub mod indices;
pub mod laws;
pub mod layout;
pub mod lengths;
pub mod limits;
pub mod map;
pub mod mapping;
pub mod meaning;
pub mod patches;
pub mod point_cursor;
pub mod point_laws;
pub mod points;
pub mod reading;
pub mod resolve;
pub mod reveals;
pub mod rows;
pub mod snapshot;
pub mod sync;
pub mod text;
pub mod tidiness;
pub mod transform;
pub mod within;

pub use chunks::ConcealChunks;
pub use coords::{Bias, ConcealOffset, ConcealPoint, FoldOffset, FoldPoint, MBTextSummary, Point};
pub use edits::{ConcealEdit, Edit, FoldEdit};
pub use map::ConcealMap;
pub use point_cursor::ConcealPointCursor;
pub use rows::ConcealRows;
pub use snapshot::ConcealSnapshot;
