//! Training-free vector quantization and search.
//!
//! Vectors are rotated by a randomized Hadamard transform, quantized coordinate
//! by coordinate with fixed Lloyd-Max tables of four, five or six bits, and
//! scored against queries that are not quantized. An index lives in memory, in a
//! single file, or in a view over the bytes of such a file.
//!
//! Numbers are binary32 bit patterns. What is done with them is fixed down to
//! the order of every operation; the operations themselves are handed in by the
//! caller, as a function on patterns (see [`arith`]).
//!
//! - [`lloyd`], [`rhdh`], [`codes`], [`half`], [`bytes`]: tables, transform,
//!   packing and number formats.
//! - [`score`], [`topk`], [`search`]: scoring kernels and selection.
//! - [`state`]: the mathematical model of an index.
//! - [`store`], [`format`], [`view`], [`message`]: the index, its file, and the
//!   view.
//! - [`storing`], [`rotating`], [`scoring`], [`results`], [`layout`], [`decimal`]:
//!   laws of each operation, in terms of what goes in and what comes out.
//! - [`answers`], [`edits`], [`history`], [`reload`], [`variants`], [`energy`],
//!   [`rounding`], [`spread`], [`similarity`]: laws that relate several calls, and
//!   what scores are worth.
//! - [`recall`], [`dataset`]: ground truth and data for measurements.

pub mod answers;
pub mod arith;
pub mod bytes;
pub mod codes;
pub mod dataset;
pub mod decimal;
pub mod edits;
pub mod energy;
pub mod format;
pub mod half;
pub mod history;
pub mod keymap;
pub mod layout;
pub mod lloyd;
pub mod message;
pub mod recall;
pub mod reload;
pub mod results;
pub mod rhdh;
pub mod rotating;
pub mod rounding;
pub mod score;
pub mod scoring;
pub mod search;
pub mod similarity;
pub mod spread;
pub mod state;
pub mod store;
pub mod storing;
pub mod topk;
pub mod variants;
pub mod view;

pub use store::{cosine_f32, PreparedQuery, VecqIndex};
pub use view::VecqView;
