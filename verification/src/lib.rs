//! A study aid for Mandarin Chinese, built around two engines.
//!
//! The alignment engine splits a Chinese sentence and its romanized
//! transcription into matching segments, resolving ambiguity against a
//! dictionary of known words ([`align`], [`exercise`]). The scheduling
//! engine keeps a per-word spaced-repetition memory model and picks, at
//! each step, the next word to drill and the drill record that fits it
//! best ([`memory`], [`model`]).
//!
//! Every executable function is specified against a mathematical model of
//! its data and verified; calls into the dictionary and the pinyin
//! renderer stand behind small trusted wrappers whose contracts name what
//! those crates return.

use vstd::prelude::*;

pub mod align;
pub mod dict;
pub mod exercise;
pub mod memory;
pub mod model;
pub mod pinyin;
pub mod text;

verus! {

} // verus!
