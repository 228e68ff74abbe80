//! Parsing, navigation and refinement of version-control merge conflicts.
//!
//! A document is a [`ropey::Rope`]. [`find_conflicts`] parses the conflict regions of a
//! document, in the two-way and three-way formats of git and in the formats of jj, into
//! [`ConflictRegion`]s that are made of [`Section`]s. The other functions work on such
//! regions:
//!
//! - [`locate`]: in which conflict and section a position is, which conflict is next, and
//!   which lines are markers;
//! - [`content`]: the text of the sides and the base, and the versions that a section
//!   written as a unified diff stands for;
//! - [`pairs`]: which two sections are compared with each other;
//! - [`refine`]: what differs between two sections, by lines, words and characters;
//! - [`words`]: which words of a section differ from those of another text.
//!
//! All positions are character indices into the document.
//!
//! What a function returns is stated in its contract, over the characters of the document
//! ([`text::rope_chars`]). Comparison rests on the histogram algorithm of `imara_diff`,
//! whose choice of hunks has a name, [`diff::histogram_hunks`]; everything around it is
//! stated and proved.
//!
//! [`laws`], [`append`] and [`written`] state what holds of every document: among others,
//! that each conflict is found, that no text of it is lost, and that a conflict that was
//! written in one of the formats is read back as it was written. [`agreement`] and
//! [`change`] state what holds of every comparison: that what the differ keeps is not
//! reported and all else is, and that a single changed word is reported alone.

pub mod agreement;
pub mod append;
pub mod change;
pub mod content;
pub mod diff;
pub mod laws;
pub mod locate;
pub mod pairs;
pub mod parse;
pub mod refine;
pub mod region;
pub mod text;
pub mod tokens;
pub mod words;
pub mod written;

pub use content::{
    all_sides_content, base_content, current_content, incoming_content, resolve_diff_content,
    resolve_diff_content_base,
};
pub use locate::{
    conflict_at, conflict_marker_lines, conflict_section_at, next_conflict, prev_conflict,
};
pub use pairs::{
    conflict_pair_sections, conflict_refine_pair, ConflictCache, ConflictRefineEntry, RefineDiffs,
};
pub use parse::find_conflicts;
pub use refine::refine_diff;
pub use region::{ConflictRegion, Section, SectionKind};
pub use words::{refine_diff_section, refine_side_diff_added, refine_side_with_base};
