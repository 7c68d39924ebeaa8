//! The snapshot of the manual source tree that the assembler works on.
//!
//! The caller lists the manual's root directory and each section directory,
//! and hands the assembler one `SectionEntry` per subdirectory, carrying the
//! entries' paths and name stems as plain strings.

use vstd::prelude::*;
use crate::order::PathKeyed;
use crate::text::{lex_lt, spec_remainder, str_lex_lt};

verus! {

/// One item file inside a section directory: its path and its name stem.
pub struct ItemEntry {
    /// The file's path, handed back unchanged in the item's event.
    pub path: String,
    /// The file's name without its extension.
    pub stem: String,
}

/// One section subdirectory of the manual's root: its path, its name stem,
/// and the listing of the item files it holds, in no particular order.
pub struct SectionEntry {
    /// The directory's path, by which sections are ordered.
    pub path: String,
    /// The directory's name without its extension.
    pub stem: String,
    /// The files inside the directory.
    pub items: Vec<ItemEntry>,
}

impl PathKeyed for ItemEntry {
    open spec fn key(&self) -> Seq<char> {
        self.path@
    }

    fn key_lt(&self, other: &Self) -> (r: bool) {
        str_lex_lt(self.path.as_str(), other.path.as_str())
    }
}

impl PathKeyed for SectionEntry {
    open spec fn key(&self) -> Seq<char> {
        self.path@
    }

    fn key_lt(&self, other: &Self) -> (r: bool) {
        str_lex_lt(self.path.as_str(), other.path.as_str())
    }
}

/// A section entry the assembler accepts: the stem is non-empty and decodes
/// to a non-empty display name, and every item stem is non-empty.  A stem
/// that breaks this is a defect of the manual source tree.
pub open spec fn wf_section(s: SectionEntry) -> bool {
    &&& s.stem@.len() > 0
    &&& spec_remainder(s.stem@).len() > 0
    &&& forall|i: int| 0 <= i < s.items@.len() ==> (#[trigger] s.items@[i].stem)@.len() > 0
}

/// Whether every section of a listing is well formed.
pub open spec fn wf_sections(sections: Seq<SectionEntry>) -> bool {
    forall|i: int| 0 <= i < sections.len() ==> wf_section(#[trigger] sections[i])
}

} // verus!
