//! Classification of manual entries.

use vstd::prelude::*;

verus! {

/// Classification of a manual entry, decoded from the first character of a
/// file or directory name stem.
#[derive(Clone, Copy, Debug, PartialEq, Eq, Structural)]
pub enum ManualItem {
    Regular,
    Tool,
    Texture,
}

/// The classification a stem's first character encodes, case-insensitively:
/// `'S'` and `'T'` mark a tool entry, `'X'` a texture entry, any other
/// character a regular one.
pub open spec fn kind_of_char(c: char) -> ManualItem {
    if c == 'S' || c == 's' || c == 'T' || c == 't' {
        ManualItem::Tool
    } else if c == 'X' || c == 'x' {
        ManualItem::Texture
    } else {
        ManualItem::Regular
    }
}

impl From<char> for ManualItem {
    fn from(value: char) -> (r: Self)
        ensures
            r == kind_of_char(value),
    {
        if value == 'S' || value == 's' || value == 'T' || value == 't' {
            ManualItem::Tool
        } else if value == 'X' || value == 'x' {
            ManualItem::Texture
        } else {
            ManualItem::Regular
        }
    }
}

impl vstd::std_specs::convert::FromSpecImpl<char> for ManualItem {
    open spec fn obeys_from_spec() -> bool {
        true
    }

    open spec fn from_spec(v: char) -> Self {
        kind_of_char(v)
    }
}

} // verus!
