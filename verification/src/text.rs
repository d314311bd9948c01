//! The on-screen text entity kind.

use vstd::prelude::*;

use crate::traits::ManageTarget;

verus! {

/// An on-screen text entity.  Position is kept in fixed milli-units and
/// the font size in milli-points; the repository never looks at any of
/// them.
#[derive(Debug, Clone, PartialEq, Eq)]
pub struct Text {
    label: String,
    /// The string shown on screen.
    pub value: String,
    /// The filename of the font used to render the value.
    pub font: String,
    /// Font size, in milli-points.
    pub font_size_milli: u64,
    /// Horizontal position, in milli-units.
    pub translation_x: i64,
    /// Vertical position, in milli-units.
    pub translation_y: i64,
}

impl ManageTarget for Text {
    closed spec fn label_view(&self) -> Seq<char> {
        self.label@
    }

    fn new(label: &str, path: &str) -> (r: Self) {
        Text {
            label: label.to_owned(),
            value: path.to_owned(),
            font: String::new(),
            font_size_milli: 30000,
            translation_x: 0,
            translation_y: 0,
        }
    }

    fn label(&self) -> (r: &str) {
        self.label.as_str()
    }
}

} // verus!
