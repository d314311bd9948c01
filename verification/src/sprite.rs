//! The visual entity kind.

use vstd::prelude::*;

use crate::traits::ManageTarget;

verus! {

/// A visual entity.  Position, rotation and scale are kept in fixed
/// milli-units, the rotation in milli-degrees; the repository never
/// looks at any of them.
#[derive(Debug, Clone, PartialEq, Eq)]
pub struct Sprite {
    label: String,
    /// Where the image for this sprite lives, as handed to creation.
    pub filepath: String,
    /// Horizontal position, in milli-units.
    pub translation_x: i64,
    /// Vertical position, in milli-units.
    pub translation_y: i64,
    /// Rotation, in milli-degrees.
    pub rotation_mdeg: i64,
    /// Scale, in thousandths; one thousand is natural size.
    pub scale_milli: u64,
    /// Drawing layer; higher layers are drawn on top.
    pub layer: i32,
    /// Whether the engine should report collisions for this sprite.
    pub collision: bool,
}

impl ManageTarget for Sprite {
    closed spec fn label_view(&self) -> Seq<char> {
        self.label@
    }

    fn new(label: &str, path: &str) -> (r: Self) {
        Sprite {
            label: label.to_owned(),
            filepath: path.to_owned(),
            translation_x: 0,
            translation_y: 0,
            rotation_mdeg: 0,
            scale_milli: 1000,
            layer: 0,
            collision: false,
        }
    }

    fn label(&self) -> (r: &str) {
        self.label.as_str()
    }
}

} // verus!
