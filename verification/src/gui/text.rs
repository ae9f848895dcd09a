//! Text layout settings.
use vstd::prelude::*;

verus! {

pub struct LayoutSettings {
    pub align_v: TextAlignVertical,
    pub align_h: TextAlignHorizontal,
}

impl Default for LayoutSettings {
    /// Text centred both ways.
    fn default() -> (r: Self)
        ensures
            r.align_v == TextAlignVertical::Center,
            r.align_h == TextAlignHorizontal::Center,
    {
        LayoutSettings { align_v: TextAlignVertical::Center, align_h: TextAlignHorizontal::Center }
    }
}

#[derive(PartialEq, Eq, Structural, Debug)]
pub enum TextAlignVertical {
    Top,
    Center,
    Bottom,
}

#[derive(PartialEq, Eq, Structural, Debug)]
pub enum TextAlignHorizontal {
    Left,
    Center,
    Right,
}

} // verus!
