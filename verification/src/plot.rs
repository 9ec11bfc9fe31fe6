//! How the results of a benchmark are told apart in a plot.

use vstd::prelude::*;

verus! {

/// The colour of a series of points.
#[derive(Clone, Copy, Debug, PartialEq, Eq, Structural)]
pub enum SeriesColor {
    Red,
    Blue,
    Green,
    Magenta,
}

/// The colour that results of a quality are drawn in: red up to 2, blue up to
/// 5, green up to 8, magenta above.
pub open spec fn color_of(quality: u32) -> SeriesColor {
    if quality <= 2 {
        SeriesColor::Red
    } else if quality <= 5 {
        SeriesColor::Blue
    } else if quality <= 8 {
        SeriesColor::Green
    } else {
        SeriesColor::Magenta
    }
}

/// The colour that results of a quality are drawn in.
pub fn series_color(quality: u32) -> (color: SeriesColor)
    ensures
        color == color_of(quality),
{
    if quality <= 2 {
        SeriesColor::Red
    } else if quality <= 5 {
        SeriesColor::Blue
    } else if quality <= 8 {
        SeriesColor::Green
    } else {
        SeriesColor::Magenta
    }
}

} // verus!
