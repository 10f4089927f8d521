//! Where the legend stands on the plot.

use vstd::prelude::*;
use vstd::utf8::is_ascii_chars;
use crate::text::lowered;

verus! {

/// A corner of the plot.
#[derive(Clone, Copy, Debug, PartialEq, Eq, Structural)]
pub enum Corner {
    LeftTop,
    RightTop,
    LeftBottom,
    RightBottom,
}

/// A legend position that is none.
#[derive(Clone, Copy, Debug, PartialEq, Eq, Structural)]
pub struct BadLegendPos;

/// The place that a text in lower case names: a corner, or no legend at all.
pub open spec fn corner_named(t: Seq<char>) -> Result<Option<Corner>, BadLegendPos> {
    if t == "none"@ {
        Ok(None)
    } else if t == "lefttop"@ {
        Ok(Some(Corner::LeftTop))
    } else if t == "righttop"@ {
        Ok(Some(Corner::RightTop))
    } else if t == "leftbottom"@ {
        Ok(Some(Corner::LeftBottom))
    } else if t == "rightbottom"@ {
        Ok(Some(Corner::RightBottom))
    } else {
        Err(BadLegendPos)
    }
}

/// What `str::to_lowercase` makes of a text.
pub uninterp spec fn lowercase(s: Seq<char>) -> Seq<char>;

/// Puts a text in lower case with `str::to_lowercase`, by the rules of Unicode.
/// Of a text in ASCII, the letters A to Z become a to z and the rest stays.
#[verifier::external_body]
fn to_lowercase(s: &str) -> (r: String)
    ensures
        r@ == lowercase(s@),
        is_ascii_chars(s@) ==> r@ == lowered(s@),
{
    s.to_lowercase()
}

proof fn corner_names_differ()
    ensures
        "none"@.len() == 4,
        "lefttop"@.len() == 7,
        "righttop"@.len() == 8,
        "leftbottom"@.len() == 10,
        "rightbottom"@.len() == 11,
{
    reveal_strlit("none");
    reveal_strlit("lefttop");
    reveal_strlit("righttop");
    reveal_strlit("leftbottom");
    reveal_strlit("rightbottom");
}

/// Reads a legend position that is in lower case.
pub fn corner_of_lower(lower: &String) -> (r: Result<Option<Corner>, BadLegendPos>)
    ensures
        r == corner_named(lower@),
        r == Ok::<Option<Corner>, BadLegendPos>(None) <==> lower@ == "none"@,
        r == Ok::<Option<Corner>, BadLegendPos>(Some(Corner::LeftTop)) <==> lower@ == "lefttop"@,
        r == Ok::<Option<Corner>, BadLegendPos>(Some(Corner::RightTop)) <==> lower@ == "righttop"@,
        r == Ok::<Option<Corner>, BadLegendPos>(Some(Corner::LeftBottom)) <==> lower@ == "leftbottom"@,
        r == Ok::<Option<Corner>, BadLegendPos>(Some(Corner::RightBottom)) <==> lower@ == "rightbottom"@,
{
    proof {
        corner_names_differ();
    }
    if *lower == "none".to_owned() {
        Ok(None)
    } else if *lower == "lefttop".to_owned() {
        Ok(Some(Corner::LeftTop))
    } else if *lower == "righttop".to_owned() {
        Ok(Some(Corner::RightTop))
    } else if *lower == "leftbottom".to_owned() {
        Ok(Some(Corner::LeftBottom))
    } else if *lower == "rightbottom".to_owned() {
        Ok(Some(Corner::RightBottom))
    } else {
        Err(BadLegendPos)
    }
}

/// Reads a legend position, in upper or lower case.
pub fn legend_corner(pos: &str) -> (r: Result<Option<Corner>, BadLegendPos>)
    ensures
        r == corner_named(lowercase(pos@)),
        is_ascii_chars(pos@) ==> r == corner_named(lowered(pos@)),
{
    let lower: String = to_lowercase(pos);
    corner_of_lower(&lower)
}

} // verus!
