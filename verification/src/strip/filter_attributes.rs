//! The minimal-structure policy.

use vstd::prelude::*;

use crate::strip::open_tag;
use crate::strip::token_under;
use crate::strip::Element;
use crate::strip::ElementView;
use crate::strip::StripHtml;

verus! {

/// Keeps the nesting of the elements and, of their attributes, only `id` and
/// `class`.
#[derive(Clone, Copy, Debug, PartialEq, Eq)]
pub struct FilterAttributes {}

impl StripHtml for FilterAttributes {
    open spec fn element_token(&self, element: ElementView) -> Seq<char> {
        token_under(element, true)
    }

    fn strip_element(&self, element: &Element) -> (token: String) {
        open_tag(element, true)
    }
}

} // verus!
