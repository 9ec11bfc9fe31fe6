//! The full-structure policy.

use vstd::prelude::*;

use crate::strip::open_tag;
use crate::strip::token_under;
use crate::strip::Element;
use crate::strip::ElementView;
use crate::strip::StripHtml;

verus! {

/// Keeps the nesting of the elements and every attribute; drops the text.
#[derive(Clone, Copy, Debug, PartialEq, Eq)]
pub struct StripContent {}

impl StripHtml for StripContent {
    open spec fn element_token(&self, element: ElementView) -> Seq<char> {
        token_under(element, false)
    }

    fn strip_element(&self, element: &Element) -> (token: String) {
        open_tag(element, false)
    }
}

} // verus!
