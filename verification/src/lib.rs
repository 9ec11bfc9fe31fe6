//! Normalized compression distance between captured web pages: the markup is
//! reduced to a structural skeleton, the skeletons are compressed, and the
//! compressed sizes give an exact rational distance.

pub mod benchmarks;
pub mod compress;
pub mod dataset;
pub mod plot;
pub mod strip;
pub mod text;

use vstd::prelude::*;

use crate::compress::brotli::brotli_size;
use crate::compress::brotli::CompressBrotli;
use crate::compress::brotli::LG_WINDOW_SIZE;
use crate::compress::brotli::QUALITY;
use crate::compress::distance_from;
use crate::compress::CompressionFailure;
use crate::compress::Compressor;
use crate::compress::Distance;
use crate::strip::document_tree;
use crate::strip::filter_attributes::FilterAttributes;
use crate::strip::parse_errors;
use crate::strip::skeleton;
use crate::strip::StripHtml;

verus! {

/// The skeleton that the minimal-structure policy makes of `page`.
pub open spec fn stripped(page: Seq<char>) -> Seq<char> {
    skeleton(&FilterAttributes {  }, document_tree(page))
}

/// The compressed size of `text` under the recommended configuration.
pub open spec fn recommended_size(text: Seq<char>) -> Result<usize, CompressionFailure> {
    brotli_size(text, QUALITY, LG_WINDOW_SIZE)
}

/// The distance between two pages: that of their skeletons under the
/// minimal-structure policy, compressed with the recommended configuration.
pub open spec fn calculate_spec(page_a: Seq<char>, page_b: Seq<char>) -> Result<
    Distance,
    CompressionFailure,
> {
    distance_from(
        recommended_size(stripped(page_a) + stripped(page_b)),
        recommended_size(stripped(page_b) + stripped(page_a)),
        recommended_size(stripped(page_a)),
        recommended_size(stripped(page_b)),
    )
}

/// The normalized compression distance between two pages, each read
/// leniently: the skeleton is that of the tree the parser recovers, whatever
/// errors it records on the page.
pub fn calculate(page_a: &str, page_b: &str) -> (distance: Result<Distance, CompressionFailure>)
    ensures
        distance == calculate_spec(page_a@, page_b@),
{
    let stripper = FilterAttributes {  };
    let stripped_a = stripper.strip_html(page_a);
    let stripped_b = stripper.strip_html(page_b);
    let compressor = CompressBrotli::recommended();
    compressor.get_distance(stripped_a.as_str(), stripped_b.as_str())
}

/// The skeleton that the minimal-structure policy makes of `page` under the
/// strict reading: empty where the parser records an error on the page.
pub open spec fn stripped_well_formed(page: Seq<char>) -> Seq<char> {
    if parse_errors(page).len() > 0 {
        Seq::empty()
    } else {
        stripped(page)
    }
}

/// The distance between two pages under the strict reading.
pub open spec fn calculate_well_formed_spec(page_a: Seq<char>, page_b: Seq<char>) -> Result<
    Distance,
    CompressionFailure,
> {
    distance_from(
        recommended_size(stripped_well_formed(page_a) + stripped_well_formed(page_b)),
        recommended_size(stripped_well_formed(page_b) + stripped_well_formed(page_a)),
        recommended_size(stripped_well_formed(page_a)),
        recommended_size(stripped_well_formed(page_b)),
    )
}

/// The normalized compression distance between two pages, each read strictly:
/// a page on which the parser records an error counts as malformed, and the
/// empty skeleton is taken for it.
pub fn calculate_well_formed(page_a: &str, page_b: &str) -> (distance: Result<
    Distance,
    CompressionFailure,
>)
    ensures
        distance == calculate_well_formed_spec(page_a@, page_b@),
{
    let stripper = FilterAttributes {  };
    let stripped_a = stripper.strip_well_formed(page_a);
    let stripped_b = stripper.strip_well_formed(page_b);
    let compressor = CompressBrotli::recommended();
    compressor.get_distance(stripped_a.as_str(), stripped_b.as_str())
}

/// The distance between two pages does not depend on their order.
pub proof fn calculate_is_symmetric(page_a: Seq<char>, page_b: Seq<char>)
    ensures
        calculate_spec(page_a, page_b) == calculate_spec(page_b, page_a),
        calculate_well_formed_spec(page_a, page_b) == calculate_well_formed_spec(page_b, page_a),
{
}

} // verus!
