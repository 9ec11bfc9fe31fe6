use ncd::calculate;
use ncd::compress::brotli::CompressBrotli;
use ncd::compress::Compressor;
use ncd::compress::Distance;
use ncd::strip::filter_attributes::FilterAttributes;
use ncd::strip::strip_content::StripContent;
use ncd::strip::MarkupParseError;
use ncd::strip::StripHtml;

fn value(distance: Distance) -> f64 {
    if distance.larger == 0 {
        0.0
    } else {
        (distance.combined as f64 - distance.smaller as f64) / distance.larger as f64
    }
}

#[test]
fn test_simple_pages() {
    let page_a = r#"<html>
    <head>
        <title>This title</title>
    </head>
    <body>
        <p class="hello">Hello, world!</p>
    </body>
</html>"#;
    let page_b = r#"<html>
    <head>
        <title>A Different Test</title>
    </head>
    <body>
        <p class="hello">Good bye, world!</p>
    </body>
</html>"#;
    let distance = value(calculate(page_a, page_b).unwrap());
    assert!((distance - 0.0).abs() < 0.1, "distance {}", distance);
}

#[test]
fn test_simple_page() {
    let page = r#"<html>
    <head>
        <title>Test</title>
    </head>
    <body>
        <p class="hello">Hello, world!</p>
    </body>
</html>"#;
    let stripper = StripContent {};
    let stripped = stripper.strip_html(page);
    assert_eq!(
        stripped,
        r#"<html><head><title /></head><body><p class="hello" /></body></html>"#
    );
}

#[test]
fn compress_test_compress_brotli() {
    let compressor = CompressBrotli::new(5, 21);
    let page_a = "<html><body>Hello, world!</body></html>";
    let page_b = "<html><body>Hello, world!</body></html>";
    let result = value(compressor.get_distance(page_a, page_b).unwrap());
    assert!(result <= 1.0);
}

#[test]
fn identical_small_pages_have_the_distance_of_their_sizes() {
    let distance = calculate("<p>x</p>", "<p>x</p>").unwrap();
    let stripped = FilterAttributes {}.strip_html("<p>x</p>");
    assert_eq!(stripped, "<html><head /><body><p /></body></html>");
    let compressor = CompressBrotli::recommended();
    let single = compressor.get_compressed_size(&stripped).unwrap();
    let double = compressor.get_compressed_size(&format!("{}{}", stripped, stripped)).unwrap();
    assert_eq!(distance, Distance { combined: double, smaller: single, larger: single });
    assert_eq!(value(distance), (double - single) as f64 / single as f64);
    assert!(double > single);
}

#[test]
fn empty_page_against_non_empty_is_finite() {
    let distance = calculate("", "<p>non-empty</p>").unwrap();
    assert!(value(distance).is_finite(), "distance {:?}", distance);
    assert!(distance.larger > 0);
}

fn large_page(items: usize) -> String {
    let mut text = String::from("<html><head><title>list</title></head><body><ul>");
    for i in 0..items {
        text.push_str(&format!(
            "<li id=\"entry-{}\" class=\"entry kind-{}\"><a href=\"/title/{}\">title {}</a></li>",
            i,
            i % 11,
            i * 17,
            i
        ));
    }
    text.push_str("</ul></body></html>");
    text
}

#[test]
fn brotli_test_compress_brotli() {
    let compressor = CompressBrotli::recommended();
    let page_html = large_page(800);
    let result = value(compressor.get_distance(&page_html, &page_html).unwrap());
    assert!((result - 0.0).abs() < 0.01, "distance {}", result);
}

#[test]
fn self_distance_of_a_large_page_is_near_zero() {
    let page = large_page(800);
    let result = value(calculate(&page, &page).unwrap());
    assert!(result <= 0.01, "distance {}", result);
}

#[test]
fn distance_is_the_same_in_both_orders() {
    let a = large_page(30);
    let b = "<div class=\"x\"><p>one</p><p id=\"two\">two</p></div>";
    assert_eq!(calculate(&a, b), calculate(b, &a));
    let compressor = CompressBrotli::new(9, 22);
    assert_eq!(compressor.get_distance(&a, b), compressor.get_distance(b, &a));
}

#[test]
fn distance_follows_the_formula() {
    let compressor = CompressBrotli::new(6, 20);
    let a = "abcabcabcabcabcabcabcabcabcabcabcabc";
    let b = "the quick brown fox jumps over the lazy dog";
    let size_a = compressor.get_compressed_size(a).unwrap();
    let size_b = compressor.get_compressed_size(b).unwrap();
    let size_ab = compressor.get_compressed_size(&format!("{}{}", a, b)).unwrap();
    let size_ba = compressor.get_compressed_size(&format!("{}{}", b, a)).unwrap();
    assert_eq!(compressor.get_combined_length(a, b), Ok(size_ab.min(size_ba)));
    assert_eq!(
        compressor.get_distance(a, b),
        Ok(Distance {
            combined: size_ab.min(size_ba),
            smaller: size_a.min(size_b),
            larger: size_a.max(size_b),
        })
    );
    assert!(size_a < a.len());
    assert_ne!(size_a, size_b);
}

#[test]
fn empty_inputs_have_distance_zero() {
    let compressor = CompressBrotli::recommended();
    let distance = compressor.get_distance("", "").unwrap();
    assert_eq!(value(distance), 0.0);
    assert_eq!(compressor.get_compressed_size(""), Ok(1));
}

#[test]
fn minimal_policy_keeps_only_id_and_class() {
    let page = "<div id=\"a\" class=\"b c\" style=\"x\" data-k=\"v\"><img src=\"i.png\" class=\"pic\">text<br></div>";
    assert_eq!(
        FilterAttributes {}.strip_html(page),
        "<html><head /><body><div class=\"b c\" id=\"a\"><img class=\"pic\" /><br /></div></body></html>"
    );
    assert_eq!(
        StripContent {}.strip_html(page),
        "<html><head /><body><div class=\"b c\" data-k=\"v\" id=\"a\" style=\"x\"><img class=\"pic\" src=\"i.png\" /><br /></div></body></html>"
    );
}

#[test]
fn skeleton_of_a_closed_skeleton_is_the_same() {
    let stripper = FilterAttributes {};
    let once = stripper.strip_html("<p class=\"x\"><br id=\"b\"><img class=\"i\"></p>");
    assert_eq!(
        once,
        "<html><head /><body><p class=\"x\"><br id=\"b\" /><img class=\"i\" /></p></body></html>"
    );
    assert_eq!(stripper.strip_html(&once), once);
    let empty = stripper.strip_html("");
    assert_eq!(empty, "<html><head /><body /></html>");
    assert_eq!(stripper.strip_html(&empty), empty);
}

#[test]
fn skeleton_is_the_same_for_the_same_page() {
    let page = large_page(5);
    assert_eq!(FilterAttributes {}.strip_html(&page), FilterAttributes {}.strip_html(&page));
}

#[test]
fn skeleton_of_a_skeleton_nests_what_followed_an_empty_element() {
    let stripper = FilterAttributes {};
    let once = stripper.strip_html("<div></div><p>x</p>");
    assert_eq!(once, "<html><head /><body><div /><p /></body></html>");
    assert_eq!(
        stripper.strip_html(&once),
        "<html><head /><body><div><p /></div></body></html>"
    );
}

#[test]
fn text_alone_does_not_open_an_element() {
    let stripper = StripContent {};
    assert_eq!(
        stripper.strip_html("<ul id=\"l\">  <li>one</li> two <!-- three --> </ul><p> </p>"),
        "<html><head /><body><ul id=\"l\"><li /></ul><p /></body></html>"
    );
}

#[test]
fn content_of_a_template_is_not_shown() {
    let stripper = StripContent {};
    assert_eq!(
        stripper.strip_html("<template><div><span></span></div></template><p><b>x</b></p>"),
        "<html><head><template /></head><body><p><b /></p></body></html>"
    );
    assert_eq!(
        stripper.strip_html("<body><div><template id=\"t\"><i></i></template><br></div>"),
        "<html><head /><body><div><template id=\"t\" /><br /></div></body></html>"
    );
}

#[test]
fn strict_reading_reports_what_the_parser_recorded() {
    let stripper = FilterAttributes {};
    let well_formed =
        "<!DOCTYPE html><html><head><title>t</title></head><body><p id=\"a\"><b>x</b></p></body></html>";
    assert_eq!(
        stripper.try_strip_html(well_formed),
        Ok("<html><head><title /></head><body><p id=\"a\"><b /></p></body></html>".to_string())
    );
    assert_eq!(stripper.try_strip_html(well_formed), Ok(stripper.strip_html(well_formed)));
    let error = stripper.try_strip_html("<div><p></div").unwrap_err();
    assert_eq!(
        error.messages,
        vec![
            "Unexpected token".to_string(),
            "Saw EOF in state TagName".to_string(),
            "Unexpected open tag at end of body".to_string()
        ]
    );
    assert_eq!(
        stripper.try_strip_html("plain text"),
        Err(MarkupParseError { messages: vec!["Unexpected token".to_string()] })
    );
    assert_eq!(stripper.strip_html("<div><p></div"), "<html><head /><body><div><p /></div></body></html>");
}

struct Lengths;

impl Compressor for Lengths {
    fn compressed_size(
        &self,
        _buf: vstd::seq::Seq<char>,
    ) -> Result<usize, ncd::compress::CompressionFailure> {
        unreachable!()
    }

    fn get_compressed_size(&self, buf: &str) -> Result<usize, ncd::compress::CompressionFailure> {
        if buf.contains('!') {
            Err(ncd::compress::CompressionFailure)
        } else {
            Ok(buf.len())
        }
    }
}

#[test]
fn distance_under_another_compressor() {
    assert_eq!(
        Lengths.get_distance("ab", "cde"),
        Ok(Distance { combined: 5, smaller: 2, larger: 3 })
    );
    assert_eq!(Lengths.get_combined_length("ab", "cde"), Ok(5));
    assert_eq!(value(Lengths.get_distance("ab", "cde").unwrap()), 1.0);
}

#[test]
fn both_inputs_empty_give_zero_without_dividing() {
    let distance = Lengths.get_distance("", "").unwrap();
    assert_eq!(distance, Distance { combined: 0, smaller: 0, larger: 0 });
    assert_eq!(value(distance), 0.0);
    assert!(distance.sum_reaches(&distance, &distance));
}

#[test]
fn failure_of_the_compressor_is_handed_on() {
    let failure = Err(ncd::compress::CompressionFailure);
    assert_eq!(Lengths.get_compressed_size("a!"), failure);
    assert_eq!(Lengths.get_combined_length("a", "b!"), failure);
    assert_eq!(Lengths.get_distance("a!", "b"), Err(ncd::compress::CompressionFailure));
    assert_eq!(Lengths.get_distance("a", "b!"), Err(ncd::compress::CompressionFailure));
    assert!(Lengths.get_distance("a", "b").is_ok());
}

#[test]
fn deeply_nested_page_is_read() {
    let depth = 3000;
    let mut page = String::from("<!DOCTYPE html><html><head></head><body>");
    for _ in 0..depth {
        page.push_str("<div>");
    }
    for _ in 0..depth {
        page.push_str("</div>");
    }
    page.push_str("</body></html>");
    let skeleton = FilterAttributes {}.strip_html(&page);
    let mut expected = String::from("<html><head /><body>");
    for _ in 0..depth - 1 {
        expected.push_str("<div>");
    }
    expected.push_str("<div />");
    for _ in 0..depth - 1 {
        expected.push_str("</div>");
    }
    expected.push_str("</body></html>");
    assert_eq!(skeleton, expected);
}

#[test]
fn strict_reading_takes_the_empty_skeleton_for_a_malformed_page() {
    let stripper = FilterAttributes {};
    assert_eq!(stripper.strip_well_formed("<div><p></div"), "");
    assert_eq!(stripper.strip_well_formed("plain text"), "");
    assert_eq!(stripper.strip_well_formed("<p>x</p>"), "");
    let well_formed = "<!DOCTYPE html><html><head></head><body><p id=\"a\"><b>x</b></p></body></html>";
    assert_eq!(
        stripper.strip_well_formed(well_formed),
        "<html><head /><body><p id=\"a\"><b /></p></body></html>"
    );
    assert_eq!(stripper.strip_well_formed(well_formed), stripper.strip_html(well_formed));
}

#[test]
fn identical_small_pages_are_at_distance_zero_under_the_strict_reading() {
    let distance = ncd::calculate_well_formed("<p>x</p>", "<p>x</p>").unwrap();
    assert!((value(distance) - 0.0).abs() <= 0.01, "distance {:?}", distance);
    let against_empty = ncd::calculate_well_formed("", "<p>non-empty</p>").unwrap();
    assert!(value(against_empty).is_finite());
    assert_eq!(value(against_empty), 0.0);
}

#[test]
fn strict_distance_of_well_formed_pages_is_the_lenient_one() {
    let a = "<!DOCTYPE html><html><head><title>a</title></head><body><p id=\"a\"><b>x</b></p></body></html>";
    let b = "<!DOCTYPE html><html><head><title>b</title></head><body><div class=\"c\"><i>y</i><br></div></body></html>";
    assert_eq!(ncd::calculate_well_formed(a, b), calculate(a, b));
    assert_eq!(ncd::calculate_well_formed(a, b), ncd::calculate_well_formed(b, a));
    assert_ne!(ncd::calculate_well_formed(a, "<p>x</p>"), calculate(a, "<p>x</p>"));
}
