use ncd::compress::wide::Wide;
use ncd::compress::Distance;
use ncd::plot::series_color;
use ncd::plot::SeriesColor;
use ncd::strip::filter_attributes::FilterAttributes;
use ncd::strip::strip_content::StripContent;
use ncd::strip::Attribute;
use ncd::strip::Edge;
use ncd::strip::mark_edges;
use ncd::strip::open_tag;
use ncd::strip::Element;
use ncd::strip::Mark;
use ncd::strip::Tag;
use ncd::strip::StripHtml;
use ncd::text::chars_of;
use ncd::text::find;
use ncd::text::is_space;
use ncd::text::trim;
use ncd::text::stands_at;
use ncd::text::strip;

fn chars(text: &str) -> Vec<char> {
    text.chars().collect()
}

fn attributes(pairs: &[(&str, &str)]) -> Vec<Attribute> {
    pairs
        .iter()
        .map(|(name, value)| Attribute::of(name, value))
        .collect()
}

fn tag(name: &str, pairs: &[(&str, &str)]) -> Option<Tag> {
    Some(Tag { name: name.to_string(), attributes: attributes(pairs) })
}

#[test]
fn chars_of_a_text() {
    assert_eq!(chars_of("aé🎬"), vec!['a', 'é', '🎬']);
    assert_eq!(chars_of(""), Vec::<char>::new());
}

#[test]
fn find_gives_the_first_place() {
    let text = chars("a://b://c");
    let mark = chars("://");
    assert_eq!(find(&text, &mark, 0), Some(1));
    assert_eq!(find(&text, &mark, 1), Some(1));
    assert_eq!(find(&text, &mark, 2), Some(5));
    assert_eq!(find(&text, &mark, 6), None);
    assert_eq!(find(&text, &mark, 100), None);
    assert_eq!(find(&text, &chars("c"), 0), Some(8));
    assert_eq!(find(&text, &chars("a://b://cd"), 0), None);
    assert_eq!(find(&text, &chars(""), 9), Some(9));
    assert_eq!(find(&text, &chars(""), 10), None);
    assert_eq!(find(&chars("aab"), &chars("ab"), 0), Some(1));
    assert!(stands_at(&text, &mark, 5));
    assert!(!stands_at(&text, &mark, 4));
    assert!(!stands_at(&text, &mark, 7));
    assert!(!stands_at(&text, &mark, 100));
    assert!(stands_at(&text, &chars(""), 9));
    assert!(!stands_at(&text, &chars(""), 10));
}

#[test]
fn strip_takes_the_character_from_both_ends() {
    assert_eq!(strip("\"\"a\"b\"", '"'), "a\"b");
    assert_eq!(strip("\"\"\"", '"'), "");
    assert_eq!(strip("", '"'), "");
    assert_eq!(strip("abc", '"'), "abc");
    assert_eq!(strip("éaé", 'é'), "a");
}

#[test]
fn wide_products_and_sums_are_exact() {
    let max = u64::MAX;
    let cube = Wide::product(max, max, max);
    // (2^64 - 1)^3 = 2^192 - 3 * 2^128 + 3 * 2^64 - 1
    assert_eq!(cube.high, (1u128 << 64) - 3);
    assert_eq!(cube.low, (3u128 << 64) - 1);
    let small = Wide::product(2, 3, 7);
    assert_eq!((small.high, small.low), (0, 42));
    let carry = Wide::product(1 << 63, 1 << 63, 4);
    assert_eq!((carry.high, carry.low), (1, 0));
    let sum = Wide::sum(cube, cube, cube);
    assert_eq!(sum.high, 3 * ((1u128 << 64) - 3));
    assert_eq!(sum.low, (9u128 << 64) - 3);
    let full = Wide { high: 0, low: u128::MAX };
    let carried = Wide::sum(full, full, full);
    assert_eq!((carried.high, carried.low), (2, u128::MAX - 2));
    assert!(sum.at_least(&cube));
    assert!(!cube.at_least(&sum));
    assert!(cube.at_least(&cube));
    assert!(carry.at_least(&small));
    assert!(!Wide { high: 0, low: u128::MAX }.at_least(&carry));
}

#[test]
fn distance_of_sizes_orders_the_single_sizes() {
    assert_eq!(Distance::of_sizes(50, 44, 30), Distance { combined: 50, smaller: 30, larger: 44 });
    assert_eq!(Distance::of_sizes(50, 30, 44), Distance { combined: 50, smaller: 30, larger: 44 });
    assert_eq!(Distance::of_sizes(0, 0, 0), Distance { combined: 0, smaller: 0, larger: 0 });
}

#[test]
fn triangle_test_on_distances() {
    let d = |n: usize| Distance { combined: n, smaller: 0, larger: 10 };
    assert!(Distance::obeys_triangle(&d(3), &d(4), &d(7)));
    assert!(!Distance::obeys_triangle(&d(3), &d(4), &d(8)));
    assert!(!Distance::obeys_triangle(&d(3), &d(8), &d(4)));
    assert!(!Distance::obeys_triangle(&d(8), &d(3), &d(4)));
    assert!(Distance::obeys_triangle(&d(0), &d(0), &d(0)));
}

#[test]
fn colour_of_each_quality() {
    let expected = [
        (0, SeriesColor::Red),
        (2, SeriesColor::Red),
        (3, SeriesColor::Blue),
        (5, SeriesColor::Blue),
        (6, SeriesColor::Green),
        (8, SeriesColor::Green),
        (9, SeriesColor::Magenta),
        (u32::MAX, SeriesColor::Magenta),
    ];
    for (quality, color) in expected {
        assert_eq!(series_color(quality), color);
    }
}

#[test]
fn opening_token_of_each_policy() {
    let kept = attributes(&[("class", "c"), ("href", "/x"), ("id", "i")]);
    let e = Element { name: "a", attributes: &kept, has_children: true };
    assert_eq!(FilterAttributes {}.strip_element(&e), "<a class=\"c\" id=\"i\">");
    assert_eq!(StripContent {}.strip_element(&e), "<a class=\"c\" href=\"/x\" id=\"i\">");
    assert_eq!(open_tag(&e, true), "<a class=\"c\" id=\"i\">");
    let upper = attributes(&[("CLASS", "c")]);
    let void = Element { name: "br", attributes: &upper, has_children: false };
    assert_eq!(FilterAttributes {}.strip_element(&void), "<br />");
    assert_eq!(StripContent {}.strip_element(&void), "<br CLASS=\"c\" />");
}

#[test]
fn skeleton_of_a_walk() {
    let div = tag("div", &[("id", "d"), ("lang", "en")]);
    let br = tag("br", &[]);
    let edges = vec![
        Edge { closing: false, tag: div.clone() },
        Edge { closing: false, tag: None },
        Edge { closing: false, tag: br.clone() },
        Edge { closing: true, tag: br.clone() },
        Edge { closing: true, tag: None },
        Edge { closing: false, tag: br.clone() },
        Edge { closing: true, tag: br },
        Edge { closing: true, tag: div },
    ];
    let shown = Mark { shown: true, has_children: true };
    let leaf = Mark { shown: true, has_children: false };
    let hidden = Mark { shown: false, has_children: false };
    let marks = vec![shown, hidden, hidden, hidden, hidden, leaf, leaf, shown];
    assert_eq!(FilterAttributes {}.strip_edges(&edges, &marks), "<div id=\"d\"><br /></div>");
    assert_eq!(
        StripContent {}.strip_edges(&edges, &marks),
        "<div id=\"d\" lang=\"en\"><br /></div>"
    );
    assert_eq!(FilterAttributes {}.strip_edges(&Vec::new(), &Vec::new()), "");
    assert_eq!(FilterAttributes {}.strip_edges(&edges, &vec![leaf]), "<div id=\"d\" />");
    assert_eq!(FilterAttributes {}.strip_edges(&edges, &Vec::new()), "");
    assert_eq!(mark_edges(&edges), marks);
    assert_eq!(FilterAttributes {}.strip_walk(&edges), "<div id=\"d\"><br /></div>");
    let text_only = vec![
        Edge { closing: false, tag: tag("p", &[("class", "c")]) },
        Edge { closing: false, tag: None },
        Edge { closing: true, tag: None },
        Edge { closing: true, tag: tag("p", &[("class", "c")]) },
    ];
    assert_eq!(mark_edges(&text_only), vec![leaf, hidden, hidden, leaf]);
    assert_eq!(StripContent {}.strip_walk(&text_only), "<p class=\"c\" />");
    let mut out = String::from("x");
    FilterAttributes {}.process_element(&edges[7], shown, &mut out);
    FilterAttributes {}.process_element(&edges[6], leaf, &mut out);
    FilterAttributes {}.process_element(&edges[1], hidden, &mut out);
    FilterAttributes {}.process_element(&edges[2], hidden, &mut out);
    FilterAttributes {}.process_element(&edges[0], leaf, &mut out);
    assert_eq!(out, "x</div><div id=\"d\" />");
}

#[test]
fn trim_takes_white_space_from_both_ends() {
    assert_eq!(trim("  a b \t\n"), "a b");
    assert_eq!(trim(" \u{3000}\u{85} "), "");
    assert_eq!(trim(""), "");
    assert_eq!(trim("\u{200b} a \u{200b}"), "\u{200b} a \u{200b}");
    for code in 0..0x3100u32 {
        if let Some(c) = char::from_u32(code) {
            assert_eq!(is_space(c), c.is_whitespace(), "{:?}", c);
            let text = format!("{0}{0}x{0}y{0}", c);
            assert_eq!(trim(&text), text.trim(), "{:?}", c);
        }
    }
    for c in ['\u{feff}', '\u{e000}', '\u{1f3ac}', '\u{10ffff}'] {
        assert_eq!(is_space(c), c.is_whitespace());
    }
}
