use ncd::benchmarks::distance_matrix::distance_row;
use ncd::benchmarks::distance_matrix::heatmap;
use ncd::benchmarks::triangle_inequality::judge;
use ncd::benchmarks::triangle_inequality::triangle_inequality;
use ncd::benchmarks::triangle_inequality::Finding;
use ncd::benchmarks::Cache;
use ncd::calculate;
use ncd::compress::CompressionFailure;
use ncd::compress::Distance;

fn tenths(n: usize) -> Distance {
    Distance { combined: n, smaller: 0, larger: 10 }
}

fn page(items: usize, label: &str) -> String {
    let mut text = String::from("<html><head><title>t</title></head><body>");
    for i in 0..items {
        text.push_str(&format!(
            "<div id=\"{}-{}\" class=\"row r{}\"><span title=\"x\">item {}</span><a href=\"/p/{}\">go</a></div>",
            label,
            i,
            i % 7,
            i,
            i * 31
        ));
    }
    text.push_str("</body></html>");
    text
}

#[test]
fn cache_answers_a_repeated_query_with_the_same_value() {
    let mut cache = Cache::new();
    let a = page(20, "a");
    let b = page(25, "b");
    let first = cache.calculate(&a, &b);
    let second = cache.calculate(&a, &b);
    let swapped = cache.calculate(&b, &a);
    assert!(first.is_ok());
    assert_eq!(first, second);
    assert_eq!(first, swapped);
    assert_eq!(first, calculate(&a, &b));
}

#[test]
fn cache_key_ignores_the_order_of_the_pair() {
    assert_eq!(Cache::key("left", "right"), Cache::key("right", "left"));
    let key = Cache::key("left", "right");
    assert!(key.0 <= key.1);
    assert_eq!(key.0.min(key.1), Cache::hash_string("left").min(Cache::hash_string("right")));
    assert_ne!(Cache::hash_string("left"), Cache::hash_string("right"));
}

#[test]
fn cache_holds_the_pair_after_the_first_query() {
    let mut cache = Cache::new();
    let key = Cache::key("<p>a</p>", "<p>b</p>");
    assert_eq!(cache.lookup(key), None);
    let computed = cache.calculate("<p>a</p>", "<p>b</p>").unwrap();
    assert_eq!(cache.lookup(key), Some(computed));
}

#[test]
fn cache_keeps_the_first_value_stored() {
    let mut cache = Cache::new();
    let key = (3, 7);
    assert_eq!(cache.store(key, tenths(2)), tenths(2));
    assert_eq!(cache.store(key, tenths(9)), tenths(2));
    assert_eq!(cache.lookup(key), Some(tenths(2)));
    assert_eq!(cache.lookup((7, 3)), None);
}

#[test]
fn cache_answers_from_its_entry_without_computing() {
    let mut cache = Cache::new();
    let key = Cache::key("<p>a</p>", "<p>b</p>");
    cache.store(key, tenths(4));
    assert_eq!(cache.calculate("<p>b</p>", "<p>a</p>"), Ok(tenths(4)));
}

#[test]
fn matrix_is_square_and_symmetric() {
    let mut cache = Cache::new();
    let pages = vec![page(30, "a"), page(40, "b"), page(35, "c"), String::new()];
    let matrix = heatmap(&mut cache, &pages);
    assert_eq!(matrix.len(), 4);
    for i in 0..4 {
        assert_eq!(matrix[i].len(), 4);
        for j in 0..4 {
            assert_eq!(matrix[i][j], matrix[j][i]);
            assert_eq!(matrix[i][j], calculate(&pages[i], &pages[j]));
        }
    }
}

#[test]
fn matrix_diagonal_is_near_zero_for_large_pages() {
    let mut cache = Cache::new();
    let pages = vec![page(600, "a"), page(500, "b")];
    let matrix = heatmap(&mut cache, &pages);
    for i in 0..2 {
        let d = matrix[i][i].unwrap();
        assert!(
            (d.combined as f64 - d.smaller as f64) / (d.larger as f64) <= 0.01,
            "{:?}",
            d
        );
    }
}

#[test]
fn matrix_row_follows_the_order_of_the_pages() {
    let mut cache = Cache::new();
    let pages = vec!["<p>a</p>".to_string(), "<b>b</b>".to_string()];
    cache.store(Cache::key("<i>x</i>", "<p>a</p>"), tenths(1));
    cache.store(Cache::key("<i>x</i>", "<b>b</b>"), tenths(2));
    let row = distance_row(&mut cache, "<i>x</i>", &pages);
    assert_eq!(row, vec![Ok(tenths(1)), Ok(tenths(2))]);
}

#[test]
fn matrix_of_no_pages_is_empty() {
    let mut cache = Cache::new();
    assert_eq!(heatmap(&mut cache, &Vec::new()).len(), 0);
}

#[test]
fn near_identical_pages_obey_the_triangle_inequality() {
    let mut cache = Cache::new();
    let pages = vec![page(200, "a"), page(201, "a"), page(202, "a")];
    assert_eq!(triangle_inequality(&mut cache, &pages), vec![]);
}

#[test]
fn adversarial_triple_is_reported() {
    let mut cache = Cache::new();
    let pages = vec!["<p>a</p>".to_string(), "<p>b</p>".to_string(), "<p>c</p>".to_string()];
    cache.store(Cache::key(&pages[0], &pages[1]), tenths(1));
    cache.store(Cache::key(&pages[0], &pages[2]), tenths(2));
    cache.store(Cache::key(&pages[1], &pages[2]), tenths(9));
    let findings = triangle_inequality(&mut cache, &pages);
    assert_eq!(
        findings,
        vec![Finding::Violation {
            triple: (0, 1, 2),
            d_ab: tenths(1),
            d_ac: tenths(2),
            d_bc: tenths(9),
        }]
    );
}

#[test]
fn triples_are_tested_in_lexicographic_order() {
    let mut cache = Cache::new();
    let pages: Vec<String> = (0..4).map(|i| format!("<p id=\"{}\">x</p>", i)).collect();
    for i in 0..4 {
        for j in (i + 1)..4 {
            let larger = if (i, j) == (0, 1) || (i, j) == (2, 3) { 9 } else { 1 };
            cache.store(Cache::key(&pages[i], &pages[j]), tenths(larger));
        }
    }
    let findings = triangle_inequality(&mut cache, &pages);
    let triples: Vec<(usize, usize, usize)> = findings
        .iter()
        .map(|finding| match finding {
            Finding::Violation { triple, .. } => *triple,
            Finding::Failure { triple } => *triple,
        })
        .collect();
    assert_eq!(triples, vec![(0, 1, 2), (0, 1, 3), (0, 2, 3), (1, 2, 3)]);
}

#[test]
fn fewer_than_three_pages_give_no_finding() {
    let mut cache = Cache::new();
    let pages = vec!["<p>a</p>".to_string(), "<p>b</p>".to_string()];
    assert_eq!(triangle_inequality(&mut cache, &pages), vec![]);
    assert_eq!(cache.lookup(Cache::key(&pages[0], &pages[1])), None);
}

#[test]
fn judge_reports_each_form_of_the_inequality() {
    let t = (0, 1, 2);
    assert_eq!(judge(t, Ok(tenths(3)), Ok(tenths(4)), Ok(tenths(5))), None);
    assert_eq!(judge(t, Ok(tenths(3)), Ok(tenths(4)), Ok(tenths(7))), None);
    assert!(judge(t, Ok(tenths(3)), Ok(tenths(4)), Ok(tenths(8))).is_some());
    assert!(judge(t, Ok(tenths(3)), Ok(tenths(8)), Ok(tenths(4))).is_some());
    assert!(judge(t, Ok(tenths(8)), Ok(tenths(3)), Ok(tenths(4))).is_some());
    assert_eq!(
        judge(t, Ok(tenths(3)), Err(CompressionFailure), Ok(tenths(4))),
        Some(Finding::Failure { triple: t })
    );
}

#[test]
fn sums_of_distances_are_compared_exactly() {
    let third = Distance { combined: 1, smaller: 0, larger: 3 };
    let two_thirds = Distance { combined: 2, smaller: 0, larger: 3 };
    let just_over = Distance { combined: 2_000_000_001, smaller: 0, larger: 3_000_000_000 };
    assert!(third.sum_reaches(&third, &two_thirds));
    assert!(!third.sum_reaches(&third, &just_over));
    let max = usize::MAX;
    let one = Distance { combined: max, smaller: 0, larger: max };
    let almost_one = Distance { combined: max - 1, smaller: 0, larger: max };
    let zero = Distance { combined: 5, smaller: 5, larger: max };
    assert!(one.sum_reaches(&zero, &almost_one));
    assert!(!almost_one.sum_reaches(&zero, &one));
    assert!(almost_one.sum_reaches(&one, &one));
    let negative = Distance { combined: 0, smaller: max, larger: max };
    assert!(!negative.sum_reaches(&zero, &zero));
    assert!(negative.sum_reaches(&one, &zero));
    let undefined = Distance { combined: 9, smaller: 1, larger: 0 };
    assert!(undefined.sum_reaches(&zero, &zero));
    assert!(!undefined.sum_reaches(&zero, &third));
}

#[test]
fn test_heatmap() {
    let mut cache = Cache::new();
    let pages = vec![page(40, "euronews"), page(50, "euronews"), page(45, "other")];
    let matrix = heatmap(&mut cache, &pages);
    assert_eq!(matrix.len(), pages.len());
}

#[test]
fn test_triangle_inequality() {
    let page_a = page(120, "title");
    let page_b = page(90, "video");
    let page_c = page(95, "video");
    let d_ac = calculate(&page_a, &page_c).unwrap();
    let d_ab = calculate(&page_a, &page_b).unwrap();
    let d_bc = calculate(&page_b, &page_c).unwrap();
    println!("d_ab = {d_ab:?}, d_ac = {d_ac:?}, d_bc = {d_bc:?}");
    assert!(d_ac.sum_reaches(&d_bc, &d_ab));
}
