use ncd::dataset::get_dataset_path;
use ncd::dataset::icon_for;
use ncd::dataset::join_path;
use ncd::dataset::Dataset;
use ncd::dataset::Entry;
use ncd::dataset::Files;

fn entry(url: &str, page_type: &str) -> Entry {
    Entry { url: url.to_string(), page_type: page_type.to_string(), filepath: String::new() }
}

fn strings(items: &[&str]) -> Vec<String> {
    items.iter().map(|item| item.to_string()).collect()
}

fn sample() -> (Vec<String>, Files) {
    let lines = strings(&[
        "url,type",
        "https://x.org/a/b,article",
        "\"https://x.org/dir\", \"category\"",
        "no comma here",
        "https://x.org/missing,article",
        "https://x.org/a%20c, Movie ,extra",
    ]);
    let files = Files {
        files: strings(&["data/a/b.html", "data/dir/index.html", "data/a c.md", "data/a c"]),
        directories: strings(&["data/dir", "data/a"]),
    };
    (lines, files)
}

#[test]
fn test_get_file_index() {
    let (lines, files) = sample();
    let dataset = Dataset::new("data", &lines, &files);
    let entries = dataset.entries();
    assert_eq!(entries.len(), 3);
    for entry in entries {
        assert!(files.is_present(&entry.filepath), "Failed to read content for {}", entry.url);
    }
}

#[test]
fn dataset_keeps_the_order_of_the_manifest() {
    let (lines, files) = sample();
    let dataset = Dataset::new("data", &lines, &files);
    let found: Vec<(String, String, String)> = dataset
        .entries()
        .iter()
        .map(|e| (e.url.clone(), e.page_type.clone(), e.filepath.clone()))
        .collect();
    assert_eq!(
        found,
        vec![
            ("https://x.org/a/b".to_string(), "article".to_string(), "data/a/b.html".to_string()),
            (
                "https://x.org/dir".to_string(),
                "category".to_string(),
                "data/dir/index.html".to_string()
            ),
            ("https://x.org/a%20c".to_string(), "Movie".to_string(), "data/a c.md".to_string()),
        ]
    );
}

#[test]
fn dataset_skips_the_heading() {
    let files = Files { files: strings(&["d/p"]), directories: Vec::new() };
    let only_heading = Dataset::new("d", &strings(&["https://x.org/p,article"]), &files);
    assert_eq!(only_heading.entries().len(), 0);
    let none = Dataset::new("d", &Vec::new(), &files);
    assert_eq!(none.entries().len(), 0);
    let one = Dataset::new("d", &strings(&["h,h", "https://x.org/p,article"]), &files);
    assert_eq!(one.entries().len(), 1);
    assert_eq!(one.entries()[0].filepath, "d/p");
}

#[test]
fn page_type_of_the_first_entry_with_the_address() {
    let lines = strings(&["h,h", "https://x.org/p,article", "https://x.org/p,video"]);
    let files = Files { files: strings(&["d/p"]), directories: Vec::new() };
    let dataset = Dataset::new("d", &lines, &files);
    assert_eq!(dataset.get_page_type("https://x.org/p"), Some(&"article".to_string()));
    assert_eq!(dataset.get_page_type("https://x.org/q"), None);
}

#[test]
fn csv_line_gives_its_first_two_fields() {
    assert_eq!(
        Dataset::parse_csv_line("\"https://a.b/c\", \"article\""),
        Some(("https://a.b/c".to_string(), "article".to_string()))
    );
    assert_eq!(
        Dataset::parse_csv_line("  a , b , c"),
        Some(("a".to_string(), "b".to_string()))
    );
    assert_eq!(Dataset::parse_csv_line(","), Some((String::new(), String::new())));
    assert_eq!(
        Dataset::parse_csv_line("\"\"x\"\",\" y\""),
        Some(("x".to_string(), " y".to_string()))
    );
    assert_eq!(Dataset::parse_csv_line("no comma"), None);
    assert_eq!(Dataset::parse_csv_line(""), None);
}

#[test]
fn filename_is_the_decoded_path() {
    assert_eq!(
        Dataset::url_to_filename("https://en.wikipedia.org/wiki/Rust_%28programming_language%29"),
        Some("wiki/Rust_(programming_language)".to_string())
    );
    assert_eq!(
        Dataset::url_to_filename("https://www.imdb.com/title/tt0111161/?ref_=chttp_t_1"),
        Some("title/tt0111161/?ref_=chttp_t_1".to_string())
    );
    assert_eq!(Dataset::url_to_filename("https://host/"), Some(String::new()));
    assert_eq!(Dataset::url_to_filename("https://host"), None);
    assert_eq!(Dataset::url_to_filename("host/path"), None);
    assert_eq!(Dataset::url_to_filename("https://host/%FF"), None);
    assert_eq!(Dataset::url_to_filename("a/b://c/d"), Some("d".to_string()));
}

#[test]
fn file_is_looked_for_under_each_ending_in_order() {
    let dataset = Dataset::new("d", &Vec::new(), &Files { files: Vec::new(), directories: Vec::new() });
    let url = "https://x.org/p";
    let both = Files { files: strings(&["d/p", "d/p.md", "d/p.wiki"]), directories: Vec::new() };
    assert_eq!(dataset.get_file_path(url, &both), Some("d/p.md".to_string()));
    let plain = Files { files: strings(&["d/p"]), directories: Vec::new() };
    assert_eq!(dataset.get_file_path(url, &plain), Some("d/p".to_string()));
    let dir_without_index = Files { files: Vec::new(), directories: strings(&["d/p"]) };
    assert_eq!(dataset.get_file_path(url, &dir_without_index), Some("d/p".to_string()));
    let dir_with_index =
        Files { files: strings(&["d/p/index.html"]), directories: strings(&["d/p"]) };
    assert_eq!(dataset.get_file_path(url, &dir_with_index), Some("d/p/index.html".to_string()));
    let dir_under_ending = Files {
        files: strings(&["d/p.txt/index.html", "d/p"]),
        directories: strings(&["d/p.txt"]),
    };
    assert_eq!(
        dataset.get_file_path(url, &dir_under_ending),
        Some("d/p.txt/index.html".to_string())
    );
    let nothing = Files { files: strings(&["d/q"]), directories: Vec::new() };
    assert_eq!(dataset.get_file_path(url, &nothing), None);
    assert_eq!(dataset.get_file_path("x.org/p", &plain), None);
}

#[test]
fn candidates_are_the_paths_that_are_asked_about() {
    assert_eq!(
        Dataset::candidates("d", "https://x.org/p"),
        strings(&[
            "d/p.txt",
            "d/p.txt/index.html",
            "d/p.md",
            "d/p.md/index.html",
            "d/p.html",
            "d/p.html/index.html",
            "d/p.wiki",
            "d/p.wiki/index.html",
            "d/p",
            "d/p/index.html",
        ])
    );
    assert_eq!(Dataset::candidates("d", "x.org/p"), Vec::<String>::new());
    let lines = strings(&["https://x.org/h,h", "https://x.org/p,article", "bad", "x.org,q"]);
    assert_eq!(Dataset::wanted_paths("d", &lines), Dataset::candidates("d", "https://x.org/p"));
    assert_eq!(Dataset::wanted_paths("d", &Vec::new()), Vec::<String>::new());
}

#[test]
fn paths_are_joined_with_one_slash() {
    assert_eq!(join_path("a", "b"), "a/b");
    assert_eq!(join_path("a/", "b"), "a/b");
    assert_eq!(join_path("a", "/b"), "/b");
    assert_eq!(join_path("", "b"), "b");
    assert_eq!(join_path("a", ""), "a/");
    assert_eq!(join_path("", ""), "");
    assert_eq!(get_dataset_path("root", "imdb"), "root/../../dataset/imdb");
    for (base, path) in [("a", "b"), ("a/", "b"), ("a", "/b"), ("", "b"), ("a", ""), ("a//", "b/")] {
        let expected = std::path::Path::new(base).join(path);
        assert_eq!(join_path(base, path), expected.to_str().unwrap());
    }
}

#[test]
fn name_shows_the_path_with_long_parts_cut() {
    let movie = entry("https://www.imdb.com/title/tt0111161/?ref_=chttp_t_1", " Movie ");
    assert_eq!(movie.get_name(), "/title/tt0111161/?ref_=chtt… 🎬");
    assert_eq!(movie.try_get_name(), Some("/title/tt0111161/?ref_=chtt… 🎬".to_string()));
    assert!(movie.has_name());
    assert_eq!(entry("https://a.b/x/", "article").get_name(), "/x/ 📄");
    assert_eq!(entry("https://a.b", "video").get_name(), "/ 📹");
    assert_eq!(entry("a.b/x", "tag").get_name(), "/ 🏷️");
    assert_eq!(entry("https://a.b/1234567890/12345678901", "search").get_name(), "/1234567890/1234567890… 🔍");
    assert_eq!(entry("https://a.b/x://y/z", "store").get_name(), "/x 🏬");
    assert_eq!(entry("https://a.b/12345678éé", "special").get_name(), "/12345678é… ✨");
    assert_eq!(entry("https://a.b/ééééé", "special").get_name(), "/ééééé ✨");
}

#[test]
fn name_is_missing_where_a_part_cannot_be_cut_or_the_kind_is_unknown() {
    let unknown = entry("https://a.b/x", "weird");
    assert!(!unknown.has_name());
    assert_eq!(unknown.try_get_name(), None);
    let split = entry("https://a.b/123456789éx", "article");
    assert!(!split.has_name());
    assert_eq!(split.try_get_name(), None);
    let split_at_end = entry("https://a.b/123456789é", "article");
    assert_eq!(split_at_end.try_get_name(), None);
}

#[test]
fn icon_of_each_kind() {
    let kinds = [
        ("article", "📄"),
        ("user", "👤"),
        ("person", "👤"),
        ("profile", "👤"),
        ("category", "📂"),
        ("section", "📂"),
        ("disambiguation", "🤔"),
        ("search", "🔍"),
        ("product", "🛍️"),
        ("store", "🏬"),
        ("movie", "🎬"),
        ("user_list", "📋"),
        ("video", "📹"),
        ("news_article", "📰"),
        ("tag", "🏷️"),
        ("special", "✨"),
    ];
    for (kind, icon) in kinds {
        assert_eq!(icon_for(kind), Some(icon));
        assert_eq!(entry("", &format!("  {}\n", kind.to_uppercase())).icon(), icon);
    }
    assert_eq!(icon_for("Article"), None);
    assert_eq!(icon_for(""), None);
}

#[test]
fn file_of_a_page_name() {
    let dataset = Dataset::new("d", &Vec::new(), &Files { files: Vec::new(), directories: Vec::new() });
    let files = Files { files: strings(&["d/a b.wiki", "/abs.txt"]), directories: Vec::new() };
    assert_eq!(dataset.find_file("a b", &files), Some("d/a b.wiki".to_string()));
    assert_eq!(dataset.find_file("/abs", &files), Some("/abs.txt".to_string()));
    assert_eq!(dataset.find_file("a", &files), None);
    assert_eq!(
        Dataset::candidates_for("d/", "")[8..].to_vec(),
        strings(&["d/", "d/index.html"])
    );
}

#[test]
fn files_tell_directories_from_files() {
    let files = Files { files: strings(&["a"]), directories: strings(&["b"]) };
    assert!(files.is_present("a") && files.is_present("b") && !files.is_present("c"));
    assert!(!files.is_dir("a") && files.is_dir("b") && !files.is_dir("c"));
}

#[test]
fn fields_lose_the_white_space_around_them() {
    let spaces = [
        '\u{9}', '\u{a}', '\u{b}', '\u{c}', '\u{d}', '\u{20}', '\u{85}', '\u{a0}', '\u{1680}',
        '\u{2000}', '\u{2001}', '\u{2002}', '\u{2003}', '\u{2004}', '\u{2005}', '\u{2006}',
        '\u{2007}', '\u{2008}', '\u{2009}', '\u{200a}', '\u{2028}', '\u{2029}', '\u{202f}',
        '\u{205f}', '\u{3000}',
    ];
    for space in spaces {
        let line = format!("{0}a{0}b{0},{0}{0}c{0}", space);
        assert_eq!(
            Dataset::parse_csv_line(&line),
            Some((format!("a{}b", space), "c".to_string())),
            "{:?}",
            space
        );
    }
    let others = [
        '\u{8}', '\u{e}', '\u{1c}', '\u{1f}', '\u{21}', '\u{84}', '\u{86}', '\u{9f}', '\u{a1}',
        '\u{167f}', '\u{1681}', '\u{180e}', '\u{1fff}', '\u{200b}', '\u{2027}', '\u{202a}',
        '\u{202e}', '\u{2030}', '\u{205e}', '\u{2060}', '\u{2fff}', '\u{3001}', '\u{feff}',
    ];
    for other in others {
        let line = format!("{0}a{0},{0}", other);
        assert_eq!(
            Dataset::parse_csv_line(&line),
            Some((format!("{0}a{0}", other), other.to_string())),
            "{:?}",
            other
        );
    }
    assert_eq!(
        Dataset::parse_csv_line(" \" a \" ,\t\"b\"\r"),
        Some((" a ".to_string(), "b".to_string()))
    );
}

#[test]
fn icon_is_missing_for_an_unknown_kind() {
    assert_eq!(entry("https://a.b/123456789éx", " Video\n").try_icon(), Some("📹".to_string()));
    assert_eq!(entry("https://a.b/x", "weird").try_icon(), None);
    assert_eq!(entry("https://a.b/x", "").try_icon(), None);
}
