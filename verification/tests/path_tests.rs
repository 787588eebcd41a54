use dwwb::paths::{
    file_name, file_stem, num_segments, parent_path, path_join, path_to_url, split_path,
    strip_path_prefix, with_extension,
};
use dwwb::util::{replace_root_marker, title_case};

#[test]
fn path_to_url_joins_segments() {
    assert_eq!(path_to_url("articles/news/item.md"), "articles/news/item.md");
    assert_eq!(path_to_url("articles//news/./item.md"), "articles/news/item.md");
    assert_eq!(path_to_url(""), "");
    assert_eq!(path_to_url("a"), "a");
}

#[test]
fn split_path_drops_empty_and_dot() {
    let segs = split_path("./a//b/");
    assert_eq!(segs, vec!["a".to_string(), "b".to_string()]);
    assert_eq!(split_path(""), Vec::<String>::new());
}

#[test]
fn with_extension_replaces_suffix() {
    assert_eq!(with_extension("articles/item.md", "html"), "articles/item.html");
    assert_eq!(with_extension("index", "html"), "index.html");
    assert_eq!(with_extension(".hidden", "html"), ".hidden.html");
    assert_eq!(with_extension("a/b.c.d", "html"), "a/b.c.html");
}

#[test]
fn file_stem_and_name() {
    assert_eq!(file_stem("articles/news/item.md"), "item");
    assert_eq!(file_stem("index"), "index");
    assert_eq!(file_stem(""), "");
    assert_eq!(file_name("articles/item.md"), Some("item.md".to_string()));
    assert_eq!(file_name(""), None);
    assert_eq!(file_name("a/.."), None);
}

#[test]
fn parent_and_strip() {
    assert_eq!(parent_path("articles/news/item.md"), "articles/news");
    assert_eq!(parent_path("articles"), "");
    assert_eq!(parent_path(""), "");
    assert_eq!(
        strip_path_prefix("output/articles/item.html", "output"),
        Some("articles/item.html".to_string())
    );
    assert_eq!(strip_path_prefix("output/a", "elsewhere"), None);
    assert_eq!(num_segments("a/b/c"), 3);
}

#[test]
fn path_join_basics() {
    assert_eq!(path_join("a", "b/c"), "a/b/c");
    assert_eq!(path_join("", "b"), "b");
    assert_eq!(path_join("a", ""), "a");
}

#[test]
fn title_case_uppercases_word_starts() {
    assert_eq!(title_case("hello world"), "Hello World");
    assert_eq!(title_case("news"), "News");
    assert_eq!(title_case("a-b c_d"), "A-B C_d");
    assert_eq!(title_case(""), "");
    assert_eq!(title_case("2nd try"), "2nd Try");
}

#[test]
fn replace_root_marker_substitutes() {
    assert_eq!(replace_root_marker("href=\"%ROOT%/style.css\"", "../"), "href=\"../style.css\"");
    assert_eq!(replace_root_marker("%ROOT%", "../../"), "../../");
    assert_eq!(replace_root_marker("no marker", "../"), "no marker");
    assert_eq!(replace_root_marker("%ROOT%/a %ROOT%b", "x/"), "x/a x/b");
}
