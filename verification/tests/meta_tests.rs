use dwwb::config::{DirGlob, DwwbConfig, DwwbInputs, DwwbOutputs};
use dwwb::meta::{extract_front_matter, parse_yaml_mapping, yaml_type_to_name, ExtractError,
    MetaValue};
use dwwb::sidebar::ArticleSidebarData;

fn test_config() -> DwwbConfig {
    DwwbConfig {
        name: "wiki".to_string(),
        inputs: DwwbInputs::new(
            "index.md".to_string(),
            "style.css".to_string(),
            DirGlob::new("articles".to_string(), vec!["**/*.{md,markdown}".to_string()]),
            vec![(
                "scripts".to_string(),
                DirGlob::new("scripts".to_string(), vec!["**/*.js".to_string()]),
            )],
        ),
        outputs: DwwbOutputs::new(
            "output".to_string(),
            "style.css".to_string(),
            "articles".to_string(),
            vec![("scripts".to_string(), "scripts".to_string())],
        ),
        sub_articles_title: "Sub-Articles".to_string(),
        toc_title: "Table of Contents".to_string(),
        toc_depth: 3,
        math_renderer: None,
        debug_pandoc_cmd: false,
    }
}

#[test]
fn front_matter_at_start() {
    let text = "---\ntitle: X\nkeywords: [p, q]\n---\nbody\n";
    let block = extract_front_matter(text).unwrap();
    assert_eq!(block, "title: X\nkeywords: [p, q]\n");
}

#[test]
fn front_matter_after_blank_line() {
    let text = "preamble\n\n---\ntitle: X\n...\nrest\n";
    let block = extract_front_matter(text).unwrap();
    assert_eq!(block, "title: X\n");
}

#[test]
fn front_matter_requires_delimiters() {
    assert_eq!(extract_front_matter("title: X\n"), None);
    assert_eq!(extract_front_matter("---\ntitle: X\n"), None);
    assert_eq!(extract_front_matter("x\n---\ntitle: X\n---\n"), None);
}

#[test]
fn front_matter_crlf() {
    let text = "---\r\ntitle: X\r\n---\r\nbody";
    let block = extract_front_matter(text).unwrap();
    assert_eq!(block, "title: X\r\n");
}

#[test]
fn parse_yaml_round_trip() {
    let entries = parse_yaml_mapping("title: X\nkeywords: [p, q]\n").unwrap();
    assert_eq!(entries.len(), 2);
    // entries come back in key order
    assert_eq!(entries[0].0, "keywords");
    assert_eq!(entries[1].0, "title");
    match &entries[1].1 {
        MetaValue::Text(t) => assert_eq!(t, "X"),
        other => panic!("unexpected kind: {}", yaml_type_to_name(other)),
    }
    match &entries[0].1 {
        MetaValue::List(xs) => {
            assert_eq!(xs.len(), 2);
            assert!(matches!(&xs[0], MetaValue::Text(p) if p == "p"));
            assert!(matches!(&xs[1], MetaValue::Text(q) if q == "q"));
        },
        other => panic!("unexpected kind: {}", yaml_type_to_name(other)),
    }
}

#[test]
fn parse_yaml_rejects_garbage() {
    assert!(parse_yaml_mapping("title: [unclosed\n").is_err());
    assert!(parse_yaml_mapping("- not\n- a\n- mapping\n").is_err());
}

#[test]
fn extraction_round_trip() {
    let cfg = test_config();
    let rec = ArticleSidebarData::from_article_meta(
        &cfg,
        "articles/item.md",
        "---\ntitle: X\nkeywords: [p, q]\n---\nbody\n",
    )
    .unwrap();
    assert_eq!(rec.title, "X");
    assert_eq!(rec.keywords, vec!["p".to_string(), "q".to_string()]);
    assert_eq!(rec.id, "item");
    assert_eq!(rec.md_file_path, Some("articles/item.md".to_string()));
    assert_eq!(rec.html_file_path, Some("output/articles/item.html".to_string()));
    assert_eq!(rec.link_url, "articles/item.html");
    assert!(rec.extra.is_empty());
    assert!(rec.sub_articles.is_empty());
}

#[test]
fn extraction_key_order_irrelevant() {
    let cfg = test_config();
    let a = ArticleSidebarData::from_article_meta(
        &cfg,
        "articles/item.md",
        "---\ntitle: X\nkeywords: [p, q]\n---\n",
    )
    .unwrap();
    let b = ArticleSidebarData::from_article_meta(
        &cfg,
        "articles/item.md",
        "---\nkeywords: [p, q]\ntitle: X\n---\n",
    )
    .unwrap();
    assert_eq!(a.title, b.title);
    assert_eq!(a.keywords, b.keywords);
    assert_eq!(a.id, b.id);
    assert_eq!(a.link_url, b.link_url);
    assert_eq!(a.html_file_path, b.html_file_path);
}

#[test]
fn missing_title_names_file() {
    let cfg = test_config();
    let err = ArticleSidebarData::from_article_meta(
        &cfg,
        "articles/item.md",
        "---\nkeywords: [p]\n---\n",
    )
    .unwrap_err();
    match &err {
        ExtractError::MissingTitle { file } => assert_eq!(file, "articles/item.md"),
        _ => panic!("wrong error: {}", err.message()),
    }
    assert_eq!(
        err.message(),
        "No `title` in the YAML metadata block of the file 'articles/item.md'"
    );
}

#[test]
fn numeric_title_is_wrong_field_type() {
    let cfg = test_config();
    let err = ArticleSidebarData::from_article_meta(&cfg, "articles/item.md", "---\ntitle: 5\n---\n")
        .unwrap_err();
    match &err {
        ExtractError::WrongFieldType { field, expected, found, file } => {
            assert_eq!(field, "title");
            assert_eq!(expected, "a YAML string");
            assert_eq!(found, "a number");
            assert_eq!(file, "articles/item.md");
        },
        _ => panic!("wrong error: {}", err.message()),
    }
}

#[test]
fn scalar_keywords_are_wrong_field_type() {
    let cfg = test_config();
    let err = ArticleSidebarData::from_article_meta(
        &cfg,
        "articles/item.md",
        "---\ntitle: X\nkeywords: nope\n---\n",
    )
    .unwrap_err();
    match &err {
        ExtractError::WrongFieldType { field, found, .. } => {
            assert_eq!(field, "keywords");
            assert_eq!(found, "a string");
        },
        _ => panic!("wrong error: {}", err.message()),
    }
}

#[test]
fn missing_block_is_an_error() {
    let cfg = test_config();
    let err = ArticleSidebarData::from_article_meta(&cfg, "articles/item.md", "no metadata here\n")
        .unwrap_err();
    assert!(matches!(&err, ExtractError::MissingMetadataBlock { file } if file == "articles/item.md"));
}

#[test]
fn bad_yaml_is_a_syntax_error() {
    let cfg = test_config();
    let err = ArticleSidebarData::from_article_meta(
        &cfg,
        "articles/item.md",
        "---\ntitle: [unclosed\n---\n",
    )
    .unwrap_err();
    assert!(matches!(&err, ExtractError::InvalidMetadataSyntax { file, .. } if file == "articles/item.md"));
}

#[test]
fn keywords_drop_non_strings() {
    let cfg = test_config();
    let rec = ArticleSidebarData::from_article_meta(
        &cfg,
        "articles/item.md",
        "---\ntitle: X\nkeywords: [p, 7, q]\n---\n",
    )
    .unwrap();
    assert_eq!(rec.keywords, vec!["p".to_string(), "q".to_string()]);
}

#[test]
fn id_and_link_overrides() {
    let cfg = test_config();
    let rec = ArticleSidebarData::from_article_meta(
        &cfg,
        "articles/item.md",
        "---\ntitle: X\nid: custom\nlink-url: \"#frag\"\n---\n",
    )
    .unwrap();
    assert_eq!(rec.id, "custom");
    assert_eq!(rec.link_url, "#frag");
}

#[test]
fn unknown_keys_pass_through() {
    let cfg = test_config();
    let rec = ArticleSidebarData::from_article_meta(
        &cfg,
        "articles/item.md",
        "---\ntitle: X\nauthor: someone\n---\n",
    )
    .unwrap();
    assert_eq!(rec.extra.len(), 1);
    assert_eq!(rec.extra[0].0, "author");
    assert!(matches!(&rec.extra[0].1, MetaValue::Text(t) if t == "someone"));
}

#[test]
fn link_url_is_percent_escaped() {
    let cfg = test_config();
    let rec = ArticleSidebarData::from_article_meta(
        &cfg,
        "articles/my item.md",
        "---\ntitle: X\n---\n",
    )
    .unwrap();
    assert_eq!(rec.link_url, "articles/my%20item.html");
    let rec = ArticleSidebarData::from_article_meta(
        &cfg,
        "articles/a<b.md",
        "---\ntitle: X\n---\n",
    )
    .unwrap();
    assert_eq!(rec.link_url, "articles/a%3Cb.html");
}
