use dwwb::config::{ConfigError, DirGlob, DwwbConfig, DwwbInputs, DwwbOutputs};
use dwwb::reconcile::{removable_dirs, stale_outputs};
use dwwb::render::{collect_render_jobs, root_url_prefix};
use dwwb::sidebar::ArticleSidebarData;
use dwwb::tree::assemble;

fn strings(v: &[&str]) -> Vec<String> {
    v.iter().map(|s| s.to_string()).collect()
}

#[test]
fn stale_is_existing_minus_retained() {
    let existing = strings(&["a.html", "b.html", "stale.html"]);
    let retained = strings(&["a.html", "b.html"]);
    assert_eq!(stale_outputs(&existing, &retained), strings(&["stale.html"]));
}

#[test]
fn stale_of_empty_sets() {
    assert_eq!(stale_outputs(&strings(&[]), &strings(&["a"])), Vec::<String>::new());
    assert_eq!(stale_outputs(&strings(&["a"]), &strings(&[])), strings(&["a"]));
}

#[test]
fn empty_directory_is_pruned_but_not_its_busy_parent() {
    // everything inside output/old was deleted; output still has index.html
    let dirs = strings(&["output/old", "output"]);
    let kept = strings(&["output/index.html"]);
    assert_eq!(removable_dirs(&dirs, &kept), strings(&["output/old"]));
}

#[test]
fn nested_empty_directories_are_pruned_contents_first() {
    let dirs = strings(&["output/a/b", "output/a"]);
    let kept = strings(&[]);
    assert_eq!(removable_dirs(&dirs, &kept), strings(&["output/a/b", "output/a"]));
}

#[test]
fn relative_root_prefix_by_depth() {
    assert_eq!(root_url_prefix(0), "");
    assert_eq!(root_url_prefix(2), "../../");
}

fn node(id: &str, md: Option<&str>, children: Vec<ArticleSidebarData>) -> ArticleSidebarData {
    ArticleSidebarData {
        id: id.to_string(),
        title: id.to_string(),
        md_file_path: md.map(|s| s.to_string()),
        html_file_path: md.map(|s| s.replace(".md", ".html")),
        link_url: String::new(),
        keywords: Vec::new(),
        extra: Vec::new(),
        sub_articles: children,
    }
}

#[test]
fn render_jobs_walk_depth_first_with_prefixes() {
    let tree = node(
        "index",
        Some("index.md"),
        vec![node(
            "news",
            None,
            vec![node("item", Some("articles/news/item.md"), Vec::new())],
        )],
    );
    let jobs = collect_render_jobs(&tree, 0);
    assert_eq!(jobs.len(), 2);
    assert_eq!(jobs[0].0.id, "index");
    assert_eq!(jobs[0].1, "");
    assert_eq!(jobs[1].0.id, "item");
    assert_eq!(jobs[1].1, "../../");
}

#[test]
fn render_jobs_respect_articles_root_depth() {
    let tree = node("index", Some("index.md"), Vec::new());
    let jobs = collect_render_jobs(&tree, 1);
    assert_eq!(jobs.len(), 1);
    assert_eq!(jobs[0].1, "../");
}

fn config_with(name: &str, sub: &str, toc: &str, index: &str, root: &str) -> DwwbConfig {
    DwwbConfig {
        name: name.to_string(),
        inputs: DwwbInputs::new(
            index.to_string(),
            "style.css".to_string(),
            DirGlob::new("articles".to_string(), vec!["**/*.md".to_string()]),
            vec![(
                "scripts".to_string(),
                DirGlob::new("scripts".to_string(), vec!["**/*.js".to_string()]),
            )],
        ),
        outputs: DwwbOutputs::new(
            root.to_string(),
            "style.css".to_string(),
            "articles".to_string(),
            vec![("scripts".to_string(), "scripts".to_string())],
        ),
        sub_articles_title: sub.to_string(),
        toc_title: toc.to_string(),
        toc_depth: 3,
        math_renderer: None,
        debug_pandoc_cmd: false,
    }
}

#[test]
fn validate_accepts_a_sound_config() {
    let cfg = config_with("wiki", "Sub-Articles", "Contents", "index.md", "output");
    assert!(cfg.validate().is_ok());
}

#[test]
fn getters_reflect_the_fields() {
    let cfg = config_with("wiki", "Sub-Articles", "Contents", "index.md", "output");
    assert_eq!(cfg.inputs.index(), "index.md");
    assert_eq!(cfg.inputs.style(), "style.css");
    assert_eq!(cfg.inputs.articles_dir(), "articles");
    assert_eq!(cfg.inputs.articles_glob().patterns, vec!["**/*.md".to_string()]);
    assert_eq!(cfg.inputs.scripts_dir(), "scripts");
    assert_eq!(cfg.inputs.scripts_glob().base, "scripts");
    assert_eq!(cfg.inputs.non_articles_dir("scripts"), Some("scripts"));
    assert_eq!(cfg.inputs.non_articles_dir("images"), None);
    assert!(cfg.inputs.non_articles_glob("scripts").is_some());
    assert_eq!(cfg.inputs.non_articles_glob_iter().len(), 1);
    assert_eq!(cfg.outputs.root(), "output");
    assert_eq!(cfg.outputs.style(), "style.css");
    assert_eq!(cfg.outputs.articles_dir(), "articles");
    assert_eq!(cfg.outputs.scripts_dir(), "scripts");
    assert_eq!(cfg.outputs.non_articles_dir("scripts"), Some("scripts"));
    assert_eq!(cfg.outputs.non_article_dir_iter().len(), 1);
}

#[test]
fn default_config_matches_the_scaffold() {
    let cfg = DwwbConfig::default();
    assert_eq!(cfg.name, "");
    assert_eq!(cfg.inputs.index(), "index.md");
    assert_eq!(cfg.inputs.articles_dir(), "articles");
    assert_eq!(cfg.outputs.root(), "html");
    assert_eq!(cfg.sub_articles_title, "Sub-Articles");
    assert_eq!(cfg.toc_title, "Table of Contents");
    assert_eq!(cfg.toc_depth, 3);
    assert!(cfg.math_renderer.is_none());
    assert!(!cfg.debug_pandoc_cmd);
}

#[test]
fn validate_rejects_each_bad_field() {
    let e = config_with("", "s", "t", "index.md", "output").validate().unwrap_err();
    assert!(matches!(e, ConfigError::EmptyName));
    assert_eq!(e.message(), "Name of the project cannot be empty in `dwwb.yaml`");
    let e = config_with("w", "", "t", "index.md", "output").validate().unwrap_err();
    assert!(matches!(e, ConfigError::EmptySubArticlesTitle));
    let e = config_with("w", "s", "", "index.md", "output").validate().unwrap_err();
    assert!(matches!(e, ConfigError::EmptyTocTitle));
    let e = config_with("w", "s", "t", "", "output").validate().unwrap_err();
    assert!(matches!(e, ConfigError::BadIndexPath));
    let e = config_with("w", "s", "t", "index.md", "..").validate().unwrap_err();
    assert!(matches!(e, ConfigError::BadOutputRoot));
}

#[test]
fn validate_requires_matching_category_keys() {
    let mut cfg = config_with("w", "s", "t", "index.md", "output");
    cfg.outputs = DwwbOutputs::new(
        "output".to_string(),
        "style.css".to_string(),
        "articles".to_string(),
        vec![("images".to_string(), "images".to_string())],
    );
    let e = cfg.validate().unwrap_err();
    assert!(matches!(e, ConfigError::KeyMismatch));
    assert_eq!(e.message(), "The inputs must match the outputs in `dwwb.yaml`");
}

#[test]
fn end_to_end_tree_and_paths() {
    let cfg = config_with("wiki", "Sub-Articles", "Contents", "index.md", "output");
    let index = ArticleSidebarData::from_article_meta(&cfg, "index.md", "---\ntitle: Home\n---\n")
        .unwrap();
    assert_eq!(index.html_file_path, Some("output/index.html".to_string()));
    let item = ArticleSidebarData::from_article_meta(
        &cfg,
        "articles/news/item.md",
        "---\ntitle: Item\n---\n",
    )
    .unwrap();
    assert_eq!(item.html_file_path, Some("output/articles/news/item.html".to_string()));
    // the walker strips the articles base off the parent directory
    let mut pending: Vec<(String, Vec<ArticleSidebarData>)> = Vec::new();
    dwwb::tree::push_pending(&mut pending, "news".to_string(), item);
    let root = assemble(index, pending);
    assert_eq!(root.title, "Home");
    assert_eq!(root.sub_articles.len(), 1);
    assert_eq!(root.sub_articles[0].id, "news");
    assert_eq!(root.sub_articles[0].title, "News");
    assert!(root.sub_articles[0].md_file_path.is_none());
    assert_eq!(root.sub_articles[0].sub_articles.len(), 1);
    assert_eq!(root.sub_articles[0].sub_articles[0].title, "Item");
}
