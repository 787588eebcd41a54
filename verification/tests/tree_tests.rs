use dwwb::sidebar::ArticleSidebarData;
use dwwb::tree::{assemble, push_pending};

fn record(id: &str, title: &str) -> ArticleSidebarData {
    ArticleSidebarData {
        id: id.to_string(),
        title: title.to_string(),
        md_file_path: Some(format!("articles/{id}.md")),
        html_file_path: Some(format!("output/articles/{id}.html")),
        link_url: format!("articles/{id}.html"),
        keywords: Vec::new(),
        extra: Vec::new(),
        sub_articles: Vec::new(),
    }
}

fn index_record() -> ArticleSidebarData {
    ArticleSidebarData {
        id: "index".to_string(),
        title: "Home".to_string(),
        md_file_path: Some("index.md".to_string()),
        html_file_path: Some("output/index.html".to_string()),
        link_url: "index.html".to_string(),
        keywords: Vec::new(),
        extra: Vec::new(),
        sub_articles: Vec::new(),
    }
}

fn shape(n: &ArticleSidebarData) -> (String, Vec<String>) {
    (n.id.clone(), n.sub_articles.iter().map(|c| c.id.clone()).collect())
}

#[test]
fn assemble_builds_synthetic_categories() {
    let pending = vec![("news".to_string(), vec![record("item", "Item")])];
    let root = assemble(index_record(), pending);
    assert_eq!(root.title, "Home");
    assert_eq!(root.sub_articles.len(), 1);
    let news = &root.sub_articles[0];
    assert_eq!(news.id, "news");
    assert_eq!(news.title, "News");
    assert_eq!(news.md_file_path, None);
    assert_eq!(news.sub_articles.len(), 1);
    assert_eq!(news.sub_articles[0].title, "Item");
}

#[test]
fn update_preserves_attached_children() {
    // root -> a (synthetic) -> a/b (article); then a real record for `a`
    let pending = vec![
        ("a".to_string(), vec![record("b", "B")]),
        ("".to_string(), vec![record("a", "A For Real")]),
    ];
    let root = assemble(index_record(), pending);
    assert_eq!(root.sub_articles.len(), 1);
    let a = &root.sub_articles[0];
    assert_eq!(a.id, "a");
    assert_eq!(a.title, "A For Real");
    assert!(a.md_file_path.is_some());
    assert_eq!(a.sub_articles.len(), 1);
    assert_eq!(a.sub_articles[0].id, "b");
}

#[test]
fn assembly_idempotent_on_shape() {
    let entry = || ("a/b".to_string(), vec![record("x", "X"), record("y", "Y")]);
    let once = assemble(index_record(), vec![entry()]);
    let twice = assemble(index_record(), vec![entry(), entry()]);
    assert_eq!(shape(&once), shape(&twice));
    let a1 = &once.sub_articles[0];
    let a2 = &twice.sub_articles[0];
    assert_eq!(shape(a1), shape(a2));
    assert_eq!(shape(&a1.sub_articles[0]), shape(&a2.sub_articles[0]));
}

#[test]
fn duplicate_record_updates_in_place() {
    let pending = vec![("".to_string(), vec![record("a", "First"), record("a", "Second")])];
    let root = assemble(index_record(), pending);
    assert_eq!(root.sub_articles.len(), 1);
    assert_eq!(root.sub_articles[0].title, "Second");
}

#[test]
fn insertion_order_is_kept() {
    let pending = vec![
        ("".to_string(), vec![record("b", "B"), record("a", "A")]),
        ("c".to_string(), vec![record("d", "D")]),
    ];
    let root = assemble(index_record(), pending);
    let ids: Vec<String> = root.sub_articles.iter().map(|c| c.id.clone()).collect();
    assert_eq!(ids, vec!["b".to_string(), "a".to_string(), "c".to_string()]);
}

#[test]
fn push_pending_groups_by_parent() {
    let mut pending: Vec<(String, Vec<ArticleSidebarData>)> = Vec::new();
    push_pending(&mut pending, "news".to_string(), record("one", "One"));
    push_pending(&mut pending, "misc".to_string(), record("two", "Two"));
    push_pending(&mut pending, "news".to_string(), record("three", "Three"));
    assert_eq!(pending.len(), 2);
    assert_eq!(pending[0].0, "news");
    assert_eq!(pending[0].1.len(), 2);
    assert_eq!(pending[0].1[1].id, "three");
    assert_eq!(pending[1].0, "misc");
}

#[test]
fn get_and_get_mut_find_children() {
    let pending = vec![("".to_string(), vec![record("a", "A"), record("b", "B")])];
    let mut root = assemble(index_record(), pending);
    assert_eq!(root.get("b").unwrap().title, "B");
    assert!(root.get("zzz").is_none());
    {
        let b = root.get_mut("b").unwrap();
        b.title = "B2".to_string();
    }
    assert_eq!(root.get("b").unwrap().title, "B2");
    assert!(root.get_mut("zzz").is_none());
}
