//! The navigation tree: one node per article or synthetic category.

use vstd::prelude::*;

use crate::config::DwwbConfig;
use crate::meta::{spec_extract, ErrShape, ExtractError, MetaValue};

verus! {

broadcast use vstd::seq::group_seq_axioms, vstd::std_specs::vec::group_vec_axioms;

/// One node of the navigation tree: a real article, or a synthetic category
/// standing for a directory without its own content.
#[derive(Debug)]
pub struct ArticleSidebarData {
    /// Unique among the direct children of any one node.
    pub id: String,
    pub title: String,
    /// The backing markdown file; `None` for synthetic categories.
    pub md_file_path: Option<String>,
    /// The rendered output file; set exactly when `md_file_path` is.
    pub html_file_path: Option<String>,
    /// Percent-escaped link target; empty for nodes without output.
    pub link_url: String,
    pub keywords: Vec<String>,
    /// Unrecognized metadata keys, kept for pass-through.
    pub extra: Vec<(String, MetaValue)>,
    pub sub_articles: Vec<ArticleSidebarData>,
}

/// The mathematical shape of a node.
pub ghost struct NodeModel {
    pub id: Seq<char>,
    pub title: Seq<char>,
    pub md_file_path: Option<Seq<char>>,
    pub html_file_path: Option<Seq<char>>,
    pub link_url: Seq<char>,
    pub keywords: Seq<Seq<char>>,
    pub extra: Seq<(Seq<char>, MetaValue)>,
    pub children: Seq<NodeModel>,
}

/// The view of an optional string.
pub open spec fn opt_view(o: Option<String>) -> Option<Seq<char>> {
    match o {
        Some(s) => Some(s@),
        None => None,
    }
}

impl ArticleSidebarData {
    /// The model of this node.
    pub open spec fn model(self) -> NodeModel
        decreases self,
    {
        NodeModel {
            id: self.id@,
            title: self.title@,
            md_file_path: opt_view(self.md_file_path),
            html_file_path: opt_view(self.html_file_path),
            link_url: self.link_url@,
            keywords: crate::paths::views_of(self.keywords@),
            extra: crate::meta::entries_view(self.extra@),
            children: children_models(self.sub_articles@),
        }
    }
}

/// The models of a sequence of nodes.
pub open spec fn children_models(s: Seq<ArticleSidebarData>) -> Seq<NodeModel>
    decreases s,
{
    if s.len() == 0 {
        Seq::empty()
    } else {
        seq![s[0].model()] + children_models(s.drop_first())
    }
}

/// `children_models` is the pointwise model.
pub proof fn lemma_children_models(s: Seq<ArticleSidebarData>)
    ensures
        children_models(s).len() == s.len(),
        forall|i: int| 0 <= i < s.len() ==> children_models(s)[i] == s[i].model(),
    decreases s,
{
    if s.len() > 0 {
        lemma_children_models(s.drop_first());
        assert forall|i: int| 1 <= i < s.len() implies s.drop_first()[i - 1] == s[i] by {}
    }
}

impl NodeModel {
    /// The same node with other children.
    pub open spec fn with_children(self, children: Seq<NodeModel>) -> NodeModel {
        NodeModel { children, ..self }
    }
}

/// The index of the first child with the given id, or -1.
pub open spec fn find_child(children: Seq<NodeModel>, id: Seq<char>) -> int
    decreases children.len(),
{
    if children.len() == 0 {
        -1
    } else if children[0].id == id {
        0
    } else {
        let r = find_child(children.drop_first(), id);
        if r < 0 {
            -1
        } else {
            r + 1
        }
    }
}

pub proof fn lemma_find_child(children: Seq<NodeModel>, id: Seq<char>)
    ensures
        find_child(children, id) == -1 ==> forall|j: int|
            0 <= j < children.len() ==> children[j].id != id,
        find_child(children, id) >= 0 ==> {
            &&& find_child(children, id) < children.len()
            &&& children[find_child(children, id)].id == id
            &&& forall|j: int| 0 <= j < find_child(children, id) ==> children[j].id != id
        },
    decreases children.len(),
{
    if children.len() > 0 && children[0].id != id {
        lemma_find_child(children.drop_first(), id);
        assert forall|j: int| 1 <= j < children.len() implies children[j]
            == children.drop_first()[j - 1] by {}
    }
}

impl ArticleSidebarData {
    /// Returns a reference to the sub-article with the given id if it exists.
    pub fn get(&self, sub_article_id: &str) -> (r: Option<&ArticleSidebarData>)
        ensures
            match r {
                Some(c) => {
                    &&& find_child(self.model().children, sub_article_id@) >= 0
                    &&& c.model() == self.model().children[find_child(
                        self.model().children,
                        sub_article_id@,
                    )]
                },
                None => find_child(self.model().children, sub_article_id@) == -1,
            },
    {
        let ghost cs = self.model().children;
        proof {
            lemma_find_child(cs, sub_article_id@);
            lemma_children_models(self.sub_articles@);
        }
        let n = self.sub_articles.len();
        let mut i: usize = 0;
        while i < n
            invariant
                n == self.sub_articles@.len(),
                i <= n,
                cs == self.model().children,
                cs.len() == n,
                forall|j: int| 0 <= j < n ==> cs[j] == self.sub_articles@[j].model(),
                forall|j: int| 0 <= j < i ==> cs[j].id != sub_article_id@,
            decreases n - i,
        {
            if crate::text::str_eq(self.sub_articles[i].id.as_str(), sub_article_id) {
                proof {
                    lemma_find_child_range(cs, sub_article_id@, i as int);
                }
                return Some(&self.sub_articles[i]);
            }
            i += 1;
        }
        None
    }
}

impl ArticleSidebarData {
    /// Returns a mutable reference to the sub-article with the given id if
    /// it exists; writing through it replaces exactly that child.
    pub fn get_mut(&mut self, sub_article_id: &str) -> (r: Option<&mut ArticleSidebarData>)
        ensures
            match r {
                Some(c) => {
                    &&& find_child(old(self).model().children, sub_article_id@) >= 0
                    &&& *c == old(self).sub_articles@[find_child(
                        old(self).model().children,
                        sub_article_id@,
                    )]
                    &&& final(self).sub_articles@ == old(self).sub_articles@.update(
                        find_child(old(self).model().children, sub_article_id@),
                        *final(c),
                    )
                    &&& final(self).id == old(self).id
                    &&& final(self).title == old(self).title
                    &&& final(self).md_file_path == old(self).md_file_path
                    &&& final(self).html_file_path == old(self).html_file_path
                    &&& final(self).link_url == old(self).link_url
                    &&& final(self).keywords == old(self).keywords
                    &&& final(self).extra == old(self).extra
                },
                None => {
                    &&& find_child(old(self).model().children, sub_article_id@) == -1
                    &&& *final(self) == *old(self)
                },
            },
    {
        let ghost cs = self.model().children;
        proof {
            lemma_find_child(cs, sub_article_id@);
            lemma_children_models(self.sub_articles@);
        }
        let n = self.sub_articles.len();
        let mut i: usize = 0;
        while i < n
            invariant
                n == self.sub_articles@.len(),
                i <= n,
                *self == *old(self),
                cs == self.model().children,
                cs.len() == n,
                forall|j: int| 0 <= j < n ==> cs[j] == self.sub_articles@[j].model(),
                forall|j: int| 0 <= j < i ==> cs[j].id != sub_article_id@,
            decreases n - i,
        {
            if crate::text::str_eq(self.sub_articles[i].id.as_str(), sub_article_id) {
                proof {
                    lemma_find_child_range(cs, sub_article_id@, i as int);
                }
                return Some(&mut self.sub_articles[i]);
            }
            i += 1;
        }
        None
    }
}

impl ArticleSidebarData {
    /// Generates the data needed for the sidebar from the front-matter
    /// block of the given article text.
    ///
    /// Will not set the `sub_articles` field.
    pub fn from_article_meta(cfg: &DwwbConfig, md_path: &str, contents: &str) -> (r: Result<
        ArticleSidebarData,
        ExtractError,
    >)
        ensures
            match r {
                Ok(rec) => spec_extract(
                    cfg.outputs.spec_root(),
                    cfg.outputs.spec_articles(),
                    md_path@,
                    contents@,
                ) == Ok::<NodeModel, ErrShape>(rec.model()),
                Err(e) => spec_extract(
                    cfg.outputs.spec_root(),
                    cfg.outputs.spec_articles(),
                    md_path@,
                    contents@,
                ) == Err::<NodeModel, ErrShape>(e.shape()) && e.spec_file() == md_path@,
            },
    {
        let ghost g_root = cfg.outputs.spec_root();
        let ghost g_adir = cfg.outputs.spec_articles();
        // the article's output file
        let parent = crate::paths::parent_path(cfg.outputs.articles_dir());
        let rel = crate::paths::path_join(parent.as_str(), md_path);
        let full = crate::paths::path_join(cfg.outputs.root(), rel.as_str());
        let html_path = crate::paths::with_extension(full.as_str(), "html");
        proof {
            assert(html_path@ == crate::meta::spec_html_path(g_root, g_adir, md_path@));
        }
        // the front-matter block
        let block = match crate::meta::extract_front_matter(contents) {
            Some(b) => b,
            None => {
                return Err(ExtractError::MissingMetadataBlock { file: md_path.to_owned() });
            },
        };
        // its parsed interior
        let entries = match crate::meta::parse_yaml_mapping(block.as_str()) {
            Ok(es) => es,
            Err(m) => {
                return Err(
                    ExtractError::InvalidMetadataSyntax { file: md_path.to_owned(), message: m },
                );
            },
        };
        let ghost ev = crate::meta::entries_view(entries@);
        let known = crate::meta::split_known_keys(entries);
        // the required title
        let title = match known.title {
            Some(MetaValue::Text(t)) => t,
            Some(other) => {
                return Err(
                    ExtractError::WrongFieldType {
                        field: "title".to_owned(),
                        expected: "a YAML string".to_owned(),
                        found: crate::meta::yaml_type_to_name(&other).to_owned(),
                        file: md_path.to_owned(),
                    },
                );
            },
            None => {
                return Err(ExtractError::MissingTitle { file: md_path.to_owned() });
            },
        };
        // the optional keyword list
        let keywords = match known.keywords {
            Some(MetaValue::List(xs)) => crate::meta::keyword_strings(xs),
            Some(other) => {
                return Err(
                    ExtractError::WrongFieldType {
                        field: "keywords".to_owned(),
                        expected: "a YAML sequence".to_owned(),
                        found: crate::meta::yaml_type_to_name(&other).to_owned(),
                        file: md_path.to_owned(),
                    },
                );
            },
            None => Vec::new(),
        };
        // the id: an explicit non-empty override, or the file's stem
        let id = match known.id {
            Some(MetaValue::Text(t)) => {
                if t.as_str().unicode_len() == 0 {
                    crate::paths::file_stem(md_path)
                } else {
                    t
                }
            },
            Some(other) => {
                return Err(
                    ExtractError::WrongFieldType {
                        field: "id".to_owned(),
                        expected: "a YAML string".to_owned(),
                        found: crate::meta::yaml_type_to_name(&other).to_owned(),
                        file: md_path.to_owned(),
                    },
                );
            },
            None => crate::paths::file_stem(md_path),
        };
        // the link: an explicit non-empty override, or the output path
        // relative to the output root, escaped as a URL fragment
        let default_link = {
            let rel_url = match crate::paths::strip_path_prefix(
                html_path.as_str(),
                cfg.outputs.root(),
            ) {
                Some(r2) => r2,
                None => crate::paths::path_to_url(html_path.as_str()),
            };
            crate::util::encode_fragment(rel_url.as_str())
        };
        proof {
            assert(default_link@ == crate::meta::spec_link_default(g_root, html_path@));
        }
        let link_url = match known.link_dash {
            Some(MetaValue::Text(t)) => {
                if t.as_str().unicode_len() == 0 {
                    default_link
                } else {
                    t
                }
            },
            Some(other) => {
                return Err(
                    ExtractError::WrongFieldType {
                        field: "link-url".to_owned(),
                        expected: "a YAML string".to_owned(),
                        found: crate::meta::yaml_type_to_name(&other).to_owned(),
                        file: md_path.to_owned(),
                    },
                );
            },
            None => match known.link_us {
                Some(MetaValue::Text(t)) => {
                    if t.as_str().unicode_len() == 0 {
                        default_link
                    } else {
                        t
                    }
                },
                Some(other) => {
                    return Err(
                        ExtractError::WrongFieldType {
                            field: "link_url".to_owned(),
                            expected: "a YAML string".to_owned(),
                            found: crate::meta::yaml_type_to_name(&other).to_owned(),
                            file: md_path.to_owned(),
                        },
                    );
                },
                None => default_link,
            },
        };
        let rec = ArticleSidebarData {
            id,
            title,
            md_file_path: Some(md_path.to_owned()),
            html_file_path: Some(html_path),
            link_url,
            keywords,
            extra: known.extra,
            sub_articles: Vec::new(),
        };
        proof {
            assert(children_models(rec.sub_articles@) =~= Seq::<NodeModel>::empty());
            let sr = crate::meta::spec_article_record(g_root, g_adir, md_path@, ev);
            assert(sr is Ok);
            let sm = sr->Ok_0;
            let m = rec.model();
            assert(m.id == sm.id);
            assert(m.title == sm.title);
            assert(m.md_file_path == sm.md_file_path);
            assert(m.html_file_path == sm.html_file_path);
            assert(m.link_url == sm.link_url);
            assert(m.keywords == sm.keywords);
            assert(m.extra == sm.extra);
            assert(m.children == sm.children);
            assert(crate::meta::spec_article_record(g_root, g_adir, md_path@, ev) == Ok::<
                NodeModel,
                ErrShape,
            >(rec.model()));
        }
        Ok(rec)
    }
}

/// If the ids before `r` differ and the id at `r` matches, `r` is the first.
pub proof fn lemma_find_child_range(children: Seq<NodeModel>, id: Seq<char>, r: int)
    requires
        0 <= r < children.len(),
        children[r].id == id,
        forall|j: int| 0 <= j < r ==> children[j].id != id,
    ensures
        find_child(children, id) == r,
    decreases children.len(),
{
    if children.len() > 0 && children[0].id != id {
        assert forall|j: int| 0 <= j < children.len() - 1 implies children.drop_first()[j]
            == children[j + 1] by {}
        lemma_find_child_range(children.drop_first(), id, r - 1);
    }
}

} // verus!
