//! The build configuration: input globs, output directories, and the checks
//! that make a configuration usable.

use vstd::prelude::*;

use crate::paths::{spec_file_name, views_of};

verus! {

broadcast use vstd::seq::group_seq_axioms, vstd::std_specs::vec::group_vec_axioms;

/// The configuration file's name.
pub const CFG_FILENAME: &'static str = "dwwb.yaml";

/// A glob pattern set anchored to a base directory.
pub struct DirGlob {
    pub base: String,
    pub patterns: Vec<String>,
}

impl DirGlob {
    pub fn new(base: String, patterns: Vec<String>) -> (r: Self)
        ensures
            r.base == base,
            r.patterns == patterns,
    {
        DirGlob { base, patterns }
    }
}

/// The keys of a named-entry list.
pub open spec fn keys_of<T>(others: Seq<(String, T)>) -> Seq<Seq<char>> {
    others.map_values(|e: (String, T)| e.0@)
}

/// The index of the first entry with the given key, or -1.
pub open spec fn find_key<T>(others: Seq<(String, T)>, key: Seq<char>) -> int
    decreases others.len(),
{
    if others.len() == 0 {
        -1
    } else if others[0].0@ == key {
        0
    } else {
        let r = find_key(others.drop_first(), key);
        if r < 0 {
            -1
        } else {
            r + 1
        }
    }
}

pub proof fn lemma_find_key<T>(others: Seq<(String, T)>, key: Seq<char>)
    ensures
        find_key(others, key) == -1 ==> forall|j: int|
            0 <= j < others.len() ==> others[j].0@ != key,
        find_key(others, key) >= 0 ==> {
            &&& find_key(others, key) < others.len()
            &&& others[find_key(others, key)].0@ == key
            &&& forall|j: int| 0 <= j < find_key(others, key) ==> others[j].0@ != key
        },
    decreases others.len(),
{
    if others.len() > 0 && others[0].0@ != key {
        lemma_find_key(others.drop_first(), key);
        assert forall|j: int| 1 <= j < others.len() implies others[j] == others.drop_first()[j
            - 1] by {}
    }
}

proof fn lemma_find_key_range<T>(others: Seq<(String, T)>, key: Seq<char>, r: int)
    requires
        0 <= r < others.len(),
        others[r].0@ == key,
        forall|j: int| 0 <= j < r ==> others[j].0@ != key,
    ensures
        find_key(others, key) == r,
    decreases others.len(),
{
    if others.len() > 0 && others[0].0@ != key {
        assert forall|j: int| 0 <= j < others.len() - 1 implies others.drop_first()[j] == others[j
            + 1] by {}
        lemma_find_key_range(others.drop_first(), key, r - 1);
    }
}

/// Finds the first entry with the given key.
pub(crate) fn lookup<T>(others: &Vec<(String, T)>, key: &str) -> (r: Option<usize>)
    ensures
        match r {
            Some(i) => i < others@.len() && find_key(others@, key@) == i as int,
            None => find_key(others@, key@) == -1,
        },
{
    proof {
        lemma_find_key(others@, key@);
    }
    let n = others.len();
    let mut i: usize = 0;
    while i < n
        invariant
            n == others@.len(),
            i <= n,
            forall|j: int| 0 <= j < i ==> others@[j].0@ != key@,
        decreases n - i,
    {
        if crate::text::str_eq(others[i].0.as_str(), key) {
            proof {
                lemma_find_key_range(others@, key@, i as int);
            }
            return Some(i);
        }
        i += 1;
    }
    None
}

/// The input side of a configuration.
pub struct DwwbInputs {
    /// The path to the index file.
    index: String,
    /// The path to the stylesheet.
    style: String,
    /// The glob for all the markdown articles.
    articles: DirGlob,
    /// The globs for all other files to be included in the output, under
    /// their category names.
    others: Vec<(String, DirGlob)>,
}

impl DwwbInputs {
    pub closed spec fn spec_index(self) -> Seq<char> {
        self.index@
    }

    pub closed spec fn spec_style(self) -> Seq<char> {
        self.style@
    }

    pub closed spec fn spec_articles(self) -> DirGlob {
        self.articles
    }

    pub closed spec fn spec_others(self) -> Seq<(String, DirGlob)> {
        self.others@
    }

    pub fn new(
        index: String,
        style: String,
        articles: DirGlob,
        others: Vec<(String, DirGlob)>,
    ) -> (r: Self)
        ensures
            r.spec_index() == index@,
            r.spec_style() == style@,
            r.spec_articles() == articles,
            r.spec_others() == others@,
    {
        DwwbInputs { index, style, articles, others }
    }

    /// Returns the path to the markdown index article.
    pub fn index(&self) -> (r: &str)
        ensures
            r@ == self.spec_index(),
    {
        self.index.as_str()
    }

    /// Returns the path to the stylesheet.
    pub fn style(&self) -> (r: &str)
        ensures
            r@ == self.spec_style(),
    {
        self.style.as_str()
    }

    /// Returns the articles input directory path.
    pub fn articles_dir(&self) -> (r: &str)
        ensures
            r@ == self.spec_articles().base@,
    {
        self.articles.base.as_str()
    }

    /// Returns the articles input glob.
    pub fn articles_glob(&self) -> (r: &DirGlob)
        ensures
            *r == self.spec_articles(),
    {
        &self.articles
    }

    /// Returns the input glob with the given name, if it exists.  The
    /// scripts glob is included, and not the articles glob.
    pub fn non_articles_glob(&self, key: &str) -> (r: Option<&DirGlob>)
        ensures
            match r {
                Some(g) => find_key(self.spec_others(), key@) >= 0 && *g == self.spec_others()[
                    find_key(self.spec_others(), key@)
                ].1,
                None => find_key(self.spec_others(), key@) == -1,
            },
    {
        match lookup(&self.others, key) {
            Some(i) => Some(&self.others[i].1),
            None => None,
        }
    }

    /// Returns the input directory with the given name, if it exists.
    pub fn non_articles_dir(&self, key: &str) -> (r: Option<&str>)
        ensures
            match r {
                Some(d) => find_key(self.spec_others(), key@) >= 0 && d@ == self.spec_others()[
                    find_key(self.spec_others(), key@)
                ].1.base@,
                None => find_key(self.spec_others(), key@) == -1,
            },
    {
        match lookup(&self.others, key) {
            Some(i) => Some(self.others[i].1.base.as_str()),
            None => None,
        }
    }

    /// Returns the scripts input glob.
    pub fn scripts_glob(&self) -> (r: &DirGlob)
        requires
            find_key(self.spec_others(), "scripts"@) >= 0,
        ensures
            *r == self.spec_others()[find_key(self.spec_others(), "scripts"@)].1,
    {
        match self.non_articles_glob("scripts") {
            Some(g) => g,
            None => {
                proof {
                    assert(false);
                }
                &self.articles
            },
        }
    }

    /// Returns the scripts input directory path.
    pub fn scripts_dir(&self) -> (r: &str)
        requires
            find_key(self.spec_others(), "scripts"@) >= 0,
        ensures
            r@ == self.spec_others()[find_key(self.spec_others(), "scripts"@)].1.base@,
    {
        self.scripts_glob().base.as_str()
    }

    /// Returns the named input categories and their globs, in order.
    pub fn non_articles_glob_iter(&self) -> (r: &Vec<(String, DirGlob)>)
        ensures
            r@ == self.spec_others(),
    {
        &self.others
    }
}

impl Default for DwwbInputs {
    /// The starting inputs: an `index.md` index, a `style.css` stylesheet,
    /// markdown articles under `articles`, and scripts under `scripts`.
    fn default() -> (r: Self)
        ensures
            r.spec_index() == "index.md"@,
            r.spec_style() == "style.css"@,
            r.spec_articles().base@ == "articles"@,
            views_of(r.spec_articles().patterns@) == seq!["**/*.{md,markdown}"@],
            r.spec_others().len() == 1,
            r.spec_others()[0].0@ == "scripts"@,
            r.spec_others()[0].1.base@ == "scripts"@,
            views_of(r.spec_others()[0].1.patterns@) == seq!["**/*.js"@],
    {
        let mut article_patterns: Vec<String> = Vec::new();
        article_patterns.push("**/*.{md,markdown}".to_owned());
        let mut script_patterns: Vec<String> = Vec::new();
        script_patterns.push("**/*.js".to_owned());
        let mut others: Vec<(String, DirGlob)> = Vec::new();
        others.push(("scripts".to_owned(), DirGlob::new("scripts".to_owned(), script_patterns)));
        let r = DwwbInputs {
            index: "index.md".to_owned(),
            style: "style.css".to_owned(),
            articles: DirGlob::new("articles".to_owned(), article_patterns),
            others,
        };
        proof {
            assert(views_of(r.articles.patterns@) =~= seq!["**/*.{md,markdown}"@]);
            assert(views_of(r.others@[0].1.patterns@) =~= seq!["**/*.js"@]);
        }
        r
    }
}

/// The output side of a configuration.  All paths but the root are relative
/// to the root.
pub struct DwwbOutputs {
    /// The root output directory.
    root: String,
    /// The output stylesheet file.
    style: String,
    /// The articles output directory.
    articles: String,
    /// The output directories for all other file categories.
    others: Vec<(String, String)>,
}

impl DwwbOutputs {
    pub closed spec fn spec_root(self) -> Seq<char> {
        self.root@
    }

    pub closed spec fn spec_style(self) -> Seq<char> {
        self.style@
    }

    pub closed spec fn spec_articles(self) -> Seq<char> {
        self.articles@
    }

    pub closed spec fn spec_others(self) -> Seq<(String, String)> {
        self.others@
    }

    pub fn new(
        root: String,
        style: String,
        articles: String,
        others: Vec<(String, String)>,
    ) -> (r: Self)
        ensures
            r.spec_root() == root@,
            r.spec_style() == style@,
            r.spec_articles() == articles@,
            r.spec_others() == others@,
    {
        DwwbOutputs { root, style, articles, others }
    }

    /// Returns the root output directory path.
    pub fn root(&self) -> (r: &str)
        ensures
            r@ == self.spec_root(),
    {
        self.root.as_str()
    }

    /// Returns the path to the output stylesheet relative to the root.
    pub fn style(&self) -> (r: &str)
        ensures
            r@ == self.spec_style(),
    {
        self.style.as_str()
    }

    /// Returns the articles output directory path relative to the root.
    pub fn articles_dir(&self) -> (r: &str)
        ensures
            r@ == self.spec_articles(),
    {
        self.articles.as_str()
    }

    /// Returns the output directory with the given name relative to the
    /// root, if it exists.  The scripts directory is included, and not the
    /// articles directory.
    pub fn non_articles_dir(&self, key: &str) -> (r: Option<&str>)
        ensures
            match r {
                Some(d) => find_key(self.spec_others(), key@) >= 0 && d@ == self.spec_others()[
                    find_key(self.spec_others(), key@)
                ].1@,
                None => find_key(self.spec_others(), key@) == -1,
            },
    {
        match lookup(&self.others, key) {
            Some(i) => Some(self.others[i].1.as_str()),
            None => None,
        }
    }

    /// Returns the scripts output directory path relative to the root.
    pub fn scripts_dir(&self) -> (r: &str)
        requires
            find_key(self.spec_others(), "scripts"@) >= 0,
        ensures
            r@ == self.spec_others()[find_key(self.spec_others(), "scripts"@)].1@,
    {
        match self.non_articles_dir("scripts") {
            Some(d) => d,
            None => {
                proof {
                    assert(false);
                }
                self.root.as_str()
            },
        }
    }

    /// Returns the named output categories and their directories, in order.
    pub fn non_article_dir_iter(&self) -> (r: &Vec<(String, String)>)
        ensures
            r@ == self.spec_others(),
    {
        &self.others
    }
}

impl Default for DwwbOutputs {
    /// The starting outputs: everything under `html`, with the stylesheet
    /// at `style.css` and articles and scripts in directories of their own.
    fn default() -> (r: Self)
        ensures
            r.spec_root() == "html"@,
            r.spec_style() == "style.css"@,
            r.spec_articles() == "articles"@,
            r.spec_others().len() == 1,
            r.spec_others()[0].0@ == "scripts"@,
            r.spec_others()[0].1@ == "scripts"@,
    {
        let mut others: Vec<(String, String)> = Vec::new();
        others.push(("scripts".to_owned(), "scripts".to_owned()));
        DwwbOutputs {
            root: "html".to_owned(),
            style: "style.css".to_owned(),
            articles: "articles".to_owned(),
            others,
        }
    }
}

/// The math-rendering engine handed to the renderer.
pub enum MathRenderer {
    MathJax(Option<String>),
    MathMl(Option<String>),
    WebTex(Option<String>),
    KaTeX(Option<String>),
    GladTeX,
}

/// Why a configuration was rejected.
pub enum ConfigError {
    /// The project name is empty.
    EmptyName,
    /// `sub_articles_title` is empty.
    EmptySubArticlesTitle,
    /// `toc_title` is empty.
    EmptyTocTitle,
    /// The index path has no file name.
    BadIndexPath,
    /// The output root path has no file name.
    BadOutputRoot,
    /// The named input categories do not match the named output categories.
    KeyMismatch,
}

impl ConfigError {
    /// The error rendered as the configuration file's diagnostic message.
    pub fn message(&self) -> (r: String)
        ensures
            r@ == self.spec_message(),
    {
        match self {
            ConfigError::EmptyName => "Name of the project cannot be empty in `dwwb.yaml`".to_owned(),
            ConfigError::EmptySubArticlesTitle => "`sub_articles_title` cannot be empty in `dwwb.yaml`".to_owned(),
            ConfigError::EmptyTocTitle => "`toc_title` cannot be empty in `dwwb.yaml`".to_owned(),
            ConfigError::BadIndexPath => "`inputs.index` must have a name in `dwwb.yaml`".to_owned(),
            ConfigError::BadOutputRoot => "`outputs.root` must have a name in `dwwb.yaml`".to_owned(),
            ConfigError::KeyMismatch => "The inputs must match the outputs in `dwwb.yaml`".to_owned(),
        }
    }

    pub open spec fn spec_message(self) -> Seq<char> {
        match self {
            ConfigError::EmptyName => "Name of the project cannot be empty in `dwwb.yaml`"@,
            ConfigError::EmptySubArticlesTitle => "`sub_articles_title` cannot be empty in `dwwb.yaml`"@,
            ConfigError::EmptyTocTitle => "`toc_title` cannot be empty in `dwwb.yaml`"@,
            ConfigError::BadIndexPath => "`inputs.index` must have a name in `dwwb.yaml`"@,
            ConfigError::BadOutputRoot => "`outputs.root` must have a name in `dwwb.yaml`"@,
            ConfigError::KeyMismatch => "The inputs must match the outputs in `dwwb.yaml`"@,
        }
    }
}

/// A whole build configuration.
pub struct DwwbConfig {
    pub name: String,
    pub inputs: DwwbInputs,
    pub outputs: DwwbOutputs,
    pub sub_articles_title: String,
    pub toc_title: String,
    pub toc_depth: u32,
    pub math_renderer: Option<MathRenderer>,
    /// A debug option to print out the renderer's command line.
    pub debug_pandoc_cmd: bool,
}

impl Default for DwwbConfig {
    /// The starting configuration: default inputs and outputs, the stock
    /// section titles, a table of contents three levels deep, and no math
    /// renderer; the project name is left empty for the caller to fill in.
    fn default() -> (r: Self)
        ensures
            r.name@.len() == 0,
            r.inputs.spec_index() == "index.md"@,
            r.inputs.spec_style() == "style.css"@,
            r.inputs.spec_articles().base@ == "articles"@,
            r.inputs.spec_others().len() == 1,
            r.inputs.spec_others()[0].0@ == "scripts"@,
            r.outputs.spec_root() == "html"@,
            r.outputs.spec_style() == "style.css"@,
            r.outputs.spec_articles() == "articles"@,
            r.outputs.spec_others().len() == 1,
            r.outputs.spec_others()[0].0@ == "scripts"@,
            r.outputs.spec_others()[0].1@ == "scripts"@,
            r.sub_articles_title@ == "Sub-Articles"@,
            r.toc_title@ == "Table of Contents"@,
            r.toc_depth == 3u32,
            r.math_renderer is None,
            !r.debug_pandoc_cmd,
    {
        DwwbConfig {
            name: String::new(),
            inputs: Default::default(),
            outputs: Default::default(),
            sub_articles_title: "Sub-Articles".to_owned(),
            toc_title: "Table of Contents".to_owned(),
            toc_depth: 3,
            math_renderer: None,
            debug_pandoc_cmd: false,
        }
    }
}

impl DwwbConfig {
    /// The first configuration check that fails, if any.
    pub open spec fn spec_validate(self) -> Option<ConfigError> {
        if self.name@.len() == 0 {
            Some(ConfigError::EmptyName)
        } else if self.sub_articles_title@.len() == 0 {
            Some(ConfigError::EmptySubArticlesTitle)
        } else if self.toc_title@.len() == 0 {
            Some(ConfigError::EmptyTocTitle)
        } else if spec_file_name(self.inputs.spec_index()) is None {
            Some(ConfigError::BadIndexPath)
        } else if spec_file_name(self.outputs.spec_root()) is None {
            Some(ConfigError::BadOutputRoot)
        } else if keys_of(self.inputs.spec_others()) != keys_of(self.outputs.spec_others()) {
            Some(ConfigError::KeyMismatch)
        } else {
            None
        }
    }

    /// Checks whether this is a valid configuration: a named project with
    /// non-empty titles, named index and output-root paths, and matching
    /// named input and output categories.
    #[verifier::loop_isolation(false)]
    pub fn validate(&self) -> (r: Result<(), ConfigError>)
        ensures
            match r {
                Ok(()) => self.spec_validate() is None,
                Err(e) => self.spec_validate() == Some(e),
            },
    {
        if self.name.as_str().unicode_len() == 0 {
            return Err(ConfigError::EmptyName);
        }
        if self.sub_articles_title.as_str().unicode_len() == 0 {
            return Err(ConfigError::EmptySubArticlesTitle);
        }
        if self.toc_title.as_str().unicode_len() == 0 {
            return Err(ConfigError::EmptyTocTitle);
        }
        if crate::paths::file_name(self.inputs.index()).is_none() {
            return Err(ConfigError::BadIndexPath);
        }
        if crate::paths::file_name(self.outputs.root()).is_none() {
            return Err(ConfigError::BadOutputRoot);
        }
        let ins = self.inputs.non_articles_glob_iter();
        let outs = self.outputs.non_article_dir_iter();
        if ins.len() != outs.len() {
            proof {
                assert(keys_of(self.inputs.spec_others()).len() != keys_of(
                    self.outputs.spec_others(),
                ).len());
            }
            return Err(ConfigError::KeyMismatch);
        }
        let n = ins.len();
        let mut i: usize = 0;
        while i < n
            invariant
                n == ins@.len() == outs@.len(),
                i <= n,
                ins@ == self.inputs.spec_others(),
                outs@ == self.outputs.spec_others(),
                forall|j: int| 0 <= j < i ==> keys_of(ins@)[j] == keys_of(outs@)[j],
            decreases n - i,
        {
            if !crate::text::str_eq(ins[i].0.as_str(), outs[i].0.as_str()) {
                proof {
                    assert(keys_of(ins@)[i as int] != keys_of(outs@)[i as int]);
                }
                return Err(ConfigError::KeyMismatch);
            }
            i += 1;
        }
        proof {
            assert(keys_of(ins@) =~= keys_of(outs@));
        }
        Ok(())
    }
}

} // verus!
