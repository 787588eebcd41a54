//! Article metadata: the value model for parsed front-matter documents and
//! the extraction error type.

use std::collections::BTreeMap;

use vstd::prelude::*;

verus! {

broadcast use {vstd::seq::group_seq_axioms, vstd::string::group_string_axioms};

/// A structured value from a parsed front-matter document.
///
/// Scalars keep their text; sequences and mappings keep their shape.  This is
/// the library's own mirror of what the YAML parser hands back.
#[derive(Debug)]
pub enum MetaValue {
    Null,
    Bool(bool),
    /// A numeric scalar, kept as its canonical text.
    Number(String),
    Text(String),
    List(Vec<MetaValue>),
    Dict(Vec<(MetaValue, MetaValue)>),
    /// A tagged value: the tag's text and the value under it.
    Tagged(String, Box<MetaValue>),
}

/// The human-readable name of a value's kind, as used in error messages.
pub fn yaml_type_to_name(val: &MetaValue) -> (r: &'static str)
    ensures
        r@ == spec_type_name(*val),
{
    match val {
        MetaValue::Null => "null",
        MetaValue::Bool(_) => "a boolean",
        MetaValue::Number(_) => "a number",
        MetaValue::Text(_) => "a string",
        MetaValue::List(_) => "a sequence",
        MetaValue::Dict(_) => "a mapping",
        MetaValue::Tagged(_, _) => "a tagged value",
    }
}

/// The kind name of a value.
pub open spec fn spec_type_name(val: MetaValue) -> Seq<char> {
    match val {
        MetaValue::Null => "null"@,
        MetaValue::Bool(_) => "a boolean"@,
        MetaValue::Number(_) => "a number"@,
        MetaValue::Text(_) => "a string"@,
        MetaValue::List(_) => "a sequence"@,
        MetaValue::Dict(_) => "a mapping"@,
        MetaValue::Tagged(_, _) => "a tagged value"@,
    }
}

// --- The front-matter block grammar -------------------------------------
//
// A front-matter block opens with a line that is exactly `---`, standing at
// the very start of the text or directly after an empty line, and closes at
// the next following line that is exactly `---` or `...`.  Lines may end in
// `\r\n`; the `\r` belongs to the terminator, not to the line's content.

/// Index of the first `c` at or after `i`, or the length of `s`.
pub open spec fn find_from(s: Seq<char>, i: int, c: char) -> int
    decreases s.len() - i,
{
    if i < 0 || i >= s.len() {
        s.len() as int
    } else if s[i] == c {
        i
    } else {
        find_from(s, i + 1, c)
    }
}

pub proof fn lemma_find_from_bounds(s: Seq<char>, i: int, c: char)
    requires
        0 <= i <= s.len(),
    ensures
        i <= find_from(s, i, c) <= s.len(),
    decreases s.len() - i,
{
    if i < s.len() && s[i] != c {
        lemma_find_from_bounds(s, i + 1, c);
    }
}

/// Where the content of the line starting at `i` ends: before the line's
/// `\n`, and before a `\r` directly preceding it.
pub open spec fn content_end(s: Seq<char>, i: int) -> int {
    let e = find_from(s, i, '\n');
    if e > i && s[e - 1] == '\r' {
        e - 1
    } else {
        e
    }
}

/// The content of the line starting at `i`.
pub open spec fn line_content(s: Seq<char>, i: int) -> Seq<char> {
    s.subrange(i, content_end(s, i))
}

/// Whether an empty line ends directly before position `i`.
pub open spec fn blank_before(s: Seq<char>, i: int) -> bool {
    &&& i >= 2
    &&& s[i - 1] == '\n'
    &&& (s[i - 2] == '\n' || (i >= 3 && s[i - 2] == '\r' && s[i - 3] == '\n'))
}

/// Whether position `i` starts a line.
pub open spec fn line_start(s: Seq<char>, i: int) -> bool {
    i == 0 || s[i - 1] == '\n'
}

/// Whether a block-opening `---` line starts at `i`.
pub open spec fn opener_at(s: Seq<char>, i: int) -> bool {
    &&& i == 0 || blank_before(s, i)
    &&& line_content(s, i) == seq!['-', '-', '-']
}

/// Whether a block-terminating `---` or `...` line starts at `i`.
pub open spec fn term_at(s: Seq<char>, i: int) -> bool {
    &&& line_start(s, i)
    &&& (line_content(s, i) == seq!['-', '-', '-'] || line_content(s, i) == seq!['.', '.', '.'])
}

/// The first opener position at or after `i`, or -1.
pub open spec fn first_opener_from(s: Seq<char>, i: int) -> int
    decreases s.len() - i,
{
    if i < 0 || i >= s.len() {
        -1
    } else if opener_at(s, i) {
        i
    } else {
        first_opener_from(s, i + 1)
    }
}

/// The first terminator position at or after `i`, or -1.
pub open spec fn first_term_from(s: Seq<char>, i: int) -> int
    decreases s.len() - i,
{
    if i < 0 || i >= s.len() {
        -1
    } else if term_at(s, i) {
        i
    } else {
        first_term_from(s, i + 1)
    }
}

/// The front-matter block's interior: everything between the first opener
/// line and the first terminator line after it, or nothing when either is
/// missing.
pub open spec fn spec_front_matter(s: Seq<char>) -> Option<Seq<char>> {
    let o = first_opener_from(s, 0);
    if o < 0 {
        None
    } else {
        let b = find_from(s, o, '\n') + 1;
        if b > s.len() {
            None
        } else {
            let t = first_term_from(s, b);
            if t < 0 {
                None
            } else {
                Some(s.subrange(b, t))
            }
        }
    }
}

/// Exec scan for a character, mirroring `find_from`.
fn e_find_from(s: &str, n: usize, from: usize, c: char) -> (r: usize)
    requires
        n == s@.len(),
        from <= n,
    ensures
        r as int == find_from(s@, from as int, c),
        from <= r <= n,
    decreases n - from,
{
    if from == n {
        n
    } else if s.get_char(from) == c {
        from
    } else {
        e_find_from(s, n, from + 1, c)
    }
}

/// Exec content end of the line starting at `i`.
fn e_content_end(s: &str, n: usize, i: usize) -> (r: usize)
    requires
        n == s@.len(),
        i <= n,
    ensures
        r as int == content_end(s@, i as int),
        i <= r <= n,
{
    let e = e_find_from(s, n, i, '\n');
    if e > i && s.get_char(e - 1) == '\r' {
        e - 1
    } else {
        e
    }
}

/// Whether the line at `i` consists of exactly `c` three times.
fn e_line_is3(s: &str, n: usize, i: usize, c: char) -> (r: bool)
    requires
        n == s@.len(),
        i <= n,
    ensures
        r == (line_content(s@, i as int) == seq![c, c, c]),
{
    let ce = e_content_end(s, n, i);
    if ce - i == 3 && s.get_char(i) == c && s.get_char(i + 1) == c && s.get_char(i + 2) == c {
        proof {
            assert(line_content(s@, i as int) =~= seq![c, c, c]);
        }
        true
    } else {
        proof {
            lemma_find_from_bounds(s@, i as int, '\n');
            assert(i <= content_end(s@, i as int) <= s@.len());
            if line_content(s@, i as int) == seq![c, c, c] {
                assert(line_content(s@, i as int).len() == 3);
                assert(content_end(s@, i as int) - i == 3);
                assert(s@[i as int] == line_content(s@, i as int)[0]);
                assert(s@[i + 1] == line_content(s@, i as int)[1]);
                assert(s@[i + 2] == line_content(s@, i as int)[2]);
            }
        }
        false
    }
}

/// Whether a block opener stands at `i`.
fn e_opener_at(s: &str, n: usize, i: usize) -> (r: bool)
    requires
        n == s@.len(),
        i <= n,
    ensures
        r == opener_at(s@, i as int),
{
    let pre_ok = i == 0 || (i >= 2 && s.get_char(i - 1) == '\n' && (s.get_char(i - 2) == '\n' || (
    i >= 3 && s.get_char(i - 2) == '\r' && s.get_char(i - 3) == '\n')));
    pre_ok && e_line_is3(s, n, i, '-')
}

/// Whether a block terminator stands at `i`.
fn e_term_at(s: &str, n: usize, i: usize) -> (r: bool)
    requires
        n == s@.len(),
        i <= n,
    ensures
        r == term_at(s@, i as int),
{
    let start_ok = i == 0 || s.get_char(i - 1) == '\n';
    start_ok && (e_line_is3(s, n, i, '-') || e_line_is3(s, n, i, '.'))
}

proof fn lemma_first_opener_range(s: Seq<char>, from: int, r: int)
    requires
        0 <= from <= r <= s.len(),
        forall|j: int| from <= j < r ==> !opener_at(s, j),
        r < s.len() ==> opener_at(s, r),
    ensures
        r < s.len() ==> first_opener_from(s, from) == r,
        r == s.len() ==> first_opener_from(s, from) == -1,
    decreases r - from,
{
    if from < r {
        lemma_first_opener_range(s, from + 1, r);
    }
}

proof fn lemma_first_term_range(s: Seq<char>, from: int, r: int)
    requires
        0 <= from <= r <= s.len(),
        forall|j: int| from <= j < r ==> !term_at(s, j),
        r < s.len() ==> term_at(s, r),
    ensures
        r < s.len() ==> first_term_from(s, from) == r,
        r == s.len() ==> first_term_from(s, from) == -1,
    decreases r - from,
{
    if from < r {
        lemma_first_term_range(s, from + 1, r);
    }
}

/// Extracts the front-matter block's interior text, if the text has one.
pub fn extract_front_matter(text: &str) -> (r: Option<String>)
    ensures
        match r {
            Some(x) => spec_front_matter(text@) == Some(x@),
            None => spec_front_matter(text@) is None,
        },
{
    let n = text.unicode_len();
    // find the first opener
    let mut i: usize = 0;
    let mut opener: Option<usize> = None;
    while i < n && opener.is_none()
        invariant
            n == text@.len(),
            i <= n,
            opener matches Some(o) ==> o < n && opener_at(text@, o as int) && forall|j: int|
                0 <= j < o ==> !opener_at(text@, j),
            opener is None ==> forall|j: int| 0 <= j < i ==> !opener_at(text@, j),
        decreases n - i,
    {
        if e_opener_at(text, n, i) {
            opener = Some(i);
        }
        i += 1;
    }
    let o = match opener {
        Some(o) => {
            proof {
                lemma_first_opener_range(text@, 0, o as int);
            }
            o
        },
        None => {
            proof {
                lemma_first_opener_range(text@, 0, n as int);
            }
            return None;
        },
    };
    // the interior begins on the next line
    let e = e_find_from(text, n, o, '\n');
    if e == n {
        // the opener line is the last one: nothing can terminate the block
        return None;
    }
    let b = e + 1;
    // find the first terminator at or after b
    let mut j: usize = b;
    let mut term: Option<usize> = None;
    while j < n && term.is_none()
        invariant
            n == text@.len(),
            b <= j <= n,
            term matches Some(t) ==> b <= t < n && term_at(text@, t as int) && forall|k: int|
                b <= k < t ==> !term_at(text@, k),
            term is None ==> forall|k: int| b <= k < j ==> !term_at(text@, k),
        decreases n - j,
    {
        if e_term_at(text, n, j) {
            term = Some(j);
        }
        j += 1;
    }
    match term {
        Some(t) => {
            proof {
                lemma_first_term_range(text@, b as int, t as int);
            }
            Some(text.substring_char(b, t).to_owned())
        },
        None => {
            proof {
                lemma_first_term_range(text@, b as int, n as int);
            }
            None
        },
    }
}

// --- Parsing the block's interior ---------------------------------------

#[verifier::external_type_specification]
#[verifier::external_body]
pub struct ExYamlValue(serde_yaml::Value);

/// What the YAML parser makes of a key/value document: its entries with
/// their keys in sorted order, or the parser's message.
pub uninterp spec fn yaml_doc_of(s: Seq<char>) -> Result<Seq<(Seq<char>, MetaValue)>, Seq<char>>;

/// Relies on `serde_yaml::Value`: the conversion moves each variant's
/// payload into the library's own value type, keeping scalars as text.
#[verifier::external_body]
fn meta_value_of_yaml(v: serde_yaml::Value) -> MetaValue {
    match v {
        serde_yaml::Value::Null => MetaValue::Null,
        serde_yaml::Value::Bool(b) => MetaValue::Bool(b),
        serde_yaml::Value::Number(n) => MetaValue::Number(n.to_string()),
        serde_yaml::Value::String(t) => MetaValue::Text(t),
        serde_yaml::Value::Sequence(x) => MetaValue::List(x.into_iter().map(meta_value_of_yaml).collect()),
        serde_yaml::Value::Mapping(m) => MetaValue::Dict(m.into_iter().map(|(k, w)| (meta_value_of_yaml(k), meta_value_of_yaml(w))).collect()),
        serde_yaml::Value::Tagged(t) => MetaValue::Tagged(t.tag.to_string(), Box::new(meta_value_of_yaml(t.value))),
    }
}

/// Relies on `serde_yaml::from_str::<BTreeMap<String, Value>>`: parsing is
/// deterministic in the text alone, a non-mapping document or one with a
/// non-string key is an error, and the map hands its entries back with
/// unique keys in sorted order.
#[verifier::external_body]
pub fn parse_yaml_mapping(s: &str) -> (r: Result<Vec<(String, MetaValue)>, String>)
    ensures
        match r {
            Ok(entries) => yaml_doc_of(s@) == Ok::<Seq<(Seq<char>, MetaValue)>, Seq<char>>(
                entries_view(entries@),
            ),
            Err(m) => yaml_doc_of(s@) == Err::<Seq<(Seq<char>, MetaValue)>, Seq<char>>(m@),
        },
{
    match serde_yaml::from_str::<BTreeMap<String, serde_yaml::Value>>(s) {
        Ok(m) => Ok(m.into_iter().map(|(k, v)| (k, meta_value_of_yaml(v))).collect()),
        Err(e) => Err(e.to_string()),
    }
}

/// The view of a parsed entry list.
pub open spec fn entries_view(v: Seq<(String, MetaValue)>) -> Seq<(Seq<char>, MetaValue)> {
    v.map_values(|p: (String, MetaValue)| (p.0@, p.1))
}

// --- Reading the recognized keys ----------------------------------------

/// The value under the first entry with the given key.
pub open spec fn lookup_meta(entries: Seq<(Seq<char>, MetaValue)>, key: Seq<char>) -> Option<
    MetaValue,
>
    decreases entries.len(),
{
    if entries.len() == 0 {
        None
    } else if entries[0].0 == key {
        Some(entries[0].1)
    } else {
        lookup_meta(entries.drop_first(), key)
    }
}

/// The keys that extraction reads; all others pass through.
pub open spec fn recognized_key(k: Seq<char>) -> bool {
    k == "title"@ || k == "keywords"@ || k == "id"@ || k == "link-url"@ || k == "link_url"@
}

/// The entries that pass through to the record's open mapping.
pub open spec fn extra_of(entries: Seq<(Seq<char>, MetaValue)>) -> Seq<(Seq<char>, MetaValue)>
    decreases entries.len(),
{
    if entries.len() == 0 {
        Seq::empty()
    } else if recognized_key(entries[0].0) {
        extra_of(entries.drop_first())
    } else {
        seq![entries[0]] + extra_of(entries.drop_first())
    }
}

/// The strings among a sequence's elements, in order; other elements are
/// dropped.
pub open spec fn texts_of(list: Seq<MetaValue>) -> Seq<Seq<char>>
    decreases list.len(),
{
    if list.len() == 0 {
        Seq::empty()
    } else {
        (match list[0] {
            MetaValue::Text(t) => seq![t@],
            _ => Seq::<Seq<char>>::empty(),
        }) + texts_of(list.drop_first())
    }
}

/// Keeps the string elements of a parsed sequence, dropping the rest.
pub fn keyword_strings(list: Vec<MetaValue>) -> (r: Vec<String>)
    ensures
        crate::paths::views_of(r@) == texts_of(list@),
{
    let mut list = list;
    let mut r: Vec<String> = Vec::new();
    let ghost all = list@;
    while list.len() > 0
        invariant
            texts_of(all) == crate::paths::views_of(r@) + texts_of(list@),
        decreases list@.len(),
    {
        let ghost prev = list@;
        let ghost prev_r = r@;
        let x = list.remove(0);
        proof {
            assert(list@ =~= prev.drop_first());
        }
        match x {
            MetaValue::Text(t) => {
                r.push(t);
                proof {
                    assert(crate::paths::views_of(r@) =~= crate::paths::views_of(prev_r).push(
                        r@[r@.len() - 1]@,
                    ));
                    assert(crate::paths::views_of(prev_r) + (seq![r@[r@.len() - 1]@]
                        + texts_of(list@)) =~= crate::paths::views_of(r@) + texts_of(list@));
                }
            },
            _ => {
                proof {
                    assert(Seq::<Seq<char>>::empty() + texts_of(list@) =~= texts_of(list@));
                }
            },
        }
    }
    proof {
        assert(texts_of(list@) =~= Seq::<Seq<char>>::empty());
        assert(crate::paths::views_of(r@) + Seq::<Seq<char>>::empty() =~= crate::paths::views_of(
            r@,
        ));
    }
    r
}

/// The five recognized keys are pairwise different strings.
pub proof fn lemma_recognized_keys_distinct()
    ensures
        "title"@ != "keywords"@,
        "title"@ != "id"@,
        "title"@ != "link-url"@,
        "title"@ != "link_url"@,
        "keywords"@ != "id"@,
        "keywords"@ != "link-url"@,
        "keywords"@ != "link_url"@,
        "id"@ != "link-url"@,
        "id"@ != "link_url"@,
        "link-url"@ != "link_url"@,
{
    reveal_strlit("title");
    reveal_strlit("keywords");
    reveal_strlit("id");
    reveal_strlit("link-url");
    reveal_strlit("link_url");
    assert("title"@.len() == 5);
    assert("keywords"@.len() == 8);
    assert("id"@.len() == 2);
    assert("link-url"@.len() == 8);
    assert("link_url"@.len() == 8);
    assert("keywords"@[4] != "link-url"@[4]);
    assert("link-url"@[4] != "link_url"@[4]);
}

/// The recognized keys of a parsed document, each the first entry under its
/// key, and the entries left over.
pub struct KnownKeys {
    pub title: Option<MetaValue>,
    pub keywords: Option<MetaValue>,
    pub id: Option<MetaValue>,
    pub link_dash: Option<MetaValue>,
    pub link_us: Option<MetaValue>,
    pub extra: Vec<(String, MetaValue)>,
}

/// Splits a parsed document into its recognized keys and the pass-through
/// rest, in one pass; later duplicates of a recognized key are dropped.
pub fn split_known_keys(entries: Vec<(String, MetaValue)>) -> (r: KnownKeys)
    ensures
        r.title == lookup_meta(entries_view(entries@), "title"@),
        r.keywords == lookup_meta(entries_view(entries@), "keywords"@),
        r.id == lookup_meta(entries_view(entries@), "id"@),
        r.link_dash == lookup_meta(entries_view(entries@), "link-url"@),
        r.link_us == lookup_meta(entries_view(entries@), "link_url"@),
        entries_view(r.extra@) == extra_of(entries_view(entries@)),
{
    let mut entries = entries;
    let ghost all = entries_view(entries@);
    let mut r = KnownKeys {
        title: None,
        keywords: None,
        id: None,
        link_dash: None,
        link_us: None,
        extra: Vec::new(),
    };
    while entries.len() > 0
        invariant
            lookup_meta(all, "title"@) == if r.title is Some {
                r.title
            } else {
                lookup_meta(entries_view(entries@), "title"@)
            },
            lookup_meta(all, "keywords"@) == if r.keywords is Some {
                r.keywords
            } else {
                lookup_meta(entries_view(entries@), "keywords"@)
            },
            lookup_meta(all, "id"@) == if r.id is Some {
                r.id
            } else {
                lookup_meta(entries_view(entries@), "id"@)
            },
            lookup_meta(all, "link-url"@) == if r.link_dash is Some {
                r.link_dash
            } else {
                lookup_meta(entries_view(entries@), "link-url"@)
            },
            lookup_meta(all, "link_url"@) == if r.link_us is Some {
                r.link_us
            } else {
                lookup_meta(entries_view(entries@), "link_url"@)
            },
            extra_of(all) == entries_view(r.extra@) + extra_of(entries_view(entries@)),
        decreases entries@.len(),
    {
        let ghost prev = entries_view(entries@);
        let ghost prev_extra = r.extra@;
        let (key, val) = entries.remove(0);
        proof {
            lemma_recognized_keys_distinct();
            assert(entries_view(entries@) =~= prev.drop_first());
            assert(prev[0] == (key@, val));
        }
        let known = if crate::text::str_eq(key.as_str(), "title") {
            if r.title.is_none() {
                r.title = Some(val);
            }
            true
        } else if crate::text::str_eq(key.as_str(), "keywords") {
            if r.keywords.is_none() {
                r.keywords = Some(val);
            }
            true
        } else if crate::text::str_eq(key.as_str(), "id") {
            if r.id.is_none() {
                r.id = Some(val);
            }
            true
        } else if crate::text::str_eq(key.as_str(), "link-url") {
            if r.link_dash.is_none() {
                r.link_dash = Some(val);
            }
            true
        } else if crate::text::str_eq(key.as_str(), "link_url") {
            if r.link_us.is_none() {
                r.link_us = Some(val);
            }
            true
        } else {
            r.extra.push((key, val));
            proof {
                assert(entries_view(r.extra@) =~= entries_view(prev_extra).push((key@, val)));
                assert(entries_view(prev_extra) + (seq![(key@, val)] + extra_of(
                    entries_view(entries@),
                )) =~= entries_view(r.extra@) + extra_of(entries_view(entries@)));
            }
            false
        };
        proof {
            if known {
                assert(entries_view(prev_extra) + extra_of(prev) =~= entries_view(r.extra@)
                    + extra_of(entries_view(entries@)));
            }
        }
    }
    proof {
        assert(entries_view(entries@) =~= Seq::<(Seq<char>, MetaValue)>::empty());
        assert(entries_view(r.extra@) + extra_of(entries_view(entries@)) =~= entries_view(
            r.extra@,
        ));
    }
    r
}

/// Why metadata extraction failed.  Every variant names the offending file.
#[derive(Debug)]
pub enum ExtractError {
    /// No front-matter block delimited by `---` lines was found.
    MissingMetadataBlock { file: String },
    /// The block's interior was not a well-formed key/value document; carries
    /// the parser's message.
    InvalidMetadataSyntax { file: String, message: String },
    /// The block has no `title` key.
    MissingTitle { file: String },
    /// A recognized key held a value of the wrong kind.
    WrongFieldType { field: String, expected: String, found: String, file: String },
}

/// The shape of an extraction failure, independent of the file name.
pub ghost enum ErrShape {
    MissingBlock,
    Syntax { message: Seq<char> },
    MissingTitle,
    WrongField { field: Seq<char>, expected: Seq<char>, found: Seq<char> },
}

impl ExtractError {
    /// The failure's shape.
    pub open spec fn shape(self) -> ErrShape {
        match self {
            ExtractError::MissingMetadataBlock { .. } => ErrShape::MissingBlock,
            ExtractError::InvalidMetadataSyntax { message, .. } => ErrShape::Syntax {
                message: message@,
            },
            ExtractError::MissingTitle { .. } => ErrShape::MissingTitle,
            ExtractError::WrongFieldType { field, expected, found, .. } => ErrShape::WrongField {
                field: field@,
                expected: expected@,
                found: found@,
            },
        }
    }

    /// The file the failure names.
    pub open spec fn spec_file(self) -> Seq<char> {
        match self {
            ExtractError::MissingMetadataBlock { file } => file@,
            ExtractError::InvalidMetadataSyntax { file, .. } => file@,
            ExtractError::MissingTitle { file } => file@,
            ExtractError::WrongFieldType { file, .. } => file@,
        }
    }

    /// The failure rendered as a human-readable message.
    pub open spec fn spec_message(self) -> Seq<char> {
        match self {
            ExtractError::MissingMetadataBlock { file } => "Expected a YAML metadata block at the start of the file '"@
                + file@ + "'"@,
            ExtractError::InvalidMetadataSyntax { file, message } => "Invalid YAML in the metadata block of the file '"@
                + file@ + "': "@ + message@,
            ExtractError::MissingTitle { file } => "No `title` in the YAML metadata block of the file '"@
                + file@ + "'"@,
            ExtractError::WrongFieldType { field, expected, found, file } => "Expected "@
                + expected@ + " as the `"@ + field@ + "` in the metadata of the file '"@ + file@
                + "', instead found "@ + found@,
        }
    }

    /// Renders the failure as its diagnostic message.
    pub fn message(&self) -> (r: String)
        ensures
            r@ == self.spec_message(),
    {
        match self {
            ExtractError::MissingMetadataBlock { file } => {
                let mut r = "Expected a YAML metadata block at the start of the file '".to_owned();
                r.append(file.as_str());
                r.append("'");
                r
            },
            ExtractError::InvalidMetadataSyntax { file, message } => {
                let mut r = "Invalid YAML in the metadata block of the file '".to_owned();
                r.append(file.as_str());
                r.append("': ");
                r.append(message.as_str());
                r
            },
            ExtractError::MissingTitle { file } => {
                let mut r = "No `title` in the YAML metadata block of the file '".to_owned();
                r.append(file.as_str());
                r.append("'");
                r
            },
            ExtractError::WrongFieldType { field, expected, found, file } => {
                let mut r = "Expected ".to_owned();
                r.append(expected.as_str());
                r.append(" as the `");
                r.append(field.as_str());
                r.append("` in the metadata of the file '");
                r.append(file.as_str());
                r.append("', instead found ");
                r.append(found.as_str());
                r
            },
        }
    }
}

// --- What extraction returns, as one spec --------------------------------

/// An article's output file: the output root, then the output articles
/// directory's parent, then the article's own path, with the extension
/// replaced by `html`.
pub open spec fn spec_html_path(
    out_root: Seq<char>,
    out_articles_dir: Seq<char>,
    md_path: Seq<char>,
) -> Seq<char> {
    crate::paths::spec_with_extension(
        crate::paths::spec_path_join(
            out_root,
            crate::paths::spec_path_join(
                crate::paths::join_segments(crate::paths::spec_parent_segments(out_articles_dir)),
                md_path,
            ),
        ),
        "html"@,
    )
}

/// An article's default link: its output path relative to the output root,
/// as a `/`-joined URL, percent-escaped for a fragment.
pub open spec fn spec_link_default(out_root: Seq<char>, html: Seq<char>) -> Seq<char> {
    let segs = crate::paths::path_segments(html);
    let base = crate::paths::path_segments(out_root);
    crate::util::escaped_fragment(
        if base.is_prefix_of(segs) {
            crate::paths::join_segments(segs.skip(base.len() as int))
        } else {
            crate::paths::join_segments(segs)
        },
    )
}

/// The keywords a document yields: absent means none, a sequence keeps its
/// strings, anything else is a type error.
pub open spec fn spec_keywords(entries: Seq<(Seq<char>, MetaValue)>) -> Result<
    Seq<Seq<char>>,
    ErrShape,
> {
    match lookup_meta(entries, "keywords"@) {
        None => Ok(Seq::empty()),
        Some(MetaValue::List(xs)) => Ok(texts_of(xs@)),
        Some(v) => Err(
            ErrShape::WrongField {
                field: "keywords"@,
                expected: "a YAML sequence"@,
                found: spec_type_name(v),
            },
        ),
    }
}

/// The id a document yields: the `id` key when it is a non-empty string,
/// the file's stem otherwise; a non-string `id` is a type error.
pub open spec fn spec_id(entries: Seq<(Seq<char>, MetaValue)>, md_path: Seq<char>) -> Result<
    Seq<char>,
    ErrShape,
> {
    match lookup_meta(entries, "id"@) {
        None => Ok(crate::paths::spec_file_stem(md_path)),
        Some(MetaValue::Text(t)) => Ok(
            if t@.len() == 0 {
                crate::paths::spec_file_stem(md_path)
            } else {
                t@
            },
        ),
        Some(v) => Err(
            ErrShape::WrongField {
                field: "id"@,
                expected: "a YAML string"@,
                found: spec_type_name(v),
            },
        ),
    }
}

/// The link a document yields: a non-empty `link-url` or `link_url` string
/// wins, in that order; otherwise the default link; a non-string value
/// under either key is a type error.
pub open spec fn spec_link(
    entries: Seq<(Seq<char>, MetaValue)>,
    out_root: Seq<char>,
    html: Seq<char>,
) -> Result<Seq<char>, ErrShape> {
    match lookup_meta(entries, "link-url"@) {
        Some(MetaValue::Text(t)) => Ok(
            if t@.len() == 0 {
                spec_link_default(out_root, html)
            } else {
                t@
            },
        ),
        Some(v) => Err(
            ErrShape::WrongField {
                field: "link-url"@,
                expected: "a YAML string"@,
                found: spec_type_name(v),
            },
        ),
        None => match lookup_meta(entries, "link_url"@) {
            Some(MetaValue::Text(t)) => Ok(
                if t@.len() == 0 {
                    spec_link_default(out_root, html)
                } else {
                    t@
                },
            ),
            Some(v) => Err(
                ErrShape::WrongField {
                    field: "link_url"@,
                    expected: "a YAML string"@,
                    found: spec_type_name(v),
                },
            ),
            None => Ok(spec_link_default(out_root, html)),
        },
    }
}

/// The record a parsed document yields for one article, or the first
/// failure: a missing `title` first, then a non-string `title`, then the
/// `keywords`, `id` and link checks in that order.
pub open spec fn spec_article_record(
    out_root: Seq<char>,
    out_articles_dir: Seq<char>,
    md_path: Seq<char>,
    entries: Seq<(Seq<char>, MetaValue)>,
) -> Result<crate::sidebar::NodeModel, ErrShape> {
    let html = spec_html_path(out_root, out_articles_dir, md_path);
    match lookup_meta(entries, "title"@) {
        None => Err(ErrShape::MissingTitle),
        Some(MetaValue::Text(title)) => match spec_keywords(entries) {
            Err(e) => Err(e),
            Ok(kws) => match spec_id(entries, md_path) {
                Err(e) => Err(e),
                Ok(id) => match spec_link(entries, out_root, html) {
                    Err(e) => Err(e),
                    Ok(link) => Ok(
                        crate::sidebar::NodeModel {
                            id: id,
                            title: title@,
                            md_file_path: Some(md_path),
                            html_file_path: Some(html),
                            link_url: link,
                            keywords: kws,
                            extra: extra_of(entries),
                            children: Seq::empty(),
                        },
                    ),
                },
            },
        },
        Some(v) => Err(
            ErrShape::WrongField {
                field: "title"@,
                expected: "a YAML string"@,
                found: spec_type_name(v),
            },
        ),
    }
}

// --- Key order does not matter ------------------------------------------

/// Whether every key appears at most once.
pub open spec fn unique_keys(es: Seq<(Seq<char>, MetaValue)>) -> bool {
    forall|i: int, j: int| 0 <= i < j < es.len() ==> es[i].0 != es[j].0
}

/// An entry passes through exactly when it is present and its key is not
/// recognized.
pub proof fn lemma_extra_membership(es: Seq<(Seq<char>, MetaValue)>, p: (Seq<char>, MetaValue))
    ensures
        extra_of(es).contains(p) <==> es.contains(p) && !recognized_key(p.0),
    decreases es.len(),
{
    if es.len() > 0 {
        lemma_extra_membership(es.drop_first(), p);
        let tail = extra_of(es.drop_first());
        if es.contains(p) && !recognized_key(p.0) {
            if es[0] != p {
                let i = choose|i: int| 0 <= i < es.len() && es[i] == p;
                assert(es.drop_first()[i - 1] == p);
            }
            if !recognized_key(es[0].0) {
                let s = seq![es[0]] + tail;
                if es[0] == p {
                    assert(s[0] == p);
                } else {
                    let j = choose|j: int| 0 <= j < tail.len() && tail[j] == p;
                    assert(s[j + 1] == p);
                }
            }
        }
        if extra_of(es).contains(p) {
            let s = extra_of(es);
            let k = choose|k: int| 0 <= k < s.len() && s[k] == p;
            if !recognized_key(es[0].0) {
                if k == 0 {
                    assert(es[0] == p);
                } else {
                    assert(tail[k - 1] == p);
                }
            } else {
                assert(tail[k] == p);
            }
            if es.drop_first().contains(p) {
                let i = choose|i: int| 0 <= i < es.drop_first().len() && es.drop_first()[i] == p;
                assert(es[i + 1] == p);
            }
            assert(es.contains(p) && !recognized_key(p.0));
        }
    }
}

/// With unique keys, looking a key up is the same as holding a pair with
/// that key.
pub proof fn lemma_lookup_unique(es: Seq<(Seq<char>, MetaValue)>, k: Seq<char>)
    requires
        unique_keys(es),
    ensures
        match lookup_meta(es, k) {
            Some(v) => es.contains((k, v)) && forall|w: MetaValue|
                es.contains((k, w)) ==> w == v,
            None => forall|w: MetaValue| !es.contains((k, w)),
        },
    decreases es.len(),
{
    if es.len() > 0 {
        assert forall|i: int, j: int|
            0 <= i < j < es.drop_first().len() implies es.drop_first()[i].0
            != es.drop_first()[j].0 by {
            assert(es.drop_first()[i] == es[i + 1]);
            assert(es.drop_first()[j] == es[j + 1]);
        }
        lemma_lookup_unique(es.drop_first(), k);
        if es[0].0 == k {
            let v = es[0].1;
            assert(es[0] == (k, v));
            assert(es.contains((k, v)));
            assert forall|w: MetaValue| es.contains((k, w)) implies w == v by {
                let i = choose|i: int| 0 <= i < es.len() && es[i] == (k, w);
                if i > 0 {
                    assert(es[i].0 == es[0].0);
                    assert(false);
                }
            }
        } else {
            match lookup_meta(es, k) {
                Some(v) => {
                    assert(es.drop_first().contains((k, v)));
                    let i = choose|i: int|
                        0 <= i < es.drop_first().len() && es.drop_first()[i] == (k, v);
                    assert(es[i + 1] == (k, v));
                    assert forall|w: MetaValue| es.contains((k, w)) implies w == v by {
                        let j = choose|j: int| 0 <= j < es.len() && es[j] == (k, w);
                        assert(j != 0);
                        assert(es.drop_first()[j - 1] == (k, w));
                        assert(es.drop_first().contains((k, w)));
                    }
                },
                None => {
                    assert forall|w: MetaValue| !es.contains((k, w)) by {
                        if es.contains((k, w)) {
                            let j = choose|j: int| 0 <= j < es.len() && es[j] == (k, w);
                            assert(j != 0);
                            assert(es.drop_first()[j - 1] == (k, w));
                            assert(es.drop_first().contains((k, w)));
                        }
                    }
                },
            }
        }
    }
}

/// Two documents with unique keys holding the same entries look every key
/// up to the same value.
pub proof fn lemma_same_entries_same_lookups(
    e1: Seq<(Seq<char>, MetaValue)>,
    e2: Seq<(Seq<char>, MetaValue)>,
    k: Seq<char>,
)
    requires
        unique_keys(e1),
        unique_keys(e2),
        forall|p: (Seq<char>, MetaValue)| e1.contains(p) <==> e2.contains(p),
    ensures
        lookup_meta(e1, k) == lookup_meta(e2, k),
{
    lemma_lookup_unique(e1, k);
    lemma_lookup_unique(e2, k);
    match (lookup_meta(e1, k), lookup_meta(e2, k)) {
        (Some(v), Some(w)) => {
            assert(e1.contains((k, w)));
        },
        (Some(v), None) => {
            assert(e2.contains((k, v)));
        },
        (None, Some(w)) => {
            assert(e1.contains((k, w)));
        },
        (None, None) => {},
    }
}

/// Reading an article record does not depend on the order of the
/// document's keys: two documents with unique keys that hold the same
/// entries yield the same record, with the same pass-through entries, or
/// the same failure.
pub proof fn lemma_record_key_order_irrelevant(
    out_root: Seq<char>,
    out_articles_dir: Seq<char>,
    md_path: Seq<char>,
    e1: Seq<(Seq<char>, MetaValue)>,
    e2: Seq<(Seq<char>, MetaValue)>,
)
    requires
        unique_keys(e1),
        unique_keys(e2),
        e1.to_multiset() == e2.to_multiset(),
    ensures
        match (
            spec_article_record(out_root, out_articles_dir, md_path, e1),
            spec_article_record(out_root, out_articles_dir, md_path, e2),
        ) {
            (Ok(a), Ok(b)) => {
                &&& a.id == b.id
                &&& a.title == b.title
                &&& a.md_file_path == b.md_file_path
                &&& a.html_file_path == b.html_file_path
                &&& a.link_url == b.link_url
                &&& a.keywords == b.keywords
                &&& a.children == b.children
                &&& forall|p: (Seq<char>, MetaValue)| a.extra.contains(p) <==> b.extra.contains(p)
            },
            (Err(x), Err(y)) => x == y,
            _ => false,
        },
{
    broadcast use vstd::seq_lib::group_to_multiset_ensures;

    assert forall|p: (Seq<char>, MetaValue)| e1.contains(p) <==> e2.contains(p) by {
        assert(e1.contains(p) <==> e1.to_multiset().count(p) > 0);
        assert(e2.contains(p) <==> e2.to_multiset().count(p) > 0);
    }
    lemma_same_entries_same_lookups(e1, e2, "title"@);
    lemma_same_entries_same_lookups(e1, e2, "keywords"@);
    lemma_same_entries_same_lookups(e1, e2, "id"@);
    lemma_same_entries_same_lookups(e1, e2, "link-url"@);
    lemma_same_entries_same_lookups(e1, e2, "link_url"@);
    assert forall|p: (Seq<char>, MetaValue)| extra_of(e1).contains(p) <==> extra_of(e2).contains(
        p,
    ) by {
        lemma_extra_membership(e1, p);
        lemma_extra_membership(e2, p);
    }
}

/// Everything metadata extraction does to a file's text: find the
/// front-matter block, parse it, and read the record out of it.
pub open spec fn spec_extract(
    out_root: Seq<char>,
    out_articles_dir: Seq<char>,
    md_path: Seq<char>,
    contents: Seq<char>,
) -> Result<crate::sidebar::NodeModel, ErrShape> {
    match spec_front_matter(contents) {
        None => Err(ErrShape::MissingBlock),
        Some(block) => match yaml_doc_of(block) {
            Err(m) => Err(ErrShape::Syntax { message: m }),
            Ok(entries) => spec_article_record(out_root, out_articles_dir, md_path, entries),
        },
    }
}

} // verus!
