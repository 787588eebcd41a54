//! A forward-slash path model.
//!
//! Paths are plain strings whose components are separated by `/`.  A path is
//! understood through its *segments*: the pieces between separators, with
//! empty pieces and `.` pieces dropped, mirroring how the standard library
//! normalizes path components.

use vstd::prelude::*;

use crate::text::push_char;

verus! {

broadcast use vstd::seq::group_seq_axioms, vstd::seq_lib::group_seq_lib_default;

/// Index of the first `/` in `s`, or -1 if there is none.
pub open spec fn first_slash(s: Seq<char>) -> int
    decreases s.len(),
{
    if s.len() == 0 {
        -1
    } else if s[0] == '/' {
        0
    } else {
        let r = first_slash(s.drop_first());
        if r < 0 {
            -1
        } else {
            r + 1
        }
    }
}

pub proof fn lemma_first_slash(s: Seq<char>)
    ensures
        first_slash(s) == -1 ==> forall|j: int| 0 <= j < s.len() ==> s[j] != '/',
        first_slash(s) >= 0 ==> {
            &&& first_slash(s) < s.len()
            &&& s[first_slash(s)] == '/'
            &&& forall|j: int| 0 <= j < first_slash(s) ==> s[j] != '/'
        },
    decreases s.len(),
{
    if s.len() > 0 && s[0] != '/' {
        lemma_first_slash(s.drop_first());
        assert forall|j: int| 1 <= j < s.len() implies s[j] == s.drop_first()[j - 1] by {}
    }
}

/// The pieces of `s` between `/` separators, empties included.
pub open spec fn split_slash(s: Seq<char>) -> Seq<Seq<char>>
    decreases s.len(),
{
    let i = first_slash(s);
    if i < 0 || i >= s.len() {
        // first_slash never exceeds the length; the second test only bounds
        // the recursion
        seq![s]
    } else {
        seq![s.take(i)] + split_slash(s.skip(i + 1))
    }
}

/// A piece is a real segment unless it is empty or `.`.
pub open spec fn seg_keep(p: Seq<char>) -> bool {
    p.len() > 0 && p != seq!['.']
}

/// The segments of a path: split on `/`, with empty and `.` pieces dropped.
pub open spec fn path_segments(s: Seq<char>) -> Seq<Seq<char>> {
    split_slash(s).filter(|p: Seq<char>| seg_keep(p))
}

/// Segments joined with a single `/` between them.
pub open spec fn join_segments(ss: Seq<Seq<char>>) -> Seq<char>
    decreases ss.len(),
{
    if ss.len() == 0 {
        Seq::empty()
    } else if ss.len() == 1 {
        ss[0]
    } else {
        ss[0] + seq!['/'] + join_segments(ss.drop_first())
    }
}

/// The views of a vector of strings.
pub open spec fn views_of(v: Seq<String>) -> Seq<Seq<char>> {
    v.map_values(|s: String| s@)
}

/// Index of the first `/` at or after `from` in `s`, or the length of `s` if
/// there is none.
fn find_slash(s: &str, n: usize, from: usize) -> (r: usize)
    requires
        n == s@.len(),
        from <= n,
    ensures
        from <= r <= n,
        r < n ==> s@[r as int] == '/',
        forall|j: int| from <= j < r ==> s@[j] != '/',
    decreases n - from,
{
    if from == n {
        n
    } else if s.get_char(from) == '/' {
        from
    } else {
        find_slash(s, n, from + 1)
    }
}

proof fn lemma_first_slash_of_range(s: Seq<char>, r: int)
    requires
        0 <= r <= s.len(),
        r < s.len() ==> s[r] == '/',
        forall|j: int| 0 <= j < r ==> s[j] != '/',
    ensures
        r < s.len() ==> first_slash(s) == r,
        r == s.len() ==> first_slash(s) == -1,
    decreases s.len(),
{
    if s.len() > 0 && s[0] != '/' {
        assert(s.drop_first() =~= s.skip(1));
        lemma_first_slash_of_range(s.drop_first(), r - 1);
    }
}

proof fn lemma_filter_singleton(p: Seq<char>)
    ensures
        seg_keep(p) ==> seq![p].filter(|q: Seq<char>| seg_keep(q)) == seq![p],
        !seg_keep(p) ==> seq![p].filter(|q: Seq<char>| seg_keep(q)) == Seq::<Seq<char>>::empty(),
{
    reveal_with_fuel(Seq::filter, 2);
    assert(seq![p].drop_last() =~= Seq::<Seq<char>>::empty());
    if seg_keep(p) {
        assert(seq![p].filter(|q: Seq<char>| seg_keep(q)) =~= seq![p]);
    }
}

/// Whether one exec string piece is a kept segment.
fn is_kept_segment(p: &str) -> (r: bool)
    ensures
        r == seg_keep(p@),
{
    let n = p.unicode_len();
    if n == 0 {
        proof {
            assert(p@.len() == 0);
            assert(!seg_keep(p@));
        }
        false
    } else if n == 1 && p.get_char(0) == '.' {
        proof {
            assert(p@ =~= seq!['.']);
        }
        false
    } else {
        proof {
            if p@.len() == 1 {
                assert(p@ =~= seq![p@[0]]);
            }
        }
        true
    }
}

/// Splits a path into its segments.
pub fn split_path(s: &str) -> (v: Vec<String>)
    ensures
        views_of(v@) == path_segments(s@),
    decreases s@.len(),
{
    let n = s.unicode_len();
    let j = find_slash(s, n, 0);
    proof {
        lemma_first_slash_of_range(s@, j as int);
    }
    if j == n {
        // no separator: s itself is the only piece
        proof {
            assert(split_slash(s@) =~= seq![s@]);
            lemma_filter_singleton(s@);
        }
        let mut v: Vec<String> = Vec::new();
        if is_kept_segment(s) {
            v.push(s.to_owned());
            proof {
                assert(views_of(v@) =~= seq![s@]);
            }
        } else {
            proof {
                assert(views_of(v@) =~= Seq::<Seq<char>>::empty());
            }
        }
        v
    } else {
        let head = s.substring_char(0, j);
        let tail = s.substring_char(j + 1, n);
        proof {
            assert(head@ == s@.subrange(0, j as int));
            assert(tail@ == s@.subrange(j + 1, n as int));
            assert(s@.take(j as int) =~= head@);
            assert(s@.skip(j + 1) =~= tail@);
            assert(split_slash(s@) == seq![head@] + split_slash(tail@));
        }
        let mut v: Vec<String> = Vec::new();
        let keep = is_kept_segment(head);
        if keep {
            v.push(head.to_owned());
        }
        let mut rest = split_path(tail);
        proof {
            Seq::filter_distributes_over_add(seq![head@], split_slash(tail@), |p: Seq<char>| seg_keep(p));
            lemma_filter_singleton(head@);
        }
        v.append(&mut rest);
        proof {
            assert(views_of(v@) =~= path_segments(s@));
        }
        v
    }
}

proof fn lemma_join_snoc(ss: Seq<Seq<char>>, x: Seq<char>)
    ensures
        join_segments(ss.push(x)) == if ss.len() == 0 {
            x
        } else {
            join_segments(ss) + seq!['/'] + x
        },
    decreases ss.len(),
{
    if ss.len() == 0 {
        assert(ss.push(x)[0] == x);
    } else if ss.len() == 1 {
        let t = ss.push(x);
        assert(t[0] == ss[0]);
        assert(t.drop_first() =~= seq![x]);
        assert(join_segments(t.drop_first()) == x);
        assert(join_segments(ss) == ss[0]);
    } else {
        lemma_join_snoc(ss.drop_first(), x);
        assert(ss.push(x).drop_first() =~= ss.drop_first().push(x));
    }
}

/// Joins segments with `/` separators.
fn join_segs(v: &Vec<String>) -> (r: String)
    ensures
        r@ == join_segments(views_of(v@)),
{
    let mut r = String::new();
    let mut i: usize = 0;
    while i < v.len()
        invariant
            i <= v@.len(),
            r@ == join_segments(views_of(v@).take(i as int)),
        decreases v@.len() - i,
    {
        if i > 0 {
            push_char(&mut r, '/');
        }
        r.append(v[i].as_str());
        proof {
            let ss = views_of(v@);
            assert(ss.take(i as int).push(v@[i as int]@) =~= ss.take(i + 1));
            lemma_join_snoc(ss.take(i as int), v@[i as int]@);
            if i > 0 {
                assert(r@ == join_segments(ss.take(i + 1)));
            } else {
                assert(r@ =~= join_segments(ss.take(1)));
            }
        }
        i += 1;
    }
    proof {
        assert(views_of(v@).take(v@.len() as int) =~= views_of(v@));
    }
    r
}

/// Converts a path to a URL string: its segments joined with `/`.
pub fn path_to_url(path: &str) -> (r: String)
    ensures
        r@ == join_segments(path_segments(path@)),
{
    let segs = split_path(path);
    join_segs(&segs)
}

/// The number of segments of a path.
pub fn num_segments(path: &str) -> (r: usize)
    ensures
        r == path_segments(path@).len(),
{
    let segs = split_path(path);
    proof {
        assert(views_of(segs@).len() == segs@.len());
    }
    segs.len()
}

/// Two paths joined by a single separator.
pub open spec fn spec_path_join(a: Seq<char>, b: Seq<char>) -> Seq<char> {
    if a.len() == 0 {
        b
    } else if b.len() == 0 {
        a
    } else {
        a + seq!['/'] + b
    }
}

/// Joins two paths.
pub fn path_join(a: &str, b: &str) -> (r: String)
    ensures
        r@ == spec_path_join(a@, b@),
{
    if a.unicode_len() == 0 {
        b.to_owned()
    } else if b.unicode_len() == 0 {
        a.to_owned()
    } else {
        let mut r = a.to_owned();
        push_char(&mut r, '/');
        r.append(b);
        proof {
            assert(r@ =~= a@ + seq!['/'] + b@);
        }
        r
    }
}

/// Index of the last occurrence of `c` in `s`, or -1 if there is none.
pub open spec fn last_index_of(s: Seq<char>, c: char) -> int
    decreases s.len(),
{
    if s.len() == 0 {
        -1
    } else if s.last() == c {
        s.len() - 1
    } else {
        last_index_of(s.drop_last(), c)
    }
}

proof fn lemma_last_index_of_range(s: Seq<char>, c: char, r: int)
    requires
        -1 <= r < s.len(),
        r >= 0 ==> s[r] == c,
        forall|j: int| r < j < s.len() ==> s[j] != c,
    ensures
        last_index_of(s, c) == r,
    decreases s.len(),
{
    if s.len() > 0 && s.last() != c {
        lemma_last_index_of_range(s.drop_last(), c, r);
    }
}

/// Position in `s` just after the last occurrence of `c` before `upto`, or 0.
fn scan_back(s: &str, upto: usize, c: char) -> (r: usize)
    requires
        upto <= s@.len(),
    ensures
        r <= upto,
        r > 0 ==> s@[r - 1] == c,
        forall|j: int| r <= j < upto ==> s@[j] != c,
    decreases upto,
{
    if upto == 0 {
        0
    } else if s.get_char(upto - 1) == c {
        upto
    } else {
        scan_back(s, upto - 1, c)
    }
}

/// The part of a path after its last `/`, the whole path if it has none.
pub open spec fn raw_name_of(s: Seq<char>) -> Seq<char> {
    s.skip(last_index_of(s, '/') + 1)
}

/// The name with its extension removed: everything before the last `.`,
/// unless that dot comes first or is absent.
pub open spec fn stem_of(name: Seq<char>) -> Seq<char> {
    let d = last_index_of(name, '.');
    if d <= 0 {
        name
    } else {
        name.take(d)
    }
}

/// A path with the extension of its name replaced by `e`.
pub open spec fn spec_with_extension(s: Seq<char>, e: Seq<char>) -> Seq<char> {
    s.take(last_index_of(s, '/') + 1) + stem_of(raw_name_of(s)) + seq!['.'] + e
}

/// Replaces the extension of the path's name with `ext`.
pub fn with_extension(path: &str, ext: &str) -> (r: String)
    ensures
        r@ == spec_with_extension(path@, ext@),
{
    let n = path.unicode_len();
    let ns = scan_back(path, n, '/');
    proof {
        lemma_last_index_of_range(path@, '/', ns as int - 1);
    }
    let name = path.substring_char(ns, n);
    let dp = scan_back(name, n - ns, '.');
    proof {
        assert(name@ =~= raw_name_of(path@));
        lemma_last_index_of_range(name@, '.', dp as int - 1);
    }
    let stem_end = if dp <= 1 {
        n
    } else {
        ns + dp - 1
    };
    let mut r = path.substring_char(0, stem_end).to_owned();
    push_char(&mut r, '.');
    r.append(ext);
    proof {
        if dp <= 1 {
            assert(stem_of(name@) == name@);
            assert(path@.subrange(0, n as int) =~= path@.take(ns as int) + name@);
        } else {
            assert(stem_of(name@) =~= name@.take(dp - 1));
            assert(path@.subrange(0, stem_end as int) =~= path@.take(ns as int) + name@.take(
                dp - 1,
            ));
        }
        assert(r@ =~= spec_with_extension(path@, ext@));
    }
    r
}

/// The stem of a path's last segment, empty when there is no segment.
pub open spec fn spec_file_stem(s: Seq<char>) -> Seq<char> {
    let segs = path_segments(s);
    if segs.len() == 0 {
        Seq::empty()
    } else {
        stem_of(segs.last())
    }
}

/// The last segment of the path without its extension; empty for a path with
/// no segments.
pub fn file_stem(path: &str) -> (r: String)
    ensures
        r@ == spec_file_stem(path@),
{
    let mut segs = split_path(path);
    let ghost all = views_of(segs@);
    if segs.len() == 0 {
        String::new()
    } else {
        let last = segs.pop().unwrap();
        proof {
            assert(last@ == all.last());
        }
        let n = last.as_str().unicode_len();
        let dp = scan_back(last.as_str(), n, '.');
        proof {
            lemma_last_index_of_range(last@, '.', dp as int - 1);
        }
        if dp <= 1 {
            last
        } else {
            let r = last.as_str().substring_char(0, dp - 1).to_owned();
            proof {
                assert(r@ =~= stem_of(last@));
            }
            r
        }
    }
}

/// The last segment of the path, unless there is none or it is `..`.
pub open spec fn spec_file_name(s: Seq<char>) -> Option<Seq<char>> {
    let segs = path_segments(s);
    if segs.len() > 0 && segs.last() != seq!['.', '.'] {
        Some(segs.last())
    } else {
        None
    }
}

/// Returns the path's name: its last segment, if any, and not `..`.
pub fn file_name(path: &str) -> (r: Option<String>)
    ensures
        match r {
            Some(x) => spec_file_name(path@) == Some(x@),
            None => spec_file_name(path@) is None,
        },
{
    let mut segs = split_path(path);
    let ghost all = views_of(segs@);
    if segs.len() == 0 {
        None
    } else {
        let last = segs.pop().unwrap();
        proof {
            assert(last@ == all.last());
            reveal_strlit("..");
            assert(".."@ =~= seq!['.', '.']);
        }
        if crate::text::str_eq(last.as_str(), "..") {
            None
        } else {
            Some(last)
        }
    }
}

/// The segments of a path's parent: all but the last.
pub open spec fn spec_parent_segments(s: Seq<char>) -> Seq<Seq<char>> {
    let segs = path_segments(s);
    if segs.len() == 0 {
        segs
    } else {
        segs.drop_last()
    }
}

/// The parent of a path: its segments without the last one, joined.
pub fn parent_path(path: &str) -> (r: String)
    ensures
        r@ == join_segments(spec_parent_segments(path@)),
{
    let mut segs = split_path(path);
    let ghost all = views_of(segs@);
    if segs.len() > 0 {
        let _ = segs.pop();
        proof {
            assert(views_of(segs@) =~= all.drop_last());
        }
    }
    join_segs(&segs)
}

/// Strips `base`'s segments off the front of `path`'s, if they are a prefix.
pub fn strip_path_prefix(path: &str, base: &str) -> (r: Option<String>)
    ensures
        match r {
            Some(x) => {
                &&& path_segments(base@).is_prefix_of(path_segments(path@))
                &&& x@ == join_segments(
                    path_segments(path@).skip(path_segments(base@).len() as int),
                )
            },
            None => !path_segments(base@).is_prefix_of(path_segments(path@)),
        },
{
    let p_segs = split_path(path);
    let b_segs = split_path(base);
    if b_segs.len() > p_segs.len() {
        return None;
    }
    let mut i: usize = 0;
    while i < b_segs.len()
        invariant
            i <= b_segs@.len() <= p_segs@.len(),
            views_of(p_segs@) == path_segments(path@),
            views_of(b_segs@) == path_segments(base@),
            forall|j: int| 0 <= j < i ==> views_of(b_segs@)[j] == views_of(p_segs@)[j],
        decreases b_segs@.len() - i,
    {
        if !crate::text::str_eq(b_segs[i].as_str(), p_segs[i].as_str()) {
            proof {
                assert(views_of(b_segs@)[i as int] != views_of(p_segs@)[i as int]);
                assert(!path_segments(base@).is_prefix_of(path_segments(path@)));
            }
            return None;
        }
        i += 1;
    }
    let mut p_segs = p_segs;
    let rest = p_segs.split_off(b_segs.len());
    proof {
        assert(path_segments(base@) =~= path_segments(path@).take(
            path_segments(base@).len() as int,
        ));
        assert(views_of(rest@) =~= path_segments(path@).skip(path_segments(base@).len() as int));
    }
    Some(join_segs(&rest))
}

} // verus!
