//! Output reconciliation: which existing output files are stale, and which
//! output directories are empty once they are gone.

use vstd::prelude::*;

use crate::paths::{num_segments, path_segments, strip_path_prefix, views_of};

verus! {

broadcast use vstd::seq::group_seq_axioms, vstd::std_specs::vec::group_vec_axioms;

/// The stale outputs: every existing path that is not retained, in the
/// order the existing paths came in.
pub open spec fn spec_stale(existing: Seq<Seq<char>>, retained: Seq<Seq<char>>) -> Seq<Seq<char>>
    decreases existing.len(),
{
    if existing.len() == 0 {
        Seq::empty()
    } else if retained.contains(existing[0]) {
        spec_stale(existing.drop_first(), retained)
    } else {
        seq![existing[0]] + spec_stale(existing.drop_first(), retained)
    }
}

/// A path is stale exactly when it exists and is not retained.
pub proof fn lemma_stale_membership(
    existing: Seq<Seq<char>>,
    retained: Seq<Seq<char>>,
    p: Seq<char>,
)
    ensures
        spec_stale(existing, retained).contains(p) <==> existing.contains(p)
            && !retained.contains(p),
    decreases existing.len(),
{
    if existing.len() > 0 {
        lemma_stale_membership(existing.drop_first(), retained, p);
        if existing.contains(p) && !retained.contains(p) {
            if existing[0] != p {
                let i = choose|i: int| 0 <= i < existing.len() && existing[i] == p;
                assert(existing.drop_first()[i - 1] == p);
            }
            if !retained.contains(existing[0]) {
                let s = seq![existing[0]] + spec_stale(existing.drop_first(), retained);
                if existing[0] == p {
                    assert(s[0] == p);
                } else {
                    let j = choose|j: int|
                        0 <= j < spec_stale(existing.drop_first(), retained).len() && spec_stale(
                            existing.drop_first(),
                            retained,
                        )[j] == p;
                    assert(s[j + 1] == p);
                }
            }
        } else {
            if spec_stale(existing, retained).contains(p) {
                let s = spec_stale(existing, retained);
                let k = choose|k: int| 0 <= k < s.len() && s[k] == p;
                if !retained.contains(existing[0]) {
                    if k == 0 {
                        assert(existing[0] == p);
                        assert(existing.contains(p));
                    } else {
                        assert(spec_stale(existing.drop_first(), retained)[k - 1] == p);
                    }
                }
                assert(existing.contains(p) && !retained.contains(p));
            }
        }
    }
}

/// Whether a string list contains the given characters.
fn contains_str(v: &Vec<String>, s: &str) -> (r: bool)
    ensures
        r == views_of(v@).contains(s@),
{
    let n = v.len();
    let mut i: usize = 0;
    while i < n
        invariant
            n == v@.len(),
            i <= n,
            forall|j: int| 0 <= j < i ==> views_of(v@)[j] != s@,
        decreases n - i,
    {
        if crate::text::str_eq(v[i].as_str(), s) {
            proof {
                assert(views_of(v@)[i as int] == s@);
            }
            return true;
        }
        i += 1;
    }
    proof {
        assert forall|j: int| 0 <= j < views_of(v@).len() implies views_of(v@)[j] != s@ by {}
    }
    false
}

/// Computes the stale outputs of a build: the existing output files that
/// this build neither produced nor retained, in their original order.
/// Those files are to be deleted; nothing else is.
pub fn stale_outputs(existing: &Vec<String>, retained: &Vec<String>) -> (r: Vec<String>)
    ensures
        views_of(r@) == spec_stale(views_of(existing@), views_of(retained@)),
{
    let ghost all = views_of(existing@);
    let n = existing.len();
    let mut r: Vec<String> = Vec::new();
    let mut i: usize = 0;
    proof {
        assert(all.skip(0) =~= all);
        assert(views_of(r@) + spec_stale(all, views_of(retained@)) =~= spec_stale(
            all,
            views_of(retained@),
        ));
    }
    while i < n
        invariant
            n == all.len(),
            all == views_of(existing@),
            i <= n,
            spec_stale(all, views_of(retained@)) == views_of(r@) + spec_stale(
                all.skip(i as int),
                views_of(retained@),
            ),
        decreases n - i,
    {
        let ghost pre = views_of(r@);
        let ghost rem = all.skip(i as int);
        proof {
            assert(rem[0] == all[i as int]);
            assert(rem.drop_first() =~= all.skip(i as int + 1));
        }
        if !contains_str(retained, existing[i].as_str()) {
            r.push(existing[i].clone());
            proof {
                assert(views_of(r@) =~= pre.push(all[i as int]));
                assert(pre + (seq![rem[0]] + spec_stale(rem.drop_first(), views_of(retained@)))
                    =~= views_of(r@) + spec_stale(rem.drop_first(), views_of(retained@)));
            }
        }
        i += 1;
    }
    proof {
        assert(all.skip(n as int) =~= Seq::<Seq<char>>::empty());
        assert(views_of(r@) + Seq::<Seq<char>>::empty() =~= views_of(r@));
    }
    r
}

/// Finds two positions carrying the same path, if any: a file claimed by
/// two categories has an ambiguous destination, which the caller must
/// surface as a configuration error.
pub fn find_duplicate(paths: &Vec<String>) -> (r: Option<(usize, usize)>)
    ensures
        match r {
            Some((i, j)) => i < j < paths@.len() && views_of(paths@)[i as int] == views_of(
                paths@,
            )[j as int],
            None => forall|i: int, j: int|
                0 <= i < j < paths@.len() ==> views_of(paths@)[i] != views_of(paths@)[j],
        },
{
    let n = paths.len();
    let mut i: usize = 0;
    while i < n
        invariant
            n == paths@.len(),
            i <= n,
            forall|a: int, b: int| 0 <= a < b < paths@.len() && a < i ==> views_of(paths@)[a]
                != views_of(paths@)[b],
        decreases n - i,
    {
        let mut j = i + 1;
        while j < n
            invariant
                i < n,
                n == paths@.len(),
                i + 1 <= j <= n,
                forall|b: int| i < b < j ==> views_of(paths@)[i as int] != views_of(paths@)[b],
            decreases n - j,
        {
            if crate::text::str_eq(paths[i].as_str(), paths[j].as_str()) {
                return Some((i, j));
            }
            j += 1;
        }
        i += 1;
    }
    None
}

/// Whether `file` lies strictly under `dir`.
pub open spec fn is_under(dir: Seq<char>, file: Seq<char>) -> bool {
    &&& path_segments(dir).is_prefix_of(path_segments(file))
    &&& path_segments(dir).len() < path_segments(file).len()
}

/// A directory can be removed when no kept file lies under it.
pub open spec fn dir_removable(dir: Seq<char>, files: Seq<Seq<char>>) -> bool {
    forall|i: int| 0 <= i < files.len() ==> !is_under(dir, files[i])
}

/// The removable directories, in the order they came in.
pub open spec fn spec_removable(dirs: Seq<Seq<char>>, files: Seq<Seq<char>>) -> Seq<Seq<char>>
    decreases dirs.len(),
{
    if dirs.len() == 0 {
        Seq::empty()
    } else if dir_removable(dirs[0], files) {
        seq![dirs[0]] + spec_removable(dirs.drop_first(), files)
    } else {
        spec_removable(dirs.drop_first(), files)
    }
}

/// Whether some kept file lies strictly under the directory.
fn any_under(dir: &str, files: &Vec<String>) -> (r: bool)
    ensures
        r == !dir_removable(dir@, views_of(files@)),
{
    let dir_segs = num_segments(dir);
    let n = files.len();
    let mut i: usize = 0;
    while i < n
        invariant
            n == files@.len(),
            dir_segs == path_segments(dir@).len(),
            i <= n,
            forall|j: int| 0 <= j < i ==> !is_under(dir@, views_of(files@)[j]),
        decreases n - i,
    {
        let under = match strip_path_prefix(files[i].as_str(), dir) {
            Some(_) => num_segments(files[i].as_str()) > dir_segs,
            None => false,
        };
        if under {
            proof {
                assert(is_under(dir@, views_of(files@)[i as int]));
            }
            return true;
        }
        i += 1;
    }
    false
}

/// Computes which of the given directories hold no kept file, directly or
/// below, and so can be pruned after the stale files are gone.  The order
/// of the input is kept, so a contents-first listing yields a deletion
/// order that removes children before their parents.
pub fn removable_dirs(dirs: &Vec<String>, kept_files: &Vec<String>) -> (r: Vec<String>)
    ensures
        views_of(r@) == spec_removable(views_of(dirs@), views_of(kept_files@)),
{
    let ghost all = views_of(dirs@);
    let n = dirs.len();
    let mut r: Vec<String> = Vec::new();
    let mut i: usize = 0;
    proof {
        assert(all.skip(0) =~= all);
        assert(views_of(r@) + spec_removable(all, views_of(kept_files@)) =~= spec_removable(
            all,
            views_of(kept_files@),
        ));
    }
    while i < n
        invariant
            n == all.len(),
            all == views_of(dirs@),
            i <= n,
            spec_removable(all, views_of(kept_files@)) == views_of(r@) + spec_removable(
                all.skip(i as int),
                views_of(kept_files@),
            ),
        decreases n - i,
    {
        let ghost pre = views_of(r@);
        let ghost rem = all.skip(i as int);
        proof {
            assert(rem[0] == all[i as int]);
            assert(rem.drop_first() =~= all.skip(i as int + 1));
        }
        if !any_under(dirs[i].as_str(), kept_files) {
            r.push(dirs[i].clone());
            proof {
                assert(views_of(r@) =~= pre.push(all[i as int]));
                assert(pre + (seq![rem[0]] + spec_removable(
                    rem.drop_first(),
                    views_of(kept_files@),
                )) =~= views_of(r@) + spec_removable(rem.drop_first(), views_of(kept_files@)));
            }
        }
        i += 1;
    }
    proof {
        assert(all.skip(n as int) =~= Seq::<Seq<char>>::empty());
        assert(views_of(r@) + Seq::<Seq<char>>::empty() =~= views_of(r@));
    }
    r
}

/// A directory is listed for removal exactly when it was given and no kept
/// file lies under it.
pub proof fn lemma_removable_membership(dirs: Seq<Seq<char>>, files: Seq<Seq<char>>, d: Seq<char>)
    ensures
        spec_removable(dirs, files).contains(d) <==> (exists|i: int|
            0 <= i < dirs.len() && dirs[i] == d && dir_removable(dirs[i], files)),
    decreases dirs.len(),
{
    if dirs.len() > 0 {
        lemma_removable_membership(dirs.drop_first(), files, d);
        let tail = spec_removable(dirs.drop_first(), files);
        if exists|i: int| 0 <= i < dirs.len() && dirs[i] == d && dir_removable(dirs[i], files) {
            let i = choose|i: int|
                0 <= i < dirs.len() && dirs[i] == d && dir_removable(dirs[i], files);
            if i > 0 {
                assert(dirs.drop_first()[i - 1] == d && dir_removable(
                    dirs.drop_first()[i - 1],
                    files,
                ));
                let j = choose|j: int| 0 <= j < tail.len() && tail[j] == d;
                if dir_removable(dirs[0], files) {
                    assert((seq![dirs[0]] + tail)[j + 1] == d);
                }
            } else {
                assert((seq![dirs[0]] + tail)[0] == d);
            }
        }
        if spec_removable(dirs, files).contains(d) {
            let s = spec_removable(dirs, files);
            let k = choose|k: int| 0 <= k < s.len() && s[k] == d;
            if dir_removable(dirs[0], files) {
                if k > 0 {
                    assert(tail[k - 1] == d);
                    let i = choose|i: int|
                        0 <= i < dirs.drop_first().len() && dirs.drop_first()[i] == d
                            && dir_removable(dirs.drop_first()[i], files);
                    assert(dirs[i + 1] == d && dir_removable(dirs[i + 1], files));
                }
            } else {
                assert(tail[k] == d);
                let i = choose|i: int|
                    0 <= i < dirs.drop_first().len() && dirs.drop_first()[i] == d && dir_removable(
                        dirs.drop_first()[i],
                        files,
                    );
                assert(dirs[i + 1] == d && dir_removable(dirs[i + 1], files));
            }
        }
    }
}

} // verus!
