//! Tree assembly: merging a pending map of per-directory article records
//! into one rooted navigation tree.

use vstd::prelude::*;

use crate::paths::{path_segments, split_path, views_of};
use crate::sidebar::{children_models, find_child, lemma_children_models, lemma_find_child,
    ArticleSidebarData, NodeModel};
use crate::util::{title_case, title_case_spec};

verus! {

broadcast use vstd::seq::group_seq_axioms, vstd::std_specs::vec::group_vec_axioms;

/// The placeholder node for a directory without its own record.
pub open spec fn synthetic(seg: Seq<char>) -> NodeModel {
    NodeModel {
        id: seg,
        title: title_case_spec(seg),
        md_file_path: None,
        html_file_path: None,
        link_url: Seq::empty(),
        keywords: Seq::empty(),
        extra: Seq::empty(),
        children: Seq::empty(),
    }
}

/// Merging one record into a child sequence: an update in place that keeps
/// the existing children when the id is present, an append otherwise.
pub open spec fn merge_one(cs: Seq<NodeModel>, rec: NodeModel) -> Seq<NodeModel> {
    let i = find_child(cs, rec.id);
    if i < 0 {
        cs.push(rec)
    } else {
        cs.update(i, rec.with_children(cs[i].children))
    }
}

/// Merging records in order.
pub open spec fn merge_recs(cs: Seq<NodeModel>, rs: Seq<NodeModel>) -> Seq<NodeModel>
    decreases rs.len(),
{
    if rs.len() == 0 {
        cs
    } else {
        merge_recs(merge_one(cs, rs[0]), rs.drop_first())
    }
}

/// Inserting records at the node reached by walking `path` from `t`,
/// creating synthetic category nodes for missing path segments.
pub open spec fn insert_at(t: NodeModel, path: Seq<Seq<char>>, rs: Seq<NodeModel>) -> NodeModel
    decreases path.len(),
{
    if path.len() == 0 {
        t.with_children(merge_recs(t.children, rs))
    } else {
        let i = find_child(t.children, path[0]);
        if i < 0 {
            t.with_children(t.children.push(insert_at(synthetic(path[0]), path.drop_first(), rs)))
        } else {
            t.with_children(t.children.update(i, insert_at(t.children[i], path.drop_first(), rs)))
        }
    }
}

/// Applying a whole pending map, entry by entry.
pub open spec fn apply_pending(t: NodeModel, pm: Seq<(Seq<Seq<char>>, Seq<NodeModel>)>) -> NodeModel
    decreases pm.len(),
{
    if pm.len() == 0 {
        t
    } else {
        apply_pending(insert_at(t, pm[0].0, pm[0].1), pm.drop_first())
    }
}

/// The model of a pending map: parent paths as segments, records as models.
pub open spec fn pending_view(p: Seq<(String, Vec<ArticleSidebarData>)>) -> Seq<
    (Seq<Seq<char>>, Seq<NodeModel>),
> {
    p.map_values(
        |e: (String, Vec<ArticleSidebarData>)| (path_segments(e.0@), children_models(e.1@)),
    )
}

/// Replacing one element replaces one model.
pub proof fn lemma_models_update(s: Seq<ArticleSidebarData>, i: int, x: ArticleSidebarData)
    requires
        0 <= i < s.len(),
    ensures
        children_models(s.update(i, x)) == children_models(s).update(i, x.model()),
{
    lemma_children_models(s);
    lemma_children_models(s.update(i, x));
    assert(children_models(s.update(i, x)) =~= children_models(s).update(i, x.model()));
}

/// Appending one element appends one model.
pub proof fn lemma_models_push(s: Seq<ArticleSidebarData>, x: ArticleSidebarData)
    ensures
        children_models(s.push(x)) == children_models(s).push(x.model()),
{
    lemma_children_models(s);
    lemma_children_models(s.push(x));
    assert(children_models(s.push(x)) =~= children_models(s).push(x.model()));
}

/// Finds the first child with the given id, as `find_child` does.
fn find_child_index(children: &Vec<ArticleSidebarData>, id: &str) -> (r: Option<usize>)
    ensures
        match r {
            Some(i) => i < children@.len() && find_child(children_models(children@), id@)
                == i as int,
            None => find_child(children_models(children@), id@) == -1,
        },
{
    let ghost cs = children_models(children@);
    proof {
        lemma_children_models(children@);
        lemma_find_child(cs, id@);
    }
    let n = children.len();
    let mut i: usize = 0;
    while i < n
        invariant
            n == children@.len(),
            i <= n,
            cs == children_models(children@),
            cs.len() == n,
            forall|j: int| 0 <= j < n ==> cs[j] == children@[j].model(),
            forall|j: int| 0 <= j < i ==> cs[j].id != id@,
        decreases n - i,
    {
        if crate::text::str_eq(children[i].id.as_str(), id) {
            proof {
                crate::sidebar::lemma_find_child_range(cs, id@, i as int);
            }
            return Some(i);
        }
        i += 1;
    }
    None
}

/// Merges the records into the child sequence in order: a record whose id is
/// already present replaces that child's fields and keeps its children; a
/// new id is appended.
fn merge_into_children(children: &mut Vec<ArticleSidebarData>, recs: Vec<ArticleSidebarData>)
    ensures
        children_models(final(children)@) == merge_recs(
            children_models(old(children)@),
            children_models(recs@),
        ),
{
    let mut recs = recs;
    let ghost orig = children_models(old(children)@);
    let ghost all = children_models(recs@);
    while recs.len() > 0
        invariant
            merge_recs(orig, all) == merge_recs(
                children_models(children@),
                children_models(recs@),
            ),
        decreases recs@.len(),
    {
        let ghost pre = children_models(children@);
        let ghost pre_vec = children@;
        let ghost rem = children_models(recs@);
        let ghost prev_recs = recs@;
        let rec = recs.remove(0);
        proof {
            lemma_children_models(prev_recs);
            lemma_children_models(recs@);
            assert(recs@ =~= prev_recs.drop_first());
            assert(rec.model() == rem[0]);
            assert(children_models(recs@) =~= rem.drop_first());
        }
        let idx = find_child_index(children, rec.id.as_str());
        match idx {
            Some(i) => {
                let old_c = children.remove(i);
                let new_c = ArticleSidebarData { sub_articles: old_c.sub_articles, ..rec };
                proof {
                    assert(new_c.model() == rec.model().with_children(old_c.model().children));
                }
                children.insert(i, new_c);
                proof {
                    lemma_children_models(pre_vec);
                    assert(old_c.model() == pre[i as int]);
                    assert(children@ =~= pre_vec.update(i as int, new_c));
                    lemma_models_update(pre_vec, i as int, new_c);
                    assert(children_models(children@) == merge_one(pre, rec.model()));
                }
            },
            None => {
                let ghost before = children@;
                children.push(rec);
                proof {
                    lemma_models_push(before, rec);
                    assert(children_models(children@) == merge_one(pre, rec.model()));
                }
            },
        }
    }
    proof {
        lemma_children_models(recs@);
        assert(children_models(recs@) =~= Seq::<NodeModel>::empty());
    }
}

/// Walks `segs` from `node`, descending into the child whose id matches each
/// segment and appending a synthetic category node where none does, then
/// merges the records at the node reached.
fn insert_records_at(
    node: &mut ArticleSidebarData,
    segs: &Vec<String>,
    from: usize,
    recs: Vec<ArticleSidebarData>,
)
    requires
        from <= segs@.len(),
    ensures
        final(node).model() == insert_at(
            old(node).model(),
            views_of(segs@).skip(from as int),
            children_models(recs@),
        ),
    decreases segs@.len() - from,
{
    let ghost path = views_of(segs@).skip(from as int);
    if from == segs.len() {
        proof {
            assert(path.len() == 0);
        }
        merge_into_children(&mut node.sub_articles, recs);
        return;
    }
    proof {
        assert(path[0] == segs@[from as int]@);
        assert(path.drop_first() =~= views_of(segs@).skip(from as int + 1));
    }
    let seg = &segs[from];
    let idx = find_child_index(&node.sub_articles, seg.as_str());
    match idx {
        Some(i) => {
            let ghost pre_vec = node.sub_articles@;
            let mut child = node.sub_articles.remove(i);
            proof {
                lemma_children_models(pre_vec);
            }
            insert_records_at(&mut child, segs, from + 1, recs);
            node.sub_articles.insert(i, child);
            proof {
                assert(node.sub_articles@ =~= pre_vec.update(i as int, child));
                lemma_models_update(pre_vec, i as int, child);
            }
        },
        None => {
            let mut child = ArticleSidebarData {
                id: seg.clone(),
                title: title_case(seg.as_str()),
                md_file_path: None,
                html_file_path: None,
                link_url: String::new(),
                keywords: Vec::new(),
                extra: Vec::new(),
                sub_articles: Vec::new(),
            };
            proof {
                assert(crate::paths::views_of(child.keywords@) =~= Seq::<Seq<char>>::empty());
                assert(crate::meta::entries_view(child.extra@) =~= Seq::<
                    (Seq<char>, crate::meta::MetaValue),
                >::empty());
                assert(children_models(child.sub_articles@) =~= Seq::<NodeModel>::empty());
                assert(child.model() == synthetic(seg@));
            }
            insert_records_at(&mut child, segs, from + 1, recs);
            let ghost before = node.sub_articles@;
            node.sub_articles.push(child);
            proof {
                lemma_models_push(before, child);
            }
        },
    }
}

/// Files a record under its parent directory's path: appended to the
/// existing entry for that path, or opening a new entry at the end.
pub fn push_pending(
    pending: &mut Vec<(String, Vec<ArticleSidebarData>)>,
    key: String,
    rec: ArticleSidebarData,
)
    ensures
        ({
            let i = crate::config::find_key(old(pending)@, key@);
            if i >= 0 {
                pending_view(final(pending)@) == pending_view(old(pending)@).update(
                    i,
                    (
                        pending_view(old(pending)@)[i].0,
                        pending_view(old(pending)@)[i].1.push(rec.model()),
                    ),
                )
            } else {
                pending_view(final(pending)@) == pending_view(old(pending)@).push(
                    (path_segments(key@), seq![rec.model()]),
                )
            }
        }),
{
    let ghost pre = pending@;
    let idx = crate::config::lookup(pending, key.as_str());
    match idx {
        Some(i) => {
            let (k, mut list) = pending.remove(i);
            let ghost pre_list = list@;
            list.push(rec);
            proof {
                lemma_children_models(pre_list);
                lemma_children_models(list@);
                lemma_models_push(pre_list, rec);
            }
            pending.insert(i, (k, list));
            proof {
                assert(pending@ =~= pre.update(i as int, (k, list)));
                assert(pending_view(pending@) =~= pending_view(pre).update(
                    i as int,
                    (pending_view(pre)[i as int].0, pending_view(pre)[i as int].1.push(
                        rec.model(),
                    )),
                ));
            }
        },
        None => {
            let mut list: Vec<ArticleSidebarData> = Vec::new();
            list.push(rec);
            proof {
                assert(list@ =~= seq![rec]);
                lemma_children_models(list@);
                assert(children_models(list@) =~= seq![rec.model()]);
            }
            pending.push((key, list));
            proof {
                assert(pending_view(pending@) =~= pending_view(pre).push(
                    (path_segments(pre.push((key, list)).last().0@), seq![rec.model()]),
                ));
            }
        },
    }
}

/// Assembles the navigation tree: starting from the index record as the
/// root, every pending-map entry's records are inserted at the node its
/// parent path names, in entry order.
pub fn assemble(
    index_record: ArticleSidebarData,
    pending: Vec<(String, Vec<ArticleSidebarData>)>,
) -> (root: ArticleSidebarData)
    ensures
        root.model() == apply_pending(index_record.model(), pending_view(pending@)),
{
    let mut root = index_record;
    let mut pending = pending;
    let ghost orig = root.model();
    let ghost all = pending_view(pending@);
    while pending.len() > 0
        invariant
            apply_pending(orig, all) == apply_pending(root.model(), pending_view(pending@)),
        decreases pending@.len(),
    {
        let ghost prev = pending@;
        let ghost pre_root = root.model();
        let (path, recs) = pending.remove(0);
        proof {
            assert(pending@ =~= prev.drop_first());
            assert(pending_view(pending@) =~= pending_view(prev).drop_first());
            assert(pending_view(prev)[0] == (path_segments(path@), children_models(recs@)));
        }
        let segs = split_path(path.as_str());
        proof {
            assert(views_of(segs@).skip(0) =~= views_of(segs@));
        }
        insert_records_at(&mut root, &segs, 0, recs);
    }
    proof {
        assert(pending_view(pending@) =~= Seq::<(Seq<Seq<char>>, Seq<NodeModel>)>::empty());
    }
    root
}

// --- Laws of assembly ----------------------------------------------------

/// Whether some child carries the given id.
pub open spec fn has_id(cs: Seq<NodeModel>, id: Seq<char>) -> bool {
    exists|j: int| 0 <= j < cs.len() && cs[j].id == id
}

/// `find_child` succeeds exactly on present ids.
pub proof fn lemma_has_id_find(cs: Seq<NodeModel>, id: Seq<char>)
    ensures
        has_id(cs, id) <==> find_child(cs, id) >= 0,
{
    lemma_find_child(cs, id);
    if find_child(cs, id) >= 0 {
        assert(cs[find_child(cs, id)].id == id);
    }
    if has_id(cs, id) {
        if find_child(cs, id) == -1 {
            let j = choose|j: int| 0 <= j < cs.len() && cs[j].id == id;
            assert(false);
        }
    }
}

/// Two child sequences with the same ids in the same places are searched
/// the same way.
pub proof fn lemma_find_child_same_ids(cs1: Seq<NodeModel>, cs2: Seq<NodeModel>, id: Seq<char>)
    requires
        cs1.len() == cs2.len(),
        forall|j: int| 0 <= j < cs1.len() ==> cs1[j].id == cs2[j].id,
    ensures
        find_child(cs1, id) == find_child(cs2, id),
    decreases cs1.len(),
{
    if cs1.len() > 0 && cs1[0].id != id {
        assert forall|j: int| 0 <= j < cs1.len() - 1 implies cs1.drop_first()[j].id
            == cs2.drop_first()[j].id by {
            assert(cs1.drop_first()[j] == cs1[j + 1]);
            assert(cs2.drop_first()[j] == cs2[j + 1]);
        }
        lemma_find_child_same_ids(cs1.drop_first(), cs2.drop_first(), id);
    }
}

/// Merging never loses an id: existing children keep their places and
/// ids, and every record's id is present afterwards.
pub proof fn lemma_merge_adds_ids(cs: Seq<NodeModel>, rs: Seq<NodeModel>)
    ensures
        merge_recs(cs, rs).len() >= cs.len(),
        forall|j: int| 0 <= j < cs.len() ==> merge_recs(cs, rs)[j].id == cs[j].id,
        forall|k: int| 0 <= k < rs.len() ==> has_id(merge_recs(cs, rs), rs[k].id),
    decreases rs.len(),
{
    if rs.len() > 0 {
        let cs1 = merge_one(cs, rs[0]);
        lemma_find_child(cs, rs[0].id);
        let i = find_child(cs, rs[0].id);
        assert(cs1.len() >= cs.len());
        assert forall|j: int| 0 <= j < cs.len() implies cs1[j].id == cs[j].id by {}
        lemma_merge_adds_ids(cs1, rs.drop_first());
        let m = merge_recs(cs, rs);
        assert(m == merge_recs(cs1, rs.drop_first()));
        assert forall|k: int| 0 <= k < rs.len() implies has_id(m, rs[k].id) by {
            if k == 0 {
                // the first record's id is present in cs1, hence in m
                if i < 0 {
                    assert(cs1[cs.len() as int].id == rs[0].id);
                } else {
                    assert(cs1[i].id == rs[0].id);
                }
                let j = choose|j: int| 0 <= j < cs1.len() && cs1[j].id == rs[0].id;
                assert(m[j].id == rs[0].id);
            } else {
                assert(rs.drop_first()[k - 1] == rs[k]);
            }
        }
    }
}

/// Merging records whose ids are all present only rewrites fields: the
/// length, the ids and every child's own children stay as they were.
pub proof fn lemma_merge_second(cs: Seq<NodeModel>, rs: Seq<NodeModel>)
    requires
        forall|k: int| 0 <= k < rs.len() ==> has_id(cs, rs[k].id),
    ensures
        merge_recs(cs, rs).len() == cs.len(),
        forall|j: int| 0 <= j < cs.len() ==> merge_recs(cs, rs)[j].id == cs[j].id,
        forall|j: int|
            0 <= j < cs.len() ==> merge_recs(cs, rs)[j].children == cs[j].children,
    decreases rs.len(),
{
    if rs.len() > 0 {
        assert(has_id(cs, rs[0].id));
        lemma_has_id_find(cs, rs[0].id);
        let i = find_child(cs, rs[0].id);
        lemma_find_child(cs, rs[0].id);
        let cs1 = merge_one(cs, rs[0]);
        assert(cs1.len() == cs.len());
        assert forall|j: int| 0 <= j < cs.len() implies cs1[j].id == cs[j].id && cs1[j].children
            == cs[j].children by {}
        assert forall|k: int| 0 <= k < rs.drop_first().len() implies has_id(
            cs1,
            rs.drop_first()[k].id,
        ) by {
            assert(rs.drop_first()[k] == rs[k + 1]);
            assert(has_id(cs, rs[k + 1].id));
            let j = choose|j: int| 0 <= j < cs.len() && cs[j].id == rs[k + 1].id;
            assert(cs1[j].id == rs[k + 1].id);
        }
        lemma_merge_second(cs1, rs.drop_first());
    }
}

/// No two siblings share an id.
pub open spec fn unique_node_ids(cs: Seq<NodeModel>) -> bool {
    forall|i: int, j: int| 0 <= i < j < cs.len() ==> cs[i].id != cs[j].id
}

/// The tree invariant: at every node, the children's ids are unique.
pub open spec fn wf_node(t: NodeModel) -> bool
    decreases t,
{
    unique_node_ids(t.children) && wf_children(t.children)
}

/// The tree invariant over a child sequence.
pub open spec fn wf_children(cs: Seq<NodeModel>) -> bool
    decreases cs,
{
    if cs.len() == 0 {
        true
    } else {
        wf_node(cs[0]) && wf_children(cs.drop_first())
    }
}

/// `wf_children` is the pointwise invariant.
pub proof fn lemma_wf_children_pointwise(cs: Seq<NodeModel>)
    ensures
        wf_children(cs) <==> forall|j: int| 0 <= j < cs.len() ==> wf_node(cs[j]),
    decreases cs,
{
    if cs.len() > 0 {
        lemma_wf_children_pointwise(cs.drop_first());
        assert forall|j: int| 1 <= j < cs.len() implies cs.drop_first()[j - 1] == cs[j] by {}
        if wf_node(cs[0]) && (forall|j: int|
            0 <= j < cs.drop_first().len() ==> wf_node(cs.drop_first()[j])) {
            assert forall|j: int| 0 <= j < cs.len() implies wf_node(cs[j]) by {
                if j > 0 {
                    assert(cs[j] == cs.drop_first()[j - 1]);
                }
            }
        }
    }
}

/// Merging keeps sibling ids unique and every child well formed, as long
/// as the records themselves are.
proof fn lemma_merge_wf(cs: Seq<NodeModel>, rs: Seq<NodeModel>)
    requires
        unique_node_ids(cs),
        wf_children(cs),
        forall|k: int| 0 <= k < rs.len() ==> wf_node(#[trigger] rs[k]),
    ensures
        unique_node_ids(merge_recs(cs, rs)),
        wf_children(merge_recs(cs, rs)),
    decreases rs.len(),
{
    if rs.len() > 0 {
        let rec = rs[0];
        lemma_find_child(cs, rec.id);
        let i = find_child(cs, rec.id);
        let cs1 = merge_one(cs, rec);
        lemma_wf_children_pointwise(cs);
        lemma_wf_children_pointwise(cs1);
        if i < 0 {
            assert forall|a: int, b: int| 0 <= a < b < cs1.len() implies cs1[a].id
                != cs1[b].id by {
                if b == cs.len() {
                    assert(cs1[b] == rec);
                    assert(cs[a].id != rec.id);
                }
            }
            assert forall|j: int| 0 <= j < cs1.len() implies wf_node(cs1[j]) by {
                if j == cs.len() {
                    assert(cs1[j] == rec);
                }
            }
        } else {
            assert forall|j: int| 0 <= j < cs1.len() implies wf_node(cs1[j]) by {
                if j == i {
                    assert(cs1[j] == rec.with_children(cs[i].children));
                    assert(wf_node(cs[i]));
                }
            }
        }
        assert forall|k: int| 0 <= k < rs.drop_first().len() implies wf_node(
            #[trigger] rs.drop_first()[k],
        ) by {
            assert(rs.drop_first()[k] == rs[k + 1]);
        }
        lemma_merge_wf(cs1, rs.drop_first());
    }
}

/// Assembling keeps the tree invariant: a duplicate insertion updates the
/// existing child in place, so sibling ids stay unique at every node.
pub proof fn lemma_insert_at_preserves_wf(t: NodeModel, path: Seq<Seq<char>>, rs: Seq<NodeModel>)
    requires
        wf_node(t),
        forall|k: int| 0 <= k < rs.len() ==> wf_node(#[trigger] rs[k]),
    ensures
        wf_node(insert_at(t, path, rs)),
    decreases path.len(),
{
    if path.len() == 0 {
        lemma_merge_wf(t.children, rs);
    } else {
        let seg = path[0];
        let i = find_child(t.children, seg);
        lemma_find_child(t.children, seg);
        lemma_wf_children_pointwise(t.children);
        if i < 0 {
            assert(wf_node(synthetic(seg)));
            lemma_insert_at_preserves_wf(synthetic(seg), path.drop_first(), rs);
            let c1 = insert_at(synthetic(seg), path.drop_first(), rs);
            lemma_insert_at_keeps_id(synthetic(seg), path.drop_first(), rs);
            let cs1 = t.children.push(c1);
            assert forall|a: int, b: int| 0 <= a < b < cs1.len() implies cs1[a].id
                != cs1[b].id by {
                if b == t.children.len() {
                    assert(cs1[b] == c1);
                    assert(t.children[a].id != seg);
                }
            }
            assert forall|j: int| 0 <= j < cs1.len() implies wf_node(cs1[j]) by {
                if j == t.children.len() {
                    assert(cs1[j] == c1);
                }
            }
            lemma_wf_children_pointwise(cs1);
        } else {
            lemma_insert_at_preserves_wf(t.children[i], path.drop_first(), rs);
            let c1 = insert_at(t.children[i], path.drop_first(), rs);
            lemma_insert_at_keeps_id(t.children[i], path.drop_first(), rs);
            let cs1 = t.children.update(i, c1);
            assert forall|a: int, b: int| 0 <= a < b < cs1.len() implies cs1[a].id
                != cs1[b].id by {}
            assert forall|j: int| 0 <= j < cs1.len() implies wf_node(cs1[j]) by {
                if j != i {
                    assert(cs1[j] == t.children[j]);
                }
            }
            lemma_wf_children_pointwise(cs1);
        }
    }
}

/// Structural identity: the same ids and the same child order, all the
/// way down, whatever the other fields say.
pub open spec fn same_shape(a: NodeModel, b: NodeModel) -> bool
    decreases a,
{
    a.id == b.id && same_shape_children(a.children, b.children)
}

/// Structural identity of child sequences.
pub open spec fn same_shape_children(xs: Seq<NodeModel>, ys: Seq<NodeModel>) -> bool
    decreases xs,
{
    if xs.len() != ys.len() {
        false
    } else if xs.len() == 0 {
        true
    } else {
        same_shape(xs[0], ys[0]) && same_shape_children(xs.drop_first(), ys.drop_first())
    }
}

/// Every node has its own shape.
pub proof fn lemma_same_shape_refl(a: NodeModel)
    ensures
        same_shape(a, a),
    decreases a,
{
    lemma_same_shape_children_refl(a.children);
}

pub proof fn lemma_same_shape_children_refl(xs: Seq<NodeModel>)
    ensures
        same_shape_children(xs, xs),
    decreases xs,
{
    if xs.len() > 0 {
        lemma_same_shape_refl(xs[0]);
        lemma_same_shape_children_refl(xs.drop_first());
    }
}

/// Pointwise shape identity makes sequences shape-identical.
pub proof fn lemma_same_shape_children_pointwise(xs: Seq<NodeModel>, ys: Seq<NodeModel>)
    requires
        xs.len() == ys.len(),
        forall|j: int| 0 <= j < xs.len() ==> same_shape(xs[j], ys[j]),
    ensures
        same_shape_children(xs, ys),
    decreases xs.len(),
{
    if xs.len() > 0 {
        assert forall|j: int| 0 <= j < xs.len() - 1 implies same_shape(
            xs.drop_first()[j],
            ys.drop_first()[j],
        ) by {
            assert(xs.drop_first()[j] == xs[j + 1]);
            assert(ys.drop_first()[j] == ys[j + 1]);
        }
        lemma_same_shape_children_pointwise(xs.drop_first(), ys.drop_first());
    }
}

/// Inserting changes a node's children only.
pub proof fn lemma_insert_at_keeps_id(t: NodeModel, path: Seq<Seq<char>>, rs: Seq<NodeModel>)
    ensures
        insert_at(t, path, rs).id == t.id,
{
}

/// Updating an existing child with a record keeps the child's attached
/// children: only its other fields take the record's values, and no other
/// child moves.
pub proof fn lemma_update_preserves_children(t: NodeModel, rec: NodeModel)
    requires
        has_id(t.children, rec.id),
    ensures
        ({
            let i = find_child(t.children, rec.id);
            let t2 = insert_at(t, Seq::empty(), seq![rec]);
            &&& t2.children.len() == t.children.len()
            &&& t2.children[i] == rec.with_children(t.children[i].children)
            &&& forall|j: int|
                0 <= j < t.children.len() && j != i ==> t2.children[j] == t.children[j]
        }),
{
    lemma_has_id_find(t.children, rec.id);
    lemma_find_child(t.children, rec.id);
    let rs = seq![rec];
    assert(rs[0] == rec);
    assert(rs.drop_first() =~= Seq::<NodeModel>::empty());
    assert(merge_recs(t.children, rs) == merge_recs(merge_one(t.children, rec), rs.drop_first()));
    assert(merge_recs(merge_one(t.children, rec), rs.drop_first()) == merge_one(t.children, rec));
    let i = find_child(t.children, rec.id);
    assert(merge_one(t.children, rec) == t.children.update(i, rec.with_children(
        t.children[i].children,
    )));
}

/// Assembling the records of one directory twice gives a structurally
/// identical tree: the second pass finds every category and every record
/// already in place, so the ids and the child order, at every level, are
/// those of the first pass.
pub proof fn lemma_insert_at_idempotent(t: NodeModel, path: Seq<Seq<char>>, rs: Seq<NodeModel>)
    ensures
        same_shape(insert_at(insert_at(t, path, rs), path, rs), insert_at(t, path, rs)),
    decreases path.len(), 1int,
{
    let t1 = insert_at(t, path, rs);
    let t2 = insert_at(t1, path, rs);
    if path.len() == 0 {
        lemma_merge_adds_ids(t.children, rs);
        assert forall|k: int| 0 <= k < rs.len() implies has_id(t1.children, rs[k].id) by {}
        lemma_merge_second(t1.children, rs);
        assert forall|j: int| 0 <= j < t1.children.len() implies same_shape(
            t2.children[j],
            t1.children[j],
        ) by {
            lemma_same_shape_children_refl(t1.children[j].children);
        }
        lemma_same_shape_children_pointwise(t2.children, t1.children);
    } else {
        let seg = path[0];
        let i = find_child(t.children, seg);
        lemma_find_child(t.children, seg);
        lemma_insert_at_idempotent_step(t, path, rs);
    }
}

/// The descending case of the idempotence proof: the second pass finds the
/// same child, because the first pass kept every id in its place.
proof fn lemma_insert_at_idempotent_step(t: NodeModel, path: Seq<Seq<char>>, rs: Seq<NodeModel>)
    requires
        path.len() > 0,
    ensures
        same_shape(insert_at(insert_at(t, path, rs), path, rs), insert_at(t, path, rs)),
    decreases path.len(), 0int,
{
    let t1 = insert_at(t, path, rs);
    let t2 = insert_at(t1, path, rs);
    let seg = path[0];
    let i = find_child(t.children, seg);
    lemma_find_child(t.children, seg);
    if i < 0 {
        let c1 = insert_at(synthetic(seg), path.drop_first(), rs);
        lemma_insert_at_keeps_id(synthetic(seg), path.drop_first(), rs);
        assert(t1.children == t.children.push(c1));
        // in the extended sequence the new child is the first with this id
        assert forall|j: int| 0 <= j < t.children.len() implies t1.children[j].id != seg by {}
        assert(t1.children[t.children.len() as int].id == seg);
        crate::sidebar::lemma_find_child_range(t1.children, seg, t.children.len() as int);
        let c2 = insert_at(c1, path.drop_first(), rs);
        lemma_insert_at_idempotent(synthetic(seg), path.drop_first(), rs);
        assert(same_shape(c2, c1));
        assert(t2.children == t1.children.update(t.children.len() as int, c2));
        assert forall|j: int| 0 <= j < t1.children.len() implies same_shape(
            t2.children[j],
            t1.children[j],
        ) by {
            if j < t.children.len() {
                lemma_same_shape_refl(t1.children[j]);
            }
        }
        lemma_same_shape_children_pointwise(t2.children, t1.children);
    } else {
        let c1 = insert_at(t.children[i], path.drop_first(), rs);
        lemma_insert_at_keeps_id(t.children[i], path.drop_first(), rs);
        assert(t1.children == t.children.update(i, c1));
        assert forall|j: int| 0 <= j < t.children.len() implies t1.children[j].id
            == t.children[j].id by {}
        lemma_find_child_same_ids(t1.children, t.children, seg);
        let c2 = insert_at(c1, path.drop_first(), rs);
        lemma_insert_at_idempotent(t.children[i], path.drop_first(), rs);
        assert(same_shape(c2, c1));
        assert(t2.children == t1.children.update(i, c2));
        assert forall|j: int| 0 <= j < t1.children.len() implies same_shape(
            t2.children[j],
            t1.children[j],
        ) by {
            if j != i {
                lemma_same_shape_refl(t1.children[j]);
            }
        }
        lemma_same_shape_children_pointwise(t2.children, t1.children);
    }
}

} // verus!
