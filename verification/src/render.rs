//! The render plan: which nodes of the assembled tree are rendered, in
//! what order, and with which relative-root prefix.

use vstd::prelude::*;

use crate::sidebar::{children_models, ArticleSidebarData, NodeModel};
use crate::text::push_char;

verus! {

broadcast use vstd::seq::group_seq_axioms, vstd::std_specs::vec::group_vec_axioms;

/// `../` repeated `n` times: the prefix a page `n` levels below the output
/// root uses to reach it.
pub open spec fn up_seq(n: nat) -> Seq<char>
    decreases n,
{
    if n == 0 {
        Seq::empty()
    } else {
        seq!['.', '.', '/'] + up_seq((n - 1) as nat)
    }
}

proof fn lemma_up_snoc(n: nat)
    ensures
        up_seq(n) + seq!['.', '.', '/'] == up_seq(n + 1),
    decreases n,
{
    if n == 0 {
        assert(up_seq(0) + seq!['.', '.', '/'] =~= up_seq(1));
    } else {
        lemma_up_snoc((n - 1) as nat);
        assert(up_seq(n) + seq!['.', '.', '/'] =~= seq!['.', '.', '/'] + (up_seq((n - 1) as nat)
            + seq!['.', '.', '/']));
    }
}

/// The relative-root prefix for a node `depth` levels below the output
/// root: `../` repeated that many times; depth 0 yields the empty string.
pub fn root_url_prefix(depth: usize) -> (r: String)
    ensures
        r@ == up_seq(depth as nat),
{
    let mut r = String::new();
    let mut i: usize = 0;
    proof {
        reveal_strlit("../");
        assert("../"@ =~= seq!['.', '.', '/']);
    }
    while i < depth
        invariant
            i <= depth,
            r@ == up_seq(i as nat),
        decreases depth - i,
    {
        r.append("../");
        proof {
            reveal_strlit("../");
            assert("../"@ =~= seq!['.', '.', '/']);
            lemma_up_snoc(i as nat);
        }
        i += 1;
    }
    r
}

/// The render plan of a subtree: each node that has a backing markdown
/// file, with its depth, the node itself first and its children after it,
/// in order.
pub open spec fn spec_jobs(n: NodeModel, depth: nat) -> Seq<(NodeModel, nat)>
    decreases n,
{
    (if n.md_file_path is Some {
        seq![(n, depth)]
    } else {
        Seq::empty()
    }) + spec_jobs_children(n.children, depth + 1)
}

/// The render plan of a child sequence.
pub open spec fn spec_jobs_children(cs: Seq<NodeModel>, depth: nat) -> Seq<(NodeModel, nat)>
    decreases cs,
{
    if cs.len() == 0 {
        Seq::empty()
    } else {
        spec_jobs(cs[0], depth) + spec_jobs_children(cs.drop_first(), depth)
    }
}

/// The models of a job list.
pub open spec fn job_models(js: Seq<(&ArticleSidebarData, String)>) -> Seq<(NodeModel, Seq<char>)> {
    js.map_values(|p: (&ArticleSidebarData, String)| (p.0.model(), p.1@))
}

/// A plan with each depth turned into its prefix.
pub open spec fn jobs_with_prefix(js: Seq<(NodeModel, nat)>) -> Seq<(NodeModel, Seq<char>)> {
    js.map_values(|p: (NodeModel, nat)| (p.0, up_seq(p.1)))
}

fn collect_jobs_rec<'a>(
    node: &'a ArticleSidebarData,
    prefix: &String,
    out: &mut Vec<(&'a ArticleSidebarData, String)>,
    Ghost(depth): Ghost<nat>,
)
    requires
        prefix@ == up_seq(depth),
    ensures
        job_models(final(out)@) == job_models(old(out)@) + jobs_with_prefix(
            spec_jobs(node.model(), depth),
        ),
    decreases *node,
{
    let ghost base = job_models(out@);
    if node.md_file_path.is_some() {
        out.push((node, prefix.clone()));
        proof {
            assert(job_models(out@) =~= base + jobs_with_prefix(seq![(node.model(), depth)]));
        }
    } else {
        proof {
            assert(job_models(out@) =~= base + jobs_with_prefix(
                Seq::<(NodeModel, nat)>::empty(),
            ));
        }
    }
    let ghost own = if node.model().md_file_path is Some {
        seq![(node.model(), depth)]
    } else {
        Seq::<(NodeModel, nat)>::empty()
    };
    let mut child_prefix = prefix.clone();
    child_prefix.append("../");
    proof {
        reveal_strlit("../");
        assert("../"@ =~= seq!['.', '.', '/']);
        lemma_up_snoc(depth);
        crate::sidebar::lemma_children_models(node.sub_articles@);
    }
    let n = node.sub_articles.len();
    let ghost cs = node.model().children;
    let mut i: usize = 0;
    while i < n
        invariant
            n == node.sub_articles@.len(),
            i <= n,
            cs == node.model().children,
            cs.len() == n,
            forall|j: int| 0 <= j < n ==> cs[j] == node.sub_articles@[j].model(),
            child_prefix@ == up_seq(depth + 1),
            job_models(out@) == base + jobs_with_prefix(own + spec_jobs_children(
                cs.take(i as int),
                depth + 1,
            )),
        decreases n - i,
    {
        proof {
            assert(decreases_to!(*node => node.sub_articles));
            assert(decreases_to!(node.sub_articles => node.sub_articles@));
            assert(decreases_to!(node.sub_articles@ => node.sub_articles@[i as int]));
        }
        let ghost pre = job_models(out@);
        collect_jobs_rec(&node.sub_articles[i], &child_prefix, out, Ghost(depth + 1));
        proof {
            lemma_jobs_children_snoc(cs, i as int, depth + 1);
            assert(job_models(out@) =~= base + jobs_with_prefix(own + spec_jobs_children(
                cs.take(i as int + 1),
                depth + 1,
            )));
        }
        i += 1;
    }
    proof {
        assert(cs.take(n as int) =~= cs);
        assert(job_models(out@) =~= job_models(old(out)@) + jobs_with_prefix(
            spec_jobs(node.model(), depth),
        ));
    }
}

/// Extending the range by one child appends that child's plan.
proof fn lemma_jobs_children_snoc(cs: Seq<NodeModel>, i: int, depth: nat)
    requires
        0 <= i < cs.len(),
    ensures
        spec_jobs_children(cs.take(i + 1), depth) == spec_jobs_children(cs.take(i), depth)
            + spec_jobs(cs[i], depth),
    decreases i,
{
    if i == 0 {
        assert(cs.take(1).drop_first() =~= Seq::<NodeModel>::empty());
        assert(cs.take(1)[0] == cs[0]);
        assert(cs.take(0) =~= Seq::<NodeModel>::empty());
        assert(spec_jobs_children(cs.take(1), depth) =~= spec_jobs_children(cs.take(0), depth)
            + spec_jobs(cs[0], depth));
    } else {
        lemma_jobs_children_snoc(cs.drop_first(), i - 1, depth);
        assert(cs.take(i + 1).drop_first() =~= cs.drop_first().take(i));
        assert(cs.take(i).drop_first() =~= cs.drop_first().take(i - 1));
        assert(cs.take(i + 1)[0] == cs[0]);
        assert(cs.take(i)[0] == cs[0]);
        assert(cs.drop_first()[i - 1] == cs[i]);
        assert(spec_jobs_children(cs.take(i + 1), depth) =~= spec_jobs_children(cs.take(i), depth)
            + spec_jobs(cs[i], depth));
    }
}

/// Lays out the render plan for the assembled tree: one job per node with
/// a backing markdown file, parents before children, children in order,
/// each job carrying the node and its relative-root prefix, which is `../`
/// repeated the node's depth plus the given depth of the articles output
/// directory's parent.
pub fn collect_render_jobs<'a>(root: &'a ArticleSidebarData, articles_root_depth: usize) -> (jobs:
    Vec<(&'a ArticleSidebarData, String)>)
    ensures
        job_models(jobs@) == jobs_with_prefix(
            spec_jobs(root.model(), articles_root_depth as nat),
        ),
{
    let prefix = root_url_prefix(articles_root_depth);
    let mut jobs: Vec<(&'a ArticleSidebarData, String)> = Vec::new();
    proof {
        assert(job_models(jobs@) =~= Seq::<(NodeModel, Seq<char>)>::empty());
    }
    collect_jobs_rec(root, &prefix, &mut jobs, Ghost(articles_root_depth as nat));
    proof {
        assert(Seq::<(NodeModel, Seq<char>)>::empty() + jobs_with_prefix(
            spec_jobs(root.model(), articles_root_depth as nat),
        ) =~= jobs_with_prefix(spec_jobs(root.model(), articles_root_depth as nat)));
    }
    jobs
}

} // verus!
