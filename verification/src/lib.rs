//! Verified core of the rusize disk-space analyzer: the directory tree model,
//! its ordering, the report renderings, the text-report parser, and the
//! state machine behind the interactive explorer.

pub mod chars;
pub mod cli;
pub mod display;
pub mod models;
pub mod scanner;
pub mod services;
pub mod text;
pub mod utils;

pub use services::report::ReportFormat;

use vstd::prelude::*;
use crate::models::dir_node::{DirNode, DirNodeView, views, lemma_views};
use crate::services::scanner::{lemma_sort_orders, sort_recursive, sort_views, tree_sorted};

verus! {

/// A folder with its subfolders, at every depth, kept only where they have
/// at least `min` bytes.
pub open spec fn pruned_node(v: DirNodeView, min: u64) -> DirNodeView
    decreases v,
{
    DirNodeView { children: pruned(v.children, min), ..v }
}

/// The folders of `s` that have at least `min` bytes, in order, each with its
/// subfolders kept the same way.
pub open spec fn pruned(s: Seq<DirNodeView>, min: u64) -> Seq<DirNodeView>
    decreases s,
{
    if s.len() == 0 {
        Seq::empty()
    } else {
        let init = pruned(s.subrange(0, s.len() - 1), min);
        if s[s.len() - 1].size >= min {
            init.push(pruned_node(s[s.len() - 1], min))
        } else {
            init
        }
    }
}

/// Every folder of the forest, at every depth, has at least `min` bytes.
pub open spec fn all_at_least(s: Seq<DirNodeView>, min: u64) -> bool
    decreases s,
{
    forall|i: int| 0 <= i < s.len() ==> #[trigger] s[i].size >= min && all_at_least(s[i].children, min)
}

/// The sum of the nodes' sizes.
pub open spec fn size_sum(s: Seq<DirNodeView>) -> nat
    decreases s.len(),
{
    if s.len() == 0 {
        0
    } else {
        size_sum(s.drop_last()) + s.last().size as nat
    }
}

/// The folders of a scan, ordered by size when `sort` (see [`sort_views`]).
pub open spec fn scan_order(nodes: Seq<DirNodeView>, sort: bool) -> Seq<DirNodeView> {
    if sort {
        sort_views(nodes)
    } else {
        nodes
    }
}

/// The folders that a scanned root shows: ordered by size when `sort`
/// (see [`sort_views`]), then, at every depth, those of at least `min` bytes.
pub open spec fn shown_folders(nodes: Seq<DirNodeView>, sort: bool, min: u64) -> Seq<DirNodeView> {
    pruned(scan_order(nodes, sort), min)
}

proof fn lemma_size_sum_prefix(s: Seq<DirNodeView>, k: int)
    requires
        0 <= k <= s.len(),
    ensures
        size_sum(s.take(k)) <= size_sum(s),
    decreases s.len() - k,
{
    if k < s.len() {
        lemma_size_sum_prefix(s, k + 1);
        assert(s.take(k + 1).drop_last() =~= s.take(k));
    } else {
        assert(s.take(k) =~= s);
    }
}

proof fn lemma_pruned(s: Seq<DirNodeView>, min: u64)
    ensures
        all_at_least(pruned(s, min), min),
        forall|j: int| 0 <= j < pruned(s, min).len() ==> exists|i: int| 0 <= i < s.len() && #[trigger] pruned(s, min)[j]
            == pruned_node(s[i], min),
        forall|i: int| 0 <= i < s.len() && #[trigger] s[i].size >= min ==> pruned(s, min).contains(pruned_node(s[i], min)),
        tree_sorted(s) ==> tree_sorted(pruned(s, min)),
    decreases s,
{
    if s.len() > 0 {
        let init = s.subrange(0, s.len() - 1);
        let x = s[s.len() - 1];
        let a = pruned(init, min);
        let r = pruned(s, min);
        assert(decreases_to!(s => init));
        lemma_pruned(init, min);
        assert(decreases_to!(s => x));
        assert(decreases_to!(x => x.children));
        lemma_pruned(x.children, min);
        assert forall|j: int| 0 <= j < r.len() implies exists|i: int| 0 <= i < s.len() && #[trigger] r[j]
            == pruned_node(s[i], min) by {
            if j < a.len() {
                assert(r[j] == a[j]);
                let i = choose|i: int| 0 <= i < init.len() && a[j] == pruned_node(init[i], min);
                assert(s[i] == init[i]);
            } else {
                assert(r[j] == pruned_node(s[s.len() - 1], min));
            }
        }
        assert forall|i: int| 0 <= i < s.len() && #[trigger] s[i].size >= min implies r.contains(pruned_node(s[i], min)) by {
            if i < s.len() - 1 {
                assert(init[i] == s[i]);
                let j = choose|j: int| 0 <= j < a.len() && a[j] == pruned_node(init[i], min);
                assert(r[j] == a[j]);
            } else {
                assert(r[r.len() - 1] == pruned_node(x, min));
            }
        }
        assert forall|j: int| 0 <= j < r.len() implies #[trigger] r[j].size >= min && all_at_least(r[j].children, min) by {
            if j < a.len() {
                assert(r[j] == a[j]);
            } else {
                assert(r[j] == pruned_node(x, min));
                assert(r[j].children == pruned(x.children, min));
            }
        }
        assert(all_at_least(r, min));
        if tree_sorted(s) {
            assert(tree_sorted(init)) by {
                assert forall|i: int| 0 <= i < init.len() implies tree_sorted(#[trigger] init[i].children) by {
                    assert(init[i] == s[i]);
                }
            }
            assert(tree_sorted(x.children));
            assert forall|j: int, l: int| 0 <= j < l < r.len() implies r[j].size >= r[l].size by {
                if l < a.len() {
                    assert(r[j] == a[j] && r[l] == a[l]);
                } else {
                    assert(r[j] == a[j]);
                    let i = choose|i: int| 0 <= i < init.len() && a[j] == pruned_node(init[i], min);
                    assert(s[i] == init[i]);
                }
            }
            assert forall|j: int| 0 <= j < r.len() implies tree_sorted(#[trigger] r[j].children) by {
                if j < a.len() {
                    assert(r[j] == a[j]);
                }
            }
        }
    }
}

/// The folders that a scanned root shows are, at every depth, those of at
/// least `min` bytes: each shown folder is a folder of the scan (ordered by
/// size when `sort`) with its subfolders kept the same way, none of at least
/// `min` bytes is left out, and when `sort`, every level goes from the largest
/// size to the smallest.
pub proof fn lemma_shown_folders(nodes: Seq<DirNodeView>, sort: bool, min: u64)
    ensures
        ({
            let from = scan_order(nodes, sort);
            let shown = shown_folders(nodes, sort, min);
            &&& all_at_least(shown, min)
            &&& forall|j: int| 0 <= j < shown.len() ==> exists|i: int| 0 <= i < from.len() && #[trigger] shown[j]
                == pruned_node(from[i], min)
            &&& forall|i: int| 0 <= i < from.len() && #[trigger] from[i].size >= min ==> shown.contains(
                pruned_node(from[i], min),
            )
            &&& sort ==> tree_sorted(shown)
        }),
{
    let from = scan_order(nodes, sort);
    lemma_pruned(from, min);
    if sort {
        lemma_sort_orders(nodes);
    }
}

/// `nodes` with the folders of fewer than `min_bytes` bytes left out, at every depth.
#[verifier::loop_isolation(false)]
fn prune(nodes: Vec<DirNode>, min_bytes: u64) -> (res: Vec<DirNode>)
    ensures
        views(res@) == pruned(views(nodes@), min_bytes),
    decreases nodes@,
{
    let ghost orig = nodes@;
    let ghost vs = views(orig);
    proof {
        lemma_views(orig);
    }
    let mut pending = crate::text::reversed(nodes);
    let n = pending.len();
    let mut kept: Vec<DirNode> = Vec::new();
    let mut i: usize = 0;
    assert(views(kept@) =~= Seq::<DirNodeView>::empty());
    assert(vs.subrange(0, 0) =~= Seq::<DirNodeView>::empty());
    while i < n
        invariant
            n == vs.len(),
            n == orig.len(),
            i <= n,
            pending@.len() == n - i,
            forall|k: int| 0 <= k < n - i ==> #[trigger] pending@[k] == orig[n - 1 - k],
            forall|k: int| 0 <= k < n ==> #[trigger] vs[k] == crate::models::dir_node::node_view(orig[k]),
            views(kept@) == pruned(vs.subrange(0, i as int), min_bytes),
            vs == views(orig),
        decreases n - i,
    {
        let node = pending.pop().unwrap();
        assert(node == orig[i as int]);
        let ghost pre = vs.subrange(0, i as int);
        let ghost post = vs.subrange(0, i + 1);
        assert(post.subrange(0, post.len() - 1) =~= pre);
        assert(post[post.len() - 1] == vs[i as int]);
        if node.size >= min_bytes {
            let DirNode { name, path, size, children } = node;
            proof {
                assert(decreases_to!(orig => orig[i as int]));
                assert(decreases_to!(orig[i as int] => orig[i as int].children));
                assert(decreases_to!(orig[i as int].children => orig[i as int].children@));
                assert(children@ == orig[i as int].children@);
            }
            let children = prune(children, min_bytes);
            let ghost before = kept@;
            kept.push(DirNode { name, path, size, children });
            assert(kept@.subrange(0, kept@.len() - 1) =~= before);
            assert(crate::models::dir_node::node_view(kept@[kept@.len() - 1]) == pruned_node(vs[i as int], min_bytes));
        }
        i = i + 1;
    }
    assert(vs.subrange(0, n as int) =~= vs);
    kept
}

/// The node of a scanned root: its folders, sorted when `sort`, without
/// those below `min_bytes` at any depth; its size is the sum of the sizes of
/// the top-level folders that it keeps. `None`
/// when that sum does not fit in 64 bits.
pub fn assemble_target(name: String, path: String, nodes: Vec<DirNode>, sort: bool, min_bytes: u64) -> (res: Option<DirNode>)
    ensures
        res is None <==> size_sum(shown_folders(views(nodes@), sort, min_bytes)) > u64::MAX,
        res matches Some(root) ==> {
            &&& root.name@ == name@
            &&& root.path@ == path@
            &&& views(root.children@) == shown_folders(views(nodes@), sort, min_bytes)
            &&& root.size as nat == size_sum(shown_folders(views(nodes@), sort, min_bytes))
        },
{
    let ghost orig = views(nodes@);
    let mut nodes = nodes;
    if sort {
        sort_recursive(&mut nodes);
    }
    assert(views(nodes@) == if sort { sort_views(orig) } else { orig });
    // Keep the folders of at least `min_bytes`, at every depth.
    let kept = prune(nodes, min_bytes);
    let ghost shown = views(kept@);
    assert(shown == shown_folders(orig, sort, min_bytes));
    // Their total size.
    let mut size: u64 = 0;
    let mut overflow = false;
    let mut j: usize = 0;
    proof {
        lemma_views(kept@);
    }
    assert(shown.take(0) =~= Seq::<DirNodeView>::empty());
    while j < kept.len() && !overflow
        invariant
            j <= kept@.len(),
            overflow ==> size_sum(shown) > u64::MAX,
            shown == views(kept@),
            shown.len() == kept@.len(),
            forall|k: int| 0 <= k < shown.len() ==> #[trigger] shown[k] == crate::models::dir_node::node_view(kept@[k]),
            size as nat == size_sum(shown.take(j as int)),
        decreases kept@.len() - j + (if overflow { 0int } else { 1int }),
    {
        assert(shown.take(j + 1).drop_last() =~= shown.take(j as int));
        assert(shown.take(j + 1).last() == shown[j as int]);
        proof {
            lemma_size_sum_prefix(shown, j + 1);
        }
        match size.checked_add(kept[j].size) {
            Some(v) => {
                size = v;
                j = j + 1;
            },
            None => {
                overflow = true;
            },
        }
    }
    if overflow {
        return None;
    }
    assert(shown.take(j as int) =~= shown);
    Some(DirNode { name, path, size, children: kept })
}

} // verus!
