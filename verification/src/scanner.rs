use vstd::prelude::*;
use vstd::multiset::Multiset;

verus! {

/// A node in the scanned directory tree of the explorer.
///
/// `size` always represents the total recursive size of the directory
/// (including all descendants), regardless of whether children were tracked.
/// `children` are only populated up to the requested depth, and later on
/// demand.
pub struct DirNode {
    pub name: String,
    /// The directory's path, as displayed.
    pub path: String,
    pub size: u64,
    /// Whether the directory holds subdirectories.
    pub has_children: bool,
    /// Whether `children` lists the subdirectories.
    pub children_loaded: bool,
    /// Whether a scan of the subdirectories is under way.
    pub is_loading: bool,
    pub children: Vec<DirNode>,
}

/// The mathematical value of a [`DirNode`].
#[verifier::ext_equal]
pub struct DirNodeView {
    pub name: Seq<char>,
    pub path: Seq<char>,
    pub size: u64,
    pub has_children: bool,
    pub children_loaded: bool,
    pub is_loading: bool,
    pub children: Seq<DirNodeView>,
}

/// The views of a sequence of nodes, in order.
pub open spec fn views(nodes: Seq<DirNode>) -> Seq<DirNodeView>
    decreases nodes,
{
    if nodes.len() == 0 {
        Seq::empty()
    } else {
        views(nodes.subrange(0, nodes.len() - 1)).push(node_view(nodes[nodes.len() - 1]))
    }
}

/// The view of one node.
pub open spec fn node_view(node: DirNode) -> DirNodeView
    decreases node,
{
    DirNodeView {
        name: node.name@,
        path: node.path@,
        size: node.size,
        has_children: node.has_children,
        children_loaded: node.children_loaded,
        is_loading: node.is_loading,
        children: views(node.children@),
    }
}

/// `views` maps each node to its view, position by position.
pub proof fn lemma_views(nodes: Seq<DirNode>)
    ensures
        views(nodes).len() == nodes.len(),
        forall|i: int| 0 <= i < nodes.len() ==> #[trigger] views(nodes)[i] == node_view(nodes[i]),
    decreases nodes.len(),
{
    if nodes.len() > 0 {
        let init = nodes.subrange(0, nodes.len() - 1);
        lemma_views(init);
        assert forall|i: int| 0 <= i < nodes.len() implies #[trigger] views(nodes)[i] == node_view(nodes[i]) by {
            if i < nodes.len() - 1 {
                assert(init[i] == nodes[i]);
            }
        }
    }
}

/// Two node sequences with the same views position by position have equal views.
pub proof fn lemma_views_ext(a: Seq<DirNode>, b: Seq<DirNodeView>)
    requires
        a.len() == b.len(),
        forall|i: int| 0 <= i < a.len() ==> node_view(#[trigger] a[i]) == b[i],
    ensures
        views(a) == b,
{
    lemma_views(a);
    assert(views(a) =~= b);
}

impl View for DirNode {
    type V = DirNodeView;

    open spec fn view(&self) -> DirNodeView {
        node_view(*self)
    }
}



/// `x` placed into `s` just before the first entry whose size does not exceed
/// its own (at the end when there is none).
pub open spec fn insert_desc(x: DirNodeView, s: Seq<DirNodeView>) -> Seq<DirNodeView>
    decreases s.len(),
{
    if s.len() == 0 || x.size >= s[0].size {
        seq![x] + s
    } else {
        seq![s[0]] + insert_desc(x, s.subrange(1, s.len() as int))
    }
}

/// The stable ordering of `s` by size, largest first, in which every node's
/// own children are ordered the same way.
pub open spec fn sort_views(s: Seq<DirNodeView>) -> Seq<DirNodeView>
    decreases s,
{
    if s.len() == 0 {
        Seq::empty()
    } else {
        insert_desc(sorted_view(s[0]), sort_views(s.subrange(1, s.len() as int)))
    }
}

/// A node whose children, at every depth, are ordered by `sort_views`.
pub open spec fn sorted_view(v: DirNodeView) -> DirNodeView
    decreases v,
{
    DirNodeView { children: sort_views(v.children), ..v }
}

/// The first position in `s` whose size does not exceed `size`.
pub open spec fn insert_position(size: u64, s: Seq<DirNodeView>, pos: int) -> bool {
    &&& 0 <= pos <= s.len()
    &&& forall|k: int| 0 <= k < pos ==> size < #[trigger] s[k].size
    &&& pos < s.len() ==> size >= s[pos].size
}

proof fn lemma_insert_desc(x: DirNodeView, s: Seq<DirNodeView>, pos: int)
    requires
        insert_position(x.size, s, pos),
    ensures
        insert_desc(x, s) == s.insert(pos, x),
    decreases s.len(),
{
    if s.len() == 0 || x.size >= s[0].size {
        assert(pos == 0);
        assert(insert_desc(x, s) =~= s.insert(pos, x));
    } else {
        let rest = s.subrange(1, s.len() as int);
        assert(insert_position(x.size, rest, pos - 1));
        lemma_insert_desc(x, rest, pos - 1);
        assert(insert_desc(x, s) =~= s.insert(pos, x));
    }
}

fn find_insert_position(size: u64, sorted: &Vec<DirNode>) -> (pos: usize)
    ensures
        insert_position(size, views(sorted@), pos as int),
{
    proof { lemma_views(sorted@); }
    let mut j: usize = 0;
    while j < sorted.len() && size < sorted[j].size
        invariant
            j <= sorted.len(),
            views(sorted@).len() == sorted@.len(),
            forall|i: int| 0 <= i < sorted@.len() ==> #[trigger] views(sorted@)[i] == node_view(sorted@[i]),
            forall|k: int| 0 <= k < j ==> size < #[trigger] views(sorted@)[k].size,
        decreases sorted.len() - j,
    {
        j = j + 1;
    }
    j
}

/// Sorts nodes by size, largest first, and does the same to the children of
/// every node, at every depth. Nodes of equal size keep their order.
pub fn sort_recursive(nodes: &mut Vec<DirNode>)
    ensures
        views(final(nodes)@) == sort_views(views(old(nodes)@)),
    decreases old(nodes)@,
{
    let ghost orig = nodes@;
    let mut result: Vec<DirNode> = Vec::new();
    proof { lemma_views(orig); }
    while nodes.len() > 0
        invariant
            orig == old(nodes)@,
            nodes@ == orig.subrange(0, nodes@.len() as int),
            nodes@.len() <= orig.len(),
            views(orig).len() == orig.len(),
            forall|i: int| 0 <= i < orig.len() ==> #[trigger] views(orig)[i] == node_view(orig[i]),
            views(result@) == sort_views(views(orig).subrange(nodes@.len() as int, orig.len() as int)),
        decreases nodes@.len(),
    {
        let ghost k = nodes@.len() - 1;
        let mut x = nodes.pop().unwrap();
        assert(x == orig[k]);
        proof {
            assert(decreases_to!(orig => orig[k]));
            assert(decreases_to!(orig[k] => orig[k].children));
            assert(decreases_to!(orig[k].children => orig[k].children@));
            assert(decreases_to!(orig => orig[k].children@));
        }
        sort_recursive(&mut x.children);
        assert(node_view(x) == sorted_view(node_view(orig[k])));
        let pos = find_insert_position(x.size, &result);
        proof {
            lemma_views(result@);
            lemma_insert_desc(node_view(x), views(result@), pos as int);
        }
        let ghost before = result@;
        result.insert(pos, x);
        proof {
            lemma_views(before);
            let target = views(before).insert(pos as int, node_view(x));
            assert forall|i: int| 0 <= i < result@.len() implies node_view(#[trigger] result@[i]) == target[i] by {
                if i < pos {
                    assert(result@[i] == before[i]);
                } else if i > pos {
                    assert(result@[i] == before[i - 1]);
                }
            }
            lemma_views_ext(result@, target);
            let vo = views(orig);
            let tail = vo.subrange(k, orig.len() as int);
            assert(tail[0] == vo[k]);
            assert(tail.subrange(1, tail.len() as int) =~= vo.subrange(k + 1, orig.len() as int));
        }
    }
    assert(views(orig).subrange(0, orig.len() as int) =~= views(orig));
    *nodes = result;
}

// ---------------------------------------------------------------------------
// What ordering promises
// ---------------------------------------------------------------------------

/// Sizes do not grow along the sequence.
pub open spec fn sorted_desc(s: Seq<DirNodeView>) -> bool {
    forall|i: int, j: int| 0 <= i < j < s.len() ==> s[i].size >= s[j].size
}

/// Every level of the forest is ordered by size, largest first.
pub open spec fn tree_sorted(s: Seq<DirNodeView>) -> bool
    decreases s,
{
    &&& sorted_desc(s)
    &&& forall|i: int| 0 <= i < s.len() ==> tree_sorted(#[trigger] s[i].children)
}

proof fn lemma_insert_desc_multiset(x: DirNodeView, s: Seq<DirNodeView>)
    ensures
        insert_desc(x, s).to_multiset() == s.to_multiset().insert(x),
        insert_desc(x, s).len() == s.len() + 1,
    decreases s.len(),
{
    broadcast use vstd::seq_lib::group_to_multiset_ensures;
    if s.len() == 0 || x.size >= s[0].size {
        assert(seq![x] + s =~= s.insert(0, x));
    } else {
        let rest = s.subrange(1, s.len() as int);
        lemma_insert_desc_multiset(x, rest);
        assert(s =~= seq![s[0]] + rest);
        vstd::seq_lib::lemma_multiset_commutative(seq![s[0]], insert_desc(x, rest));
        vstd::seq_lib::lemma_multiset_commutative(seq![s[0]], rest);
        assert(seq![s[0]].to_multiset() =~= Multiset::empty().insert(s[0]));
        assert(s.to_multiset().insert(x) =~= seq![s[0]].to_multiset().add(rest.to_multiset().insert(x)));
    }
}

proof fn lemma_insert_desc_sorted(x: DirNodeView, s: Seq<DirNodeView>)
    requires
        sorted_desc(s),
    ensures
        sorted_desc(insert_desc(x, s)),
        forall|k: int| 0 <= k < insert_desc(x, s).len() ==> (#[trigger] insert_desc(x, s)[k] == x || s.contains(insert_desc(x, s)[k])),
    decreases s.len(),
{
    lemma_insert_desc_multiset(x, s);
    if s.len() == 0 || x.size >= s[0].size {
        let r = seq![x] + s;
        assert forall|i: int, j: int| 0 <= i < j < r.len() implies r[i].size >= r[j].size by {
            if i > 0 {
                assert(r[i] == s[i - 1] && r[j] == s[j - 1]);
            } else {
                assert(r[j] == s[j - 1]);
                assert(s[0].size >= s[j - 1].size || j == 1);
            }
        }
        assert forall|k: int| 0 <= k < r.len() implies (#[trigger] r[k] == x || s.contains(r[k])) by {
            if k > 0 {
                assert(r[k] == s[k - 1]);
            }
        }
    } else {
        let rest = s.subrange(1, s.len() as int);
        assert(sorted_desc(rest));
        lemma_insert_desc_sorted(x, rest);
        let t = insert_desc(x, rest);
        let r = seq![s[0]] + t;
        assert forall|k: int| 0 <= k < t.len() implies s[0].size >= #[trigger] t[k].size by {
            if t[k] == x {
            } else {
                let m = choose|m: int| 0 <= m < rest.len() && rest[m] == t[k];
                assert(rest[m] == s[m + 1]);
            }
        }
        assert forall|i: int, j: int| 0 <= i < j < r.len() implies r[i].size >= r[j].size by {
            if i > 0 {
                assert(r[i] == t[i - 1] && r[j] == t[j - 1]);
            } else {
                assert(r[j] == t[j - 1]);
            }
        }
        assert forall|k: int| 0 <= k < r.len() implies (#[trigger] r[k] == x || s.contains(r[k])) by {
            if k == 0 {
                assert(s[0] == r[0]);
            } else {
                assert(r[k] == t[k - 1]);
                if t[k - 1] != x {
                    let m = choose|m: int| 0 <= m < rest.len() && rest[m] == t[k - 1];
                    assert(s[m + 1] == r[k]);
                }
            }
        }
    }
}

/// Ordering keeps every node: the result holds the nodes of `s`, each with
/// its own children ordered, each exactly as often as before.
pub proof fn lemma_sort_permutes(s: Seq<DirNodeView>)
    ensures
        sort_views(s).to_multiset() == s.map_values(|v: DirNodeView| sorted_view(v)).to_multiset(),
        sort_views(s).len() == s.len(),
    decreases s.len(),
{
    broadcast use vstd::seq_lib::group_to_multiset_ensures;
    if s.len() > 0 {
        let rest = s.subrange(1, s.len() as int);
        lemma_sort_permutes(rest);
        lemma_insert_desc_multiset(sorted_view(s[0]), sort_views(rest));
        let m = s.map_values(|v: DirNodeView| sorted_view(v));
        let mr = rest.map_values(|v: DirNodeView| sorted_view(v));
        assert(m =~= seq![sorted_view(s[0])] + mr);
        vstd::seq_lib::lemma_multiset_commutative(seq![sorted_view(s[0])], mr);
        assert(seq![sorted_view(s[0])].to_multiset() =~= Multiset::empty().insert(sorted_view(s[0])));
        assert(m.to_multiset() =~= mr.to_multiset().insert(sorted_view(s[0])));
    } else {
        assert(s.map_values(|v: DirNodeView| sorted_view(v)) =~= Seq::<DirNodeView>::empty());
    }
}

/// Ordering orders every level: the result, and the children of every node
/// in it at every depth, go from the largest size to the smallest.
pub proof fn lemma_sort_orders(s: Seq<DirNodeView>)
    ensures
        tree_sorted(sort_views(s)),
    decreases s,
{
    if s.len() > 0 {
        let rest = s.subrange(1, s.len() as int);
        assert(decreases_to!(s => rest));
        lemma_sort_orders(rest);
        lemma_insert_desc_sorted(sorted_view(s[0]), sort_views(rest));
        lemma_sort_in(s);
        let r = sort_views(s);
        assert forall|i: int| 0 <= i < r.len() implies tree_sorted(#[trigger] r[i].children) by {
            let j = choose|j: int| 0 <= j < s.len() && r[i] == sorted_view(s[j]);
            assert(decreases_to!(s => s[j]));
            assert(decreases_to!(s[j] => s[j].children));
            lemma_sort_orders(s[j].children);
        }
    }
}

/// Every node of the result is one of `s`'s nodes with its children ordered.
proof fn lemma_sort_in(s: Seq<DirNodeView>)
    ensures
        forall|i: int| 0 <= i < sort_views(s).len() ==> exists|j: int| 0 <= j < s.len() && #[trigger] sort_views(s)[i] == sorted_view(s[j]),
    decreases s.len(),
{
    lemma_sort_permutes(s);
    let r = sort_views(s);
    let m = s.map_values(|v: DirNodeView| sorted_view(v));
    assert forall|i: int| 0 <= i < r.len() implies exists|j: int| 0 <= j < s.len() && #[trigger] r[i] == sorted_view(s[j]) by {
        broadcast use vstd::seq_lib::group_to_multiset_ensures;
        assert(r.to_multiset().count(r[i]) > 0);
        assert(m.contains(r[i]));
        let j = choose|j: int| 0 <= j < m.len() && m[j] == r[i];
        assert(m[j] == sorted_view(s[j]));
    }
}

/// A forest whose every level is ordered is left as it is.
pub proof fn lemma_sort_keeps_sorted(s: Seq<DirNodeView>)
    requires
        tree_sorted(s),
    ensures
        sort_views(s) == s,
    decreases s,
{
    if s.len() > 0 {
        let rest = s.subrange(1, s.len() as int);
        assert(tree_sorted(rest)) by {
            assert forall|i: int| 0 <= i < rest.len() implies tree_sorted(#[trigger] rest[i].children) by {
                assert(rest[i] == s[i + 1]);
            }
        }
        assert(decreases_to!(s => rest));
        lemma_sort_keeps_sorted(rest);
        assert(decreases_to!(s => s[0]));
        assert(decreases_to!(s[0] => s[0].children));
        assert(tree_sorted(s[0].children));
        lemma_sort_keeps_sorted(s[0].children);
        assert(sorted_view(s[0]) =~= s[0]);
        if rest.len() > 0 {
            assert(rest[0] == s[1]);
        }
        assert(seq![s[0]] + rest =~= s);
    }
}

/// Ordering twice orders as once.
pub proof fn lemma_sort_idempotent(s: Seq<DirNodeView>)
    ensures
        sort_views(sort_views(s)) == sort_views(s),
{
    lemma_sort_orders(s);
    lemma_sort_keeps_sorted(sort_views(s));
}

} // verus!

verus! {

/// What the scan of a directory found in one of its entries.
pub enum ScanEntry {
    /// A file of `len` bytes.
    File { len: u64 },
    /// A subdirectory scanned as a node of its own.
    Subdir { node: DirNode },
    /// A subdirectory below the tracked depth, of `size` bytes in all.
    DeepDir { size: u64 },
}

/// The bytes that an entry adds to its directory.
pub open spec fn entry_size(e: ScanEntry) -> nat {
    match e {
        ScanEntry::File { len } => len as nat,
        ScanEntry::Subdir { node } => node.size as nat,
        ScanEntry::DeepDir { size } => size as nat,
    }
}

/// The bytes that all the entries add up to.
pub open spec fn entries_total(entries: Seq<ScanEntry>) -> nat
    decreases entries.len(),
{
    if entries.len() == 0 {
        0
    } else {
        entries_total(entries.drop_last()) + entry_size(entries.last())
    }
}

/// The subdirectories scanned as nodes, in order.
pub open spec fn tracked_nodes(entries: Seq<ScanEntry>) -> Seq<DirNode>
    decreases entries.len(),
{
    if entries.len() == 0 {
        Seq::empty()
    } else {
        let init = tracked_nodes(entries.drop_last());
        match entries.last() {
            ScanEntry::Subdir { node } => init.push(node),
            _ => init,
        }
    }
}

/// Whether the entries agree with the depth rule: subdirectories are scanned
/// as nodes exactly while the current depth is below the maximum depth.
pub open spec fn entries_follow_depth(entries: Seq<ScanEntry>, current_depth: usize, max_depth: usize) -> bool {
    forall|i: int| 0 <= i < entries.len() ==> match #[trigger] entries[i] {
        ScanEntry::Subdir { .. } => current_depth < max_depth,
        ScanEntry::DeepDir { .. } => current_depth >= max_depth,
        ScanEntry::File { .. } => true,
    }
}

/// Whether a directory at `current_depth` has its subdirectories scanned as
/// child nodes (otherwise only their total size is counted).
pub fn tracks_children(current_depth: usize, max_depth: usize) -> (b: bool)
    ensures
        b == (current_depth < max_depth),
{
    current_depth < max_depth
}

/// Whether an entry is a subdirectory.
pub open spec fn is_dir_entry(e: ScanEntry) -> bool {
    !(e is File)
}

/// The node of a scanned directory. For a directory whose listing could be
/// read, it is built from what the entries hold: its size is the total of all
/// the entries, its children the subdirectories scanned as nodes; it has
/// children when any entry is a subdirectory, and they count as loaded unless
/// the subdirectories lie below the tracked depth; `None` when the total does
/// not fit in 64 bits. A directory that could not be read (`listing` is
/// `None`) gives an empty node whose children are not loaded.
pub fn scan_tree(
    name: String,
    path: String,
    current_depth: usize,
    max_depth: usize,
    listing: Option<Vec<ScanEntry>>,
) -> (res: Option<DirNode>)
    requires
        listing matches Some(entries) ==> entries_follow_depth(entries@, current_depth, max_depth),
    ensures
        match listing {
            None => res matches Some(node) && {
                &&& node.name@ == name@
                &&& node.path@ == path@
                &&& node.size == 0
                &&& node.children@.len() == 0
                &&& !node.has_children
                &&& !node.children_loaded
                &&& !node.is_loading
            },
            Some(entries) => {
                &&& res is None <==> entries_total(entries@) > u64::MAX
                &&& res matches Some(node) ==> {
                    &&& node.name@ == name@
                    &&& node.path@ == path@
                    &&& node.size as nat == entries_total(entries@)
                    &&& node.children@ == tracked_nodes(entries@)
                    &&& node.has_children == exists|i: int| 0 <= i < entries@.len() && is_dir_entry(#[trigger] entries@[i])
                    &&& node.children_loaded == (!node.has_children || current_depth < max_depth)
                    &&& !node.is_loading
                }
            },
        },
{
    match listing {
        None => Some(DirNode {
            name,
            path,
            size: 0,
            has_children: false,
            children_loaded: false,
            is_loading: false,
            children: Vec::new(),
        }),
        Some(entries) => node_of_entries(name, path, current_depth, max_depth, entries),
    }
}

fn node_of_entries(
    name: String,
    path: String,
    current_depth: usize,
    max_depth: usize,
    entries: Vec<ScanEntry>,
) -> (res: Option<DirNode>)
    requires
        entries_follow_depth(entries@, current_depth, max_depth),
    ensures
        res is None <==> entries_total(entries@) > u64::MAX,
        res matches Some(node) ==> {
            &&& node.name@ == name@
            &&& node.path@ == path@
            &&& node.size as nat == entries_total(entries@)
            &&& node.children@ == tracked_nodes(entries@)
            &&& node.has_children == exists|i: int| 0 <= i < entries@.len() && is_dir_entry(#[trigger] entries@[i])
            &&& node.children_loaded == (!node.has_children || current_depth < max_depth)
            &&& !node.is_loading
        },
{
    let mut size: u64 = 0;
    let mut has_children = false;
    let mut children: Vec<DirNode> = Vec::new();
    let ghost all = entries@;
    // Walk the entries front to back, as the directory listing gives them.
    let mut pending = crate::text::reversed(entries);
    let n = pending.len();
    let mut i: usize = 0;
    while i < n
        invariant
            pending@.len() == n - i,
            n == all.len(),
            all == entries@,
            i <= n,
            forall|k: int| 0 <= k < n - i ==> #[trigger] pending@[k] == all[n - 1 - k],
            size as nat == entries_total(all.subrange(0, i as int)),
            children@ == tracked_nodes(all.subrange(0, i as int)),
            has_children == exists|k: int| 0 <= k < i && is_dir_entry(#[trigger] all[k]),
        decreases n - i,
    {
        let e = pending.pop().unwrap();
        let ghost pre = all.subrange(0, i as int);
        let ghost post = all.subrange(0, i + 1);
        assert(e == all[i as int]);
        assert(post.drop_last() =~= pre);
        assert(post.last() == all[i as int]);
        assert(entries_total(post) == entries_total(pre) + entry_size(all[i as int]));
        let add: u64 = match &e {
            ScanEntry::File { len } => *len,
            ScanEntry::Subdir { node } => node.size,
            ScanEntry::DeepDir { size } => *size,
        };
        assert(add as nat == entry_size(e));
        match size.checked_add(add) {
            Some(s) => { size = s; },
            None => {
                proof {
                    lemma_entries_total_prefix(all, i + 1);
                    assert(size + add > u64::MAX);
                    assert(entries_total(post) > u64::MAX);
                    assert(entries_total(all) > u64::MAX);
                }
                return None;
            },
        }
        match e {
            ScanEntry::Subdir { node } => { children.push(node); has_children = true; },
            ScanEntry::DeepDir { .. } => { has_children = true; },
            ScanEntry::File { .. } => {},
        }
        i = i + 1;
    }
    assert(all.subrange(0, n as int) =~= all);
    let children_loaded = !has_children || current_depth < max_depth;
    Some(DirNode { name, path, size, has_children, children_loaded, is_loading: false, children })
}

proof fn lemma_entries_total_prefix(all: Seq<ScanEntry>, k: int)
    requires
        0 <= k <= all.len(),
    ensures
        entries_total(all.subrange(0, k)) <= entries_total(all),
    decreases all.len() - k,
{
    if k < all.len() {
        lemma_entries_total_prefix(all, k + 1);
        assert(all.subrange(0, k + 1).drop_last() =~= all.subrange(0, k));
    } else {
        assert(all.subrange(0, k) =~= all);
    }
}

/// The subfolders that a background scan found for a folder of the explorer.
pub struct ScanResult {
    pub target_idx: usize,
    pub node_path: Vec<usize>,
    pub children: Vec<DirNode>,
}

} // verus!
