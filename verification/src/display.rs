use vstd::prelude::*;
use crate::scanner::{DirNode, DirNodeView, ScanResult, views, node_view, lemma_views};
use ratatui::layout::{Constraint, Layout};
use crate::text::push_char;
use crate::chars::Chars;

pub mod rows;

verus! {

// ---------------------------------------------------------------------------
// The explorer's data
// ---------------------------------------------------------------------------

/// One scanned root: how it is shown, its top-level folders and their total.
pub struct ScanTarget {
    pub root_display: String,
    pub nodes: Vec<DirNode>,
    pub total_size: u64,
}

/// The mathematical value of a [`ScanTarget`].
#[verifier::ext_equal]
pub struct TargetView {
    pub root_display: Seq<char>,
    pub nodes: Seq<DirNodeView>,
    pub total_size: u64,
}

pub open spec fn target_view(t: ScanTarget) -> TargetView {
    TargetView { root_display: t.root_display@, nodes: views(t.nodes@), total_size: t.total_size }
}

pub open spec fn target_views(ts: Seq<ScanTarget>) -> Seq<TargetView> {
    ts.map_values(|t: ScanTarget| target_view(t))
}

/// A rectangle of terminal cells.
#[derive(Clone, Copy, Debug, PartialEq, Eq, Structural)]
pub struct Rect {
    pub x: u16,
    pub y: u16,
    pub width: u16,
    pub height: u16,
}

/// Where the last frame put the explorer's panes.
#[derive(Clone, Copy, Debug, PartialEq, Eq, Structural)]
pub struct LayoutCache {
    pub drawers_area: Rect,
    pub details_area: Rect,
    pub help_area: Rect,
    pub divider_x: u16,
    pub drawer_rows: usize,
}

impl LayoutCache {
    /// The layout before the first frame: everything empty.
    pub open spec fn empty_spec() -> LayoutCache {
        LayoutCache {
            drawers_area: Rect { x: 0, y: 0, width: 0, height: 0 },
            details_area: Rect { x: 0, y: 0, width: 0, height: 0 },
            help_area: Rect { x: 0, y: 0, width: 0, height: 0 },
            divider_x: 0,
            drawer_rows: 0,
        }
    }

    /// The layout before the first frame: everything empty.
    pub fn empty() -> (l: LayoutCache)
        ensures
            l == LayoutCache::empty_spec(),
    {
        let z = Rect { x: 0, y: 0, width: 0, height: 0 };
        LayoutCache { drawers_area: z, details_area: z, help_area: z, divider_x: 0, drawer_rows: 0 }
    }
}

/// What a row of the drawer list stands for.
pub enum ItemKind {
    /// A scanned root, by its index.
    Target(usize),
    /// A folder: its root's index and the indices that lead to it.
    Node { target_idx: usize, node_path: Vec<usize> },
}

/// A row of the drawer list.
pub struct VisibleItem {
    pub key: String,
    pub title: String,
    pub depth: usize,
    pub expandable: bool,
    pub expanded: bool,
    pub is_loading: bool,
    pub kind: ItemKind,
}

/// The mathematical value of an [`ItemKind`].
pub enum KindView {
    Target(int),
    Node(int, Seq<int>),
}

/// The mathematical value of a [`VisibleItem`].
#[verifier::ext_equal]
pub struct ItemView {
    pub key: Seq<char>,
    pub title: Seq<char>,
    pub depth: nat,
    pub expandable: bool,
    pub expanded: bool,
    pub is_loading: bool,
    pub kind: KindView,
}

pub open spec fn kind_view(k: ItemKind) -> KindView {
    match k {
        ItemKind::Target(t) => KindView::Target(t as int),
        ItemKind::Node { target_idx, node_path } => KindView::Node(target_idx as int, ipath(node_path@)),
    }
}

pub open spec fn item_view(i: VisibleItem) -> ItemView {
    ItemView {
        key: i.key@,
        title: i.title@,
        depth: i.depth as nat,
        expandable: i.expandable,
        expanded: i.expanded,
        is_loading: i.is_loading,
        kind: kind_view(i.kind),
    }
}

pub open spec fn item_views(items: Seq<VisibleItem>) -> Seq<ItemView> {
    items.map_values(|i: VisibleItem| item_view(i))
}

/// A request to scan the subfolders of a folder in the background.
pub struct LoadRequest {
    pub target_idx: usize,
    pub node_path: Vec<usize>,
    pub dir_path: String,
}

/// The mathematical value of a [`LoadRequest`].
pub struct LoadView {
    pub target_idx: int,
    pub node_path: Seq<int>,
    pub dir_path: Seq<char>,
}

pub open spec fn load_views(r: Seq<LoadRequest>) -> Seq<LoadView> {
    r.map_values(|l: LoadRequest| LoadView { target_idx: l.target_idx as int, node_path: ipath(l.node_path@), dir_path: l.dir_path@ })
}

// ---------------------------------------------------------------------------
// Keys and paths
// ---------------------------------------------------------------------------

/// The key under which a root's expansion is remembered.
pub open spec fn root_key_of(root_display: Seq<char>) -> Seq<char> {
    "root::"@ + root_display
}

/// The key under which a folder's expansion is remembered.
pub open spec fn node_key_of(node: DirNodeView) -> Seq<char> {
    "node::"@ + node.path
}

/// The key of a root: `root::<display>`.
pub fn root_key(root_display: &str) -> (k: String)
    ensures
        k@ == root_key_of(root_display@),
{
    let mut k = String::from_str("root::");
    k.append(root_display);
    k
}

/// The key of a folder: `node::<path>`.
pub fn node_key(node: &DirNode) -> (k: String)
    ensures
        k@ == node_key_of(node_view(*node)),
{
    let mut k = String::from_str("node::");
    k.append(node.path.as_str());
    k
}

/// A path of indices as mathematical integers.
pub open spec fn ipath(p: Seq<usize>) -> Seq<int> {
    p.map_values(|x: usize| x as int)
}

/// `path` leads through `nodes`: each index picks a node, and each further
/// index one of that node's children.
pub open spec fn path_ok(nodes: Seq<DirNodeView>, path: Seq<int>) -> bool
    decreases path.len(),
{
    &&& path.len() > 0
    &&& 0 <= path[0] < nodes.len()
    &&& path.len() > 1 ==> path_ok(nodes[path[0]].children, path.skip(1))
}

/// The node that `path` leads to.
pub open spec fn at_path(nodes: Seq<DirNodeView>, path: Seq<int>) -> DirNodeView
    decreases path.len(),
{
    if path.len() <= 1 {
        nodes[path[0]]
    } else {
        at_path(nodes[path[0]].children, path.skip(1))
    }
}

/// `nodes` with the node that `path` leads to replaced by `new`.
pub open spec fn replaced_at(nodes: Seq<DirNodeView>, path: Seq<int>, new: DirNodeView) -> Seq<DirNodeView>
    decreases path.len(),
{
    if path.len() <= 1 {
        nodes.update(path[0], new)
    } else {
        let p = nodes[path[0]];
        nodes.update(path[0], DirNodeView { children: replaced_at(p.children, path.skip(1), new), ..p })
    }
}

pub broadcast proof fn lemma_views_update(s: Seq<DirNode>, h: int, x: DirNode)
    requires
        0 <= h < s.len(),
    ensures
        #[trigger] views(s.update(h, x)) == views(s).update(h, node_view(x)),
{
    lemma_views(s);
    lemma_views(s.update(h, x));
    assert(views(s.update(h, x)) =~= views(s).update(h, node_view(x)));
}

/// The node that `node_path` leads to, for changing it in place.
pub fn node_at_path_mut<'a>(nodes: &'a mut Vec<DirNode>, node_path: &[usize]) -> (r: &'a mut DirNode)
    requires
        path_ok(views(old(nodes)@), ipath(node_path@)),
    ensures
        node_view(*r) == at_path(views(old(nodes)@), ipath(node_path@)),
        views(final(nodes)@) == replaced_at(views(old(nodes)@), ipath(node_path@), node_view(*final(r))),
    decreases node_path@.len(),
{
    broadcast use lemma_views_update;

    proof {
        lemma_views(old(nodes)@);
    }
    let head = node_path[0];
    let node = &mut nodes[head];
    if node_path.len() == 1 {
        node
    } else {
        let tail = vstd::slice::slice_subrange(node_path, 1, node_path.len());
        assert(ipath(tail@) =~= ipath(node_path@).skip(1));
        node_at_path_mut(&mut node.children, tail)
    }
}

// ---------------------------------------------------------------------------
// The explorer's state
// ---------------------------------------------------------------------------

/// The interactive explorer: the scanned roots, which drawers are open, the
/// selection and the panes.
pub struct App {
    pub targets: Vec<ScanTarget>,
    /// The keys of the open drawers, each once.
    pub expanded: Vec<String>,
    pub selected: usize,
    pub should_quit: bool,
    pub min_bytes: u64,
    /// The drawers pane's share of the width, in percent.
    pub pane_ratio: u16,
    pub drawer_scroll: usize,
    pub show_help: bool,
    pub status_message: String,
    pub resizing: bool,
    pub layout: LayoutCache,
}

/// The mathematical value of an [`App`].
#[verifier::ext_equal]
pub struct AppView {
    pub targets: Seq<TargetView>,
    pub expanded: Set<Seq<char>>,
    pub selected: usize,
    pub should_quit: bool,
    pub min_bytes: u64,
    pub pane_ratio: u16,
    pub drawer_scroll: usize,
    pub show_help: bool,
    pub status: Seq<char>,
    pub resizing: bool,
    pub layout: LayoutCache,
}

/// The keys that a list of strings holds.
pub open spec fn key_set(v: Seq<String>) -> Set<Seq<char>> {
    Set::new(|k: Seq<char>| exists|i: int| 0 <= i < v.len() && #[trigger] v[i]@ == k)
}

/// No key occurs twice.
pub open spec fn distinct_keys(v: Seq<String>) -> bool {
    forall|i: int, j: int| 0 <= i < v.len() && 0 <= j < v.len() && i != j ==> #[trigger] v[i]@ != #[trigger] v[j]@
}

impl View for App {
    type V = AppView;

    open spec fn view(&self) -> AppView {
        AppView {
            targets: target_views(self.targets@),
            expanded: key_set(self.expanded@),
            selected: self.selected,
            should_quit: self.should_quit,
            min_bytes: self.min_bytes,
            pane_ratio: self.pane_ratio,
            drawer_scroll: self.drawer_scroll,
            show_help: self.show_help,
            status: self.status_message@,
            resizing: self.resizing,
            layout: self.layout,
        }
    }
}

impl App {
    /// The explorer's invariant: each open drawer is listed once, and the
    /// drawers pane takes between 25% and 65% of the width.
    pub open spec fn wf(&self) -> bool {
        &&& distinct_keys(self.expanded@)
        &&& 25 <= self.pane_ratio <= 65
    }
}

fn contains_key(v: &Vec<String>, k: &String) -> (r: bool)
    ensures
        r == key_set(v@).contains(k@),
{
    let mut i: usize = 0;
    while i < v.len()
        invariant
            i <= v@.len(),
            forall|j: int| 0 <= j < i ==> #[trigger] v@[j]@ != k@,
        decreases v@.len() - i,
    {
        if v[i] == *k {
            assert(key_set(v@).contains(k@)) by {
                assert(v@[i as int]@ == k@);
            }
            return true;
        }
        i = i + 1;
    }
    false
}

fn insert_key(v: &mut Vec<String>, k: String) -> (inserted: bool)
    requires
        distinct_keys(old(v)@),
    ensures
        distinct_keys(final(v)@),
        key_set(final(v)@) == key_set(old(v)@).insert(k@),
        inserted == !key_set(old(v)@).contains(k@),
{
    if contains_key(v, &k) {
        assert(key_set(old(v)@).insert(k@) =~= key_set(old(v)@));
        false
    } else {
        let ghost kv = k@;
        v.push(k);
        assert(key_set(v@) =~= key_set(old(v)@).insert(kv)) by {
            assert forall|x: Seq<char>| key_set(old(v)@).insert(kv).contains(x) implies key_set(v@).contains(x) by {
                if x == kv {
                    assert(v@[v@.len() - 1]@ == kv);
                } else {
                    let i = choose|i: int| 0 <= i < old(v)@.len() && #[trigger] old(v)@[i]@ == x;
                    assert(v@[i]@ == x);
                }
            }
            assert forall|x: Seq<char>| key_set(v@).contains(x) implies key_set(old(v)@).insert(kv).contains(x) by {
                let i = choose|i: int| 0 <= i < v@.len() && #[trigger] v@[i]@ == x;
                if i < old(v)@.len() {
                    assert(old(v)@[i]@ == x);
                }
            }
        }
        assert forall|i: int, j: int| 0 <= i < v@.len() && 0 <= j < v@.len() && i != j implies #[trigger] v@[i]@
            != #[trigger] v@[j]@ by {
            if i == v@.len() - 1 {
                assert(old(v)@[j]@ == v@[j]@);
            } else if j == v@.len() - 1 {
                assert(old(v)@[i]@ == v@[i]@);
            } else {
                assert(old(v)@[i]@ == v@[i]@);
                assert(old(v)@[j]@ == v@[j]@);
            }
        }
        true
    }
}

fn remove_key(v: &mut Vec<String>, k: &String)
    requires
        distinct_keys(old(v)@),
    ensures
        distinct_keys(final(v)@),
        key_set(final(v)@) == key_set(old(v)@).remove(k@),
{
    let mut i: usize = 0;
    while i < v.len()
        invariant
            i <= v@.len(),
            v@ == old(v)@,
            distinct_keys(old(v)@),
            forall|j: int| 0 <= j < i ==> #[trigger] v@[j]@ != k@,
        decreases v@.len() - i,
    {
        if v[i] == *k {
            let ghost before = v@;
            v.remove(i);
            assert(key_set(v@) =~= key_set(before).remove(k@)) by {
                assert forall|x: Seq<char>| key_set(before).remove(k@).contains(x) implies key_set(v@).contains(x) by {
                    let j = choose|j: int| 0 <= j < before.len() && #[trigger] before[j]@ == x;
                    if j < i {
                        assert(v@[j]@ == x);
                    } else {
                        assert(j != i);
                        assert(v@[j - 1]@ == x);
                    }
                }
                assert forall|x: Seq<char>| key_set(v@).contains(x) implies key_set(before).remove(k@).contains(x) by {
                    let j = choose|j: int| 0 <= j < v@.len() && #[trigger] v@[j]@ == x;
                    if j < i {
                        assert(before[j]@ == x);
                    } else {
                        assert(before[j + 1]@ == x);
                        assert(before[i as int]@ == k@);
                    }
                }
            }
            assert forall|a: int, b: int| 0 <= a < v@.len() && 0 <= b < v@.len() && a != b implies #[trigger] v@[a]@
                != #[trigger] v@[b]@ by {
                let a2 = if a < i { a } else { a + 1 };
                let b2 = if b < i { b } else { b + 1 };
                assert(v@[a] == before[a2]);
                assert(v@[b] == before[b2]);
            }
            return;
        }
        i = i + 1;
    }
    assert(key_set(v@) =~= key_set(old(v)@).remove(k@));
}

// ---------------------------------------------------------------------------
// The drawer list
// ---------------------------------------------------------------------------

/// One more level of depth, stopping at the largest `usize`.
pub open spec fn sat_inc(d: nat) -> nat {
    if d < usize::MAX {
        d + 1
    } else {
        d
    }
}

/// The drawer rows for the folders `nodes[i..]` of root `t`, under the
/// folder at `parent`: each folder of at least `min` bytes, followed, when
/// its drawer is open, by the rows of its children one level deeper.
pub open spec fn node_items(
    exp: Set<Seq<char>>,
    min: u64,
    t: int,
    nodes: Seq<DirNodeView>,
    i: int,
    parent: Seq<int>,
    depth: nat,
) -> Seq<ItemView>
    decreases nodes, nodes.len() - i,
{
    if i < 0 || i >= nodes.len() {
        Seq::empty()
    } else if nodes[i].size < min {
        node_items(exp, min, t, nodes, i + 1, parent, depth)
    } else {
        let n = nodes[i];
        let key = node_key_of(n);
        let open = exp.contains(key);
        let path = parent.push(i);
        seq![
            ItemView {
                key,
                title: n.name,
                depth,
                expandable: n.has_children,
                expanded: open,
                is_loading: n.is_loading,
                kind: KindView::Node(t, path),
            },
        ] + (if open {
            node_items(exp, min, t, n.children, 0, path, sat_inc(depth))
        } else {
            Seq::empty()
        }) + node_items(exp, min, t, nodes, i + 1, parent, depth)
    }
}

/// The drawer rows for the roots `ts[t..]`: each root, followed, when its
/// drawer is open, by the rows of its folders.
pub open spec fn target_items(exp: Set<Seq<char>>, min: u64, ts: Seq<TargetView>, t: int) -> Seq<ItemView>
    decreases ts.len() - t,
{
    if t < 0 || t >= ts.len() {
        Seq::empty()
    } else {
        let key = root_key_of(ts[t].root_display);
        let open = exp.contains(key);
        seq![
            ItemView {
                key,
                title: ts[t].root_display,
                depth: 0,
                expandable: ts[t].nodes.len() > 0,
                expanded: open,
                is_loading: false,
                kind: KindView::Target(t),
            },
        ] + (if open {
            node_items(exp, min, t, ts[t].nodes, 0, Seq::empty(), 1)
        } else {
            Seq::empty()
        }) + target_items(exp, min, ts, t + 1)
    }
}

/// The rows of the drawer list in a state.
pub open spec fn items_of(s: AppView) -> Seq<ItemView> {
    target_items(s.expanded, s.min_bytes, s.targets, 0)
}

impl App {
    fn push_nodes(
        &self,
        target_idx: usize,
        nodes: &Vec<DirNode>,
        parent_path: &Vec<usize>,
        depth: usize,
        items: &mut Vec<VisibleItem>,
    )
        ensures
            item_views(final(items)@) == item_views(old(items)@) + node_items(
                key_set(self.expanded@),
                self.min_bytes,
                target_idx as int,
                views(nodes@),
                0,
                ipath(parent_path@),
                depth as nat,
            ),
        decreases nodes@,
    {
        let ghost exp = key_set(self.expanded@);
        let ghost vs = views(nodes@);
        proof {
            lemma_views(nodes@);
        }
        let count = nodes.len();
        let mut index: usize = 0;
        while index < count
            invariant
                count == nodes@.len(),
                index <= count,
                vs == views(nodes@),
                vs.len() == count,
                forall|k: int| 0 <= k < count ==> #[trigger] vs[k] == node_view(nodes@[k]),
                exp == key_set(self.expanded@),
                item_views(items@) + node_items(exp, self.min_bytes, target_idx as int, vs, index as int, ipath(parent_path@), depth as nat)
                    == item_views(old(items)@) + node_items(exp, self.min_bytes, target_idx as int, vs, 0, ipath(parent_path@), depth as nat),
            decreases count - index,
        {
            let node = &nodes[index];
            assert(vs[index as int] == node_view(*node));
            if node.size < self.min_bytes {
                index = index + 1;
                continue;
            }
            let mut node_path = parent_path.clone();
            node_path.push(index);
            let key = node_key(node);
            let expanded = contains_key(&self.expanded, &key);
            let ghost item = ItemView {
                key: key@,
                title: node.name@,
                depth: depth as nat,
                expandable: node.has_children,
                expanded: expanded,
                is_loading: node.is_loading,
                kind: KindView::Node(target_idx as int, ipath(parent_path@).push(index as int)),
            };
            let ghost before = items@;
            items.push(VisibleItem {
                key,
                title: node.name.clone(),
                depth,
                expandable: node.has_children,
                expanded,
                is_loading: node.is_loading,
                kind: ItemKind::Node { target_idx, node_path: node_path.clone() },
            });
            assert(ipath(node_path@) =~= ipath(parent_path@).push(index as int));
            assert(item_views(items@) =~= item_views(before).push(item));
            let ghost mid = items@;
            if expanded {
                proof {
                    assert(decreases_to!(nodes@ => nodes@[index as int]));
                    assert(decreases_to!(nodes@[index as int] => nodes@[index as int].children));
                    assert(decreases_to!(nodes@[index as int].children => nodes@[index as int].children@));
                }
                self.push_nodes(target_idx, &node.children, &node_path, depth.saturating_add(1), items);
                assert(depth.saturating_add(1) as nat == sat_inc(depth as nat));
            }
            assert(node_items(exp, self.min_bytes, target_idx as int, vs, index as int, ipath(parent_path@), depth as nat)
                =~= seq![item] + (if expanded {
                    node_items(exp, self.min_bytes, target_idx as int, vs[index as int].children, 0, ipath(parent_path@).push(index as int), sat_inc(depth as nat))
                } else {
                    Seq::empty()
                }) + node_items(exp, self.min_bytes, target_idx as int, vs, index + 1, ipath(parent_path@), depth as nat));
            index = index + 1;
        }
    }

    /// The rows of the drawer list: every root and, under each open drawer,
    /// the folders of at least `min_bytes` bytes.
    pub fn visible_items(&self) -> (items: Vec<VisibleItem>)
        ensures
            item_views(items@) == items_of(self@),
    {
        let ghost exp = key_set(self.expanded@);
        let ghost ts = target_views(self.targets@);
        let mut items: Vec<VisibleItem> = Vec::new();
        let count = self.targets.len();
        let mut t: usize = 0;
        assert(item_views(items@) =~= Seq::<ItemView>::empty());
        while t < count
            invariant
                count == self.targets@.len(),
                t <= count,
                exp == key_set(self.expanded@),
                ts == target_views(self.targets@),
                item_views(items@) + target_items(exp, self.min_bytes, ts, t as int) == target_items(exp, self.min_bytes, ts, 0),
            decreases count - t,
        {
            let target = &self.targets[t];
            assert(ts[t as int] == target_view(*target));
            let key = root_key(target.root_display.as_str());
            let expanded = contains_key(&self.expanded, &key);
            let ghost item = ItemView {
                key: key@,
                title: target.root_display@,
                depth: 0,
                expandable: target.nodes@.len() > 0,
                expanded: expanded,
                is_loading: false,
                kind: KindView::Target(t as int),
            };
            proof {
                lemma_views(target.nodes@);
            }
            let ghost before = items@;
            items.push(VisibleItem {
                key,
                title: target.root_display.clone(),
                depth: 0,
                expandable: target.nodes.len() != 0,
                expanded,
                is_loading: false,
                kind: ItemKind::Target(t),
            });
            assert(item_views(items@) =~= item_views(before).push(item));
            if expanded {
                let empty: Vec<usize> = Vec::new();
                self.push_nodes(t, &target.nodes, &empty, 1, &mut items);
                assert(ipath(empty@) =~= Seq::<int>::empty());
            }
            assert(target_items(exp, self.min_bytes, ts, t as int) =~= seq![item] + (if expanded {
                node_items(exp, self.min_bytes, t as int, ts[t as int].nodes, 0, Seq::empty(), 1)
            } else {
                Seq::empty()
            }) + target_items(exp, self.min_bytes, ts, t + 1));
            t = t + 1;
        }
        assert(target_items(exp, self.min_bytes, ts, count as int) =~= Seq::<ItemView>::empty());
        items
    }
}

// ---------------------------------------------------------------------------
// Paths into the tree
// ---------------------------------------------------------------------------

pub proof fn lemma_replaced_same(nodes: Seq<DirNodeView>, path: Seq<int>)
    requires
        path_ok(nodes, path),
    ensures
        replaced_at(nodes, path, at_path(nodes, path)) == nodes,
    decreases path.len(),
{
    if path.len() > 1 {
        lemma_replaced_same(nodes[path[0]].children, path.skip(1));
        let p = nodes[path[0]];
        assert(DirNodeView { children: p.children, ..p } == p);
    }
    assert(replaced_at(nodes, path, at_path(nodes, path)) =~= nodes);
}

/// The kind of a row points at a root, or along a path of folders, that exists.
pub open spec fn kind_ok(ts: Seq<TargetView>, k: KindView) -> bool {
    match k {
        KindView::Target(t) => 0 <= t < ts.len(),
        KindView::Node(t, p) => 0 <= t < ts.len() && path_ok(ts[t].nodes, p),
    }
}

pub proof fn lemma_path_concat(nodes: Seq<DirNodeView>, p: Seq<int>, q: Seq<int>)
    requires
        path_ok(nodes, p),
        path_ok(at_path(nodes, p).children, q),
    ensures
        path_ok(nodes, p + q),
        at_path(nodes, p + q) == at_path(at_path(nodes, p).children, q),
    decreases p.len(),
{
    let pq = p + q;
    assert(pq[0] == p[0]);
    if p.len() == 1 {
        assert(pq.skip(1) =~= q);
    } else {
        assert(pq.skip(1) =~= p.skip(1) + q);
        lemma_path_concat(nodes[p[0] as int].children, p.skip(1), q);
    }
}

pub proof fn lemma_path_prefix(nodes: Seq<DirNodeView>, p: Seq<int>)
    requires
        path_ok(nodes, p),
        p.len() > 1,
    ensures
        path_ok(nodes, p.drop_last()),
        path_ok(at_path(nodes, p.drop_last()).children, seq![p.last()]),
        at_path(nodes, p) == at_path(at_path(nodes, p.drop_last()).children, seq![p.last()]),
    decreases p.len(),
{
    let d = p.drop_last();
    assert(d[0] == p[0]);
    if p.len() == 2 {
        assert(p.skip(1) =~= seq![p.last()]);
    } else {
        assert(d.skip(1) =~= p.skip(1).drop_last());
        lemma_path_prefix(nodes[p[0] as int].children, p.skip(1));
        assert(p.skip(1).last() == p.last());
    }
}

/// The rows under `parent` point at folders that exist.
proof fn lemma_node_items_ok(
    exp: Set<Seq<char>>,
    min: u64,
    t: int,
    root: Seq<DirNodeView>,
    nodes: Seq<DirNodeView>,
    i: int,
    parent: Seq<int>,
    depth: nat,
)
    requires
        (parent.len() == 0 && nodes == root) || (path_ok(root, parent) && nodes == at_path(root, parent).children),
    ensures
        forall|k: int| 0 <= k < node_items(exp, min, t, nodes, i, parent, depth).len() ==> {
            let kind = #[trigger] node_items(exp, min, t, nodes, i, parent, depth)[k].kind;
            kind matches KindView::Node(kt, kp) && kt == t && path_ok(root, kp) && at_path(root, kp).size >= min
        },
    decreases nodes, nodes.len() - i,
{
    if 0 <= i < nodes.len() {
        lemma_node_items_ok(exp, min, t, root, nodes, i + 1, parent, depth);
        if nodes[i].size >= min {
            let path = parent.push(i);
            assert(path_ok(root, path)) by {
                if parent.len() == 0 {
                    assert(path.skip(1).len() == 0);
                } else {
                    lemma_path_concat(root, parent, seq![i]);
                    assert(parent + seq![i] =~= path);
                }
            }
            assert(at_path(root, path) == nodes[i]) by {
                if parent.len() == 0 {
                } else {
                    lemma_path_concat(root, parent, seq![i]);
                    assert(parent + seq![i] =~= path);
                }
            }
            let key = node_key_of(nodes[i]);
            if exp.contains(key) {
                assert(decreases_to!(nodes => nodes[i]));
                assert(decreases_to!(nodes[i] => nodes[i].children));
                lemma_node_items_ok(exp, min, t, root, nodes[i].children, 0, path, sat_inc(depth));
            }
            let first = seq![
                ItemView {
                    key,
                    title: nodes[i].name,
                    depth,
                    expandable: nodes[i].has_children,
                    expanded: exp.contains(key),
                    is_loading: nodes[i].is_loading,
                    kind: KindView::Node(t, path),
                },
            ];
            let mid = if exp.contains(key) {
                node_items(exp, min, t, nodes[i].children, 0, path, sat_inc(depth))
            } else {
                Seq::empty()
            };
            let rest = node_items(exp, min, t, nodes, i + 1, parent, depth);
            assert(node_items(exp, min, t, nodes, i, parent, depth) == first + mid + rest);
            assert forall|k: int| 0 <= k < (first + mid + rest).len() implies {
                let kind = #[trigger] (first + mid + rest)[k].kind;
                kind matches KindView::Node(kt, kp) && kt == t && path_ok(root, kp) && at_path(root, kp).size >= min
            } by {
                if k == 0 {
                } else if k < 1 + mid.len() {
                    assert((first + mid + rest)[k] == mid[k - 1]);
                } else {
                    assert((first + mid + rest)[k] == rest[k - 1 - mid.len()]);
                }
            }
        }
    }
}

/// Every row of the drawer list points at a root or a folder that exists.
pub proof fn lemma_items_ok(exp: Set<Seq<char>>, min: u64, ts: Seq<TargetView>, t: int)
    ensures
        forall|k: int| 0 <= k < target_items(exp, min, ts, t).len() ==> kind_ok(ts, #[trigger] target_items(exp, min, ts, t)[k].kind),
        forall|k: int|
            0 <= k < target_items(exp, min, ts, t).len() ==> (#[trigger] target_items(exp, min, ts, t)[k].kind matches KindView::Node(
                kt,
                kp,
            ) ==> at_path(ts[kt].nodes, kp).size >= min),
    decreases ts.len() - t,
{
    if 0 <= t < ts.len() {
        lemma_items_ok(exp, min, ts, t + 1);
        let key = root_key_of(ts[t].root_display);
        lemma_node_items_ok(exp, min, t, ts[t].nodes, ts[t].nodes, 0, Seq::empty(), 1);
        let first = seq![
            ItemView {
                key,
                title: ts[t].root_display,
                depth: 0,
                expandable: ts[t].nodes.len() > 0,
                expanded: exp.contains(key),
                is_loading: false,
                kind: KindView::Target(t),
            },
        ];
        let mid = if exp.contains(key) {
            node_items(exp, min, t, ts[t].nodes, 0, Seq::empty(), 1)
        } else {
            Seq::empty()
        };
        let rest = target_items(exp, min, ts, t + 1);
        assert(target_items(exp, min, ts, t) == first + mid + rest);
        assert forall|k: int| 0 <= k < (first + mid + rest).len() implies kind_ok(ts, #[trigger] (first + mid + rest)[k].kind)
            && ((first + mid + rest)[k].kind matches KindView::Node(kt, kp) ==> at_path(ts[kt].nodes, kp).size >= min) by {
            if k == 0 {
            } else if k < 1 + mid.len() {
                assert((first + mid + rest)[k] == mid[k - 1]);
            } else {
                assert((first + mid + rest)[k] == rest[k - 1 - mid.len()]);
            }
        }
    }
}

// ---------------------------------------------------------------------------
// Loading a folder's children
// ---------------------------------------------------------------------------

/// The state with the folder that a row points at marked as loading, and the
/// request to scan its subfolders, when they are neither loaded nor being
/// loaded; otherwise the state unchanged and no request.
pub open spec fn mark_loading(s: AppView, kind: KindView) -> (AppView, Seq<LoadView>) {
    match kind {
        KindView::Node(t, path) => {
            let n = at_path(s.targets[t].nodes, path);
            if !n.children_loaded && !n.is_loading {
                let tv = s.targets[t];
                let tv2 = TargetView {
                    nodes: replaced_at(tv.nodes, path, DirNodeView { is_loading: true, ..n }),
                    ..tv
                };
                (
                    AppView { targets: s.targets.update(t, tv2), status: "Loading "@ + n.name + "..."@, ..s },
                    seq![LoadView { target_idx: t, node_path: path, dir_path: n.path }],
                )
            } else {
                (s, Seq::empty())
            }
        },
        KindView::Target(_) => (s, Seq::empty()),
    }
}

impl App {
    /// The folder at `node_path` under root `target_idx`.
    pub fn node_at(&self, target_idx: usize, node_path: &Vec<usize>) -> (r: &DirNode)
        requires
            target_idx < self.targets@.len(),
            path_ok(views(self.targets@[target_idx as int].nodes@), ipath(node_path@)),
        ensures
            node_view(*r) == at_path(views(self.targets@[target_idx as int].nodes@), ipath(node_path@)),
    {
        node_at_path(&self.targets[target_idx].nodes, node_path.as_slice())
    }

    /// The folder at `node_path` under root `target_idx`, for changing it in place.
    fn node_at_mut(&mut self, target_idx: usize, node_path: &Vec<usize>) -> (r: &mut DirNode)
        requires
            target_idx < old(self).targets@.len(),
            path_ok(views(old(self).targets@[target_idx as int].nodes@), ipath(node_path@)),
        ensures
            node_view(*r) == at_path(views(old(self).targets@[target_idx as int].nodes@), ipath(node_path@)),
            final(self)@ == (AppView {
                targets: old(self)@.targets.update(
                    target_idx as int,
                    TargetView {
                        nodes: replaced_at(
                            views(old(self).targets@[target_idx as int].nodes@),
                            ipath(node_path@),
                            node_view(*final(r)),
                        ),
                        ..old(self)@.targets[target_idx as int]
                    },
                ),
                ..old(self)@
            }),
            final(self).expanded == old(self).expanded,
            final(self).pane_ratio == old(self).pane_ratio,
    {
        let target = &mut self.targets[target_idx];
        node_at_path_mut(&mut target.nodes, node_path.as_slice())
    }

    /// Marks the folder that a row points at as loading, and asks for its
    /// subfolders to be scanned, when they are neither loaded nor being loaded.
    pub fn ensure_item_loaded(&mut self, kind: &ItemKind, loads: &mut Vec<LoadRequest>)
        requires
            kind_ok(old(self)@.targets, kind_view(*kind)),
        ensures
            final(self)@ == mark_loading(old(self)@, kind_view(*kind)).0,
            load_views(final(loads)@) == load_views(old(loads)@) + mark_loading(old(self)@, kind_view(*kind)).1,
            final(self).expanded == old(self).expanded,
            final(self).pane_ratio == old(self).pane_ratio,
    {
        match kind {
            ItemKind::Node { target_idx, node_path } => {
                let ghost s = self@;
                let (needs_load, node_name, node_path_buf) = {
                    let node = self.node_at_mut(*target_idx, node_path);
                    let needs_load = !node.children_loaded && !node.is_loading;
                    if needs_load {
                        node.is_loading = true;
                    }
                    (needs_load, node.name.clone(), node.path.clone())
                };
                proof {
                    if !needs_load {
                        lemma_replaced_same(s.targets[*target_idx as int].nodes, ipath(node_path@));
                        assert(self@.targets =~= s.targets);
                    }
                }
                if needs_load {
                    let mut status = String::from_str("Loading ");
                    status.append(node_name.as_str());
                    status.append("...");
                    self.status_message = status;
                    let ghost before = loads@;
                    loads.push(LoadRequest { target_idx: *target_idx, node_path: node_path.clone(), dir_path: node_path_buf });
                    assert(load_views(loads@) =~= load_views(before) + mark_loading(s, kind_view(*kind)).1);
                } else {
                    assert(load_views(loads@) =~= load_views(old(loads)@) + mark_loading(s, kind_view(*kind)).1);
                }
            },
            ItemKind::Target(_) => {
                assert(load_views(loads@) =~= load_views(old(loads)@) + mark_loading(self@, kind_view(*kind)).1);
            },
        }
    }
}

// ---------------------------------------------------------------------------
// How the explorer reacts
// ---------------------------------------------------------------------------

/// The row under the selection, if any.
pub open spec fn selected_item(s: AppView) -> Option<ItemView> {
    if s.selected < items_of(s).len() {
        Some(items_of(s)[s.selected as int])
    } else {
        None
    }
}

/// The first row whose key is `key`, or -1.
pub open spec fn first_key_index(items: Seq<ItemView>, key: Seq<char>, from: int) -> int
    decreases items.len() - from,
{
    if from < 0 || from >= items.len() {
        -1
    } else if items[from].key == key {
        from
    } else {
        first_key_index(items, key, from + 1)
    }
}

/// `x` kept within `[lo, hi]`.
pub open spec fn clamp(x: int, lo: int, hi: int) -> int {
    if x < lo {
        lo
    } else if x > hi {
        hi
    } else {
        x
    }
}

/// Toggling the selected drawer: an open one closes; a closed one opens,
/// after asking for its folder's subfolders if they are not loaded.
pub open spec fn toggle_spec(s: AppView) -> (AppView, Seq<LoadView>) {
    match selected_item(s) {
        None => (s, Seq::empty()),
        Some(item) => if !item.expandable {
            (s, Seq::empty())
        } else if s.expanded.contains(item.key) {
            (AppView { expanded: s.expanded.remove(item.key), status: "Collapsed "@ + item.title, ..s }, Seq::empty())
        } else {
            let (s1, r) = mark_loading(s, item.kind);
            (AppView { expanded: s1.expanded.insert(item.key), status: "Expanded "@ + item.title, ..s1 }, r)
        },
    }
}

/// Opening the selected drawer, after asking for its folder's subfolders if
/// they are not loaded.
pub open spec fn expand_spec(s: AppView) -> (AppView, Seq<LoadView>) {
    match selected_item(s) {
        None => (s, Seq::empty()),
        Some(item) => if !item.expandable {
            (s, Seq::empty())
        } else {
            let (s1, r) = mark_loading(s, item.kind);
            let s2 = AppView { expanded: s1.expanded.insert(item.key), ..s1 };
            if !s1.expanded.contains(item.key) {
                (AppView { status: "Expanded "@ + item.title, ..s2 }, r)
            } else {
                (s2, r)
            }
        },
    }
}

/// Closing the selected drawer, or, when it is not open, moving the
/// selection to the row of its parent.
pub open spec fn collapse_spec(s: AppView) -> AppView {
    let items = items_of(s);
    match selected_item(s) {
        None => s,
        Some(item) => if item.expandable && s.expanded.contains(item.key) {
            AppView { expanded: s.expanded.remove(item.key), status: "Collapsed "@ + item.title, ..s }
        } else {
            match item.kind {
                KindView::Node(t, path) => if path.len() == 1 {
                    let idx = first_key_index(items, root_key_of(s.targets[t].root_display), 0);
                    if idx >= 0 {
                        AppView {
                            selected: idx as usize,
                            status: "Moved to parent "@ + s.targets[t].root_display,
                            ..s
                        }
                    } else {
                        s
                    }
                } else {
                    let parent = at_path(s.targets[t].nodes, path.drop_last());
                    let idx = first_key_index(items, node_key_of(parent), 0);
                    if idx >= 0 {
                        AppView { selected: idx as usize, status: "Moved to parent "@ + parent.name, ..s }
                    } else {
                        s
                    }
                },
                KindView::Target(_) => s,
            }
        },
    }
}

/// Moving the selection by `delta` rows, kept on the list.
pub open spec fn move_spec(s: AppView, delta: int) -> AppView {
    let len = items_of(s).len();
    if len == 0 {
        AppView { selected: 0, ..s }
    } else {
        AppView { selected: clamp(s.selected + delta, 0, len - 1) as usize, ..s }
    }
}

/// Scrolling the drawer list so that the selection is in view.
pub open spec fn visible_spec(s: AppView) -> AppView {
    let rows: int = if s.layout.drawer_rows >= 1 { s.layout.drawer_rows as int } else { 1 };
    if s.selected < s.drawer_scroll {
        AppView { drawer_scroll: s.selected, ..s }
    } else if s.selected >= s.drawer_scroll + rows {
        AppView { drawer_scroll: (s.selected + 1 - rows) as usize, ..s }
    } else {
        s
    }
}

/// Asking for the subfolders of the selected row's folder, if needed.
pub open spec fn loaded_spec(s: AppView) -> (AppView, Seq<LoadView>) {
    match selected_item(s) {
        Some(item) => mark_loading(s, item.kind),
        None => (s, Seq::empty()),
    }
}

/// Keeping the selection on the list and in view.
pub open spec fn clamp_spec(s: AppView) -> AppView {
    let len = items_of(s).len();
    let s1 = if len == 0 {
        AppView { selected: 0, ..s }
    } else if s.selected >= len {
        AppView { selected: (len - 1) as usize, ..s }
    } else {
        s
    };
    visible_spec(s1)
}

/// Opening or closing the help drawer.
pub open spec fn help_spec(s: AppView) -> AppView {
    AppView {
        show_help: !s.show_help,
        status: if !s.show_help { "Opened help drawer"@ } else { "Closed help drawer"@ },
        ..s
    }
}

/// A status line about the pane ratio: `<prefix><r>% / <100 - r>%`.
pub open spec fn ratio_status(prefix: Seq<char>, r: u16) -> Seq<char> {
    prefix + crate::text::decimal(r as nat) + "% / "@ + crate::text::decimal((100 - r) as nat) + "%"@
}

/// Changing the drawers pane's share by `delta` percent, kept within 25% to 65%.
pub open spec fn resize_spec(s: AppView, delta: int) -> AppView {
    let next = clamp(s.pane_ratio + delta, 25, 65) as u16;
    AppView { pane_ratio: next, status: ratio_status("Pane ratio set to "@, next), ..s }
}

/// The pane ratio that dragging the divider to `column` gives: the column's
/// offset into the panes as a percentage of their width, kept within 25% to
/// 65%; unchanged when the panes have no width.
pub open spec fn ratio_spec(s: AppView, column: u16) -> AppView {
    let width: int = s.layout.drawers_area.width + s.layout.details_area.width;
    if width == 0 {
        s
    } else {
        let relative: int = if column >= s.layout.drawers_area.x { column - s.layout.drawers_area.x } else { 0 };
        let ratio: i16 = ((relative * 100 / width) as u32) as i16;
        AppView { pane_ratio: clamp(ratio as int, 25, 65) as u16, ..s }
    }
}

/// Whether `value` lies within `tolerance` of `target` (saturating at the ends).
pub open spec fn near(value: u16, target: u16, tolerance: u16) -> bool {
    let lo: int = if target >= tolerance { target - tolerance } else { 0 };
    let hi: int = if target + tolerance <= u16::MAX { target + tolerance } else { u16::MAX as int };
    lo <= value <= hi
}

/// Whether a cell lies in a rectangle.
pub open spec fn in_rect(column: u16, row: u16, rect: Rect) -> bool {
    &&& column >= rect.x
    &&& column < rect.x + rect.width
    &&& row >= rect.y
    &&& row < rect.y + rect.height
}

/// The row of the drawer list drawn at terminal row `row`, if any.
pub open spec fn drawer_index_spec(s: AppView, row: u16) -> Option<int> {
    let rows = s.layout.drawer_rows;
    let area = s.layout.drawers_area;
    if rows == 0 || row <= area.y {
        None
    } else {
        let relative = row - (area.y + 1);
        if relative >= rows {
            None
        } else {
            let index = s.drawer_scroll + relative;
            if index < items_of(s).len() {
                Some(index)
            } else {
                None
            }
        }
    }
}

/// The node that `node_path` leads to.
fn node_at_path<'a>(nodes: &'a Vec<DirNode>, node_path: &[usize]) -> (r: &'a DirNode)
    requires
        path_ok(views(nodes@), ipath(node_path@)),
    ensures
        node_view(*r) == at_path(views(nodes@), ipath(node_path@)),
    decreases node_path@.len(),
{
    proof {
        lemma_views(nodes@);
    }
    let node = &nodes[node_path[0]];
    if node_path.len() == 1 {
        node
    } else {
        let tail = vstd::slice::slice_subrange(node_path, 1, node_path.len());
        assert(ipath(tail@) =~= ipath(node_path@).skip(1));
        node_at_path(&node.children, tail)
    }
}

fn text_with(prefix: &str, text: &str) -> (r: String)
    ensures
        r@ == prefix@ + text@,
{
    let mut r = String::from_str(prefix);
    r.append(text);
    r
}

fn position_of_key(items: &Vec<VisibleItem>, key: &String) -> (r: Option<usize>)
    ensures
        match r {
            Some(i) => i == first_key_index(item_views(items@), key@, 0) && i < items@.len(),
            None => first_key_index(item_views(items@), key@, 0) == -1,
        },
{
    let ghost iv = item_views(items@);
    let mut i: usize = 0;
    while i < items.len()
        invariant
            i <= items@.len(),
            iv == item_views(items@),
            first_key_index(iv, key@, 0) == first_key_index(iv, key@, i as int),
        decreases items@.len() - i,
    {
        if items[i].key == *key {
            assert(iv[i as int].key == key@);
            return Some(i);
        }
        i = i + 1;
    }
    None
}

/// Whether `value` lies within `tolerance` of `target`.
pub fn is_near(value: u16, target: u16, tolerance: u16) -> (b: bool)
    ensures
        b == near(value, target, tolerance),
{
    value >= target.saturating_sub(tolerance) && value <= target.saturating_add(tolerance)
}

/// Whether a cell lies in a rectangle.
pub fn point_in_rect(column: u16, row: u16, rect: Rect) -> (b: bool)
    ensures
        b == in_rect(column, row, rect),
{
    column >= rect.x && (column - rect.x) < rect.width && row >= rect.y && (row - rect.y) < rect.height
}

impl App {
    fn set_status(&mut self, status_message: String)
        ensures
            final(self)@ == (AppView { status: status_message@, ..old(self)@ }),
            final(self).expanded == old(self).expanded,
            final(self).pane_ratio == old(self).pane_ratio,
    {
        self.status_message = status_message;
    }

    /// Opens or closes the selected drawer (see [`toggle_spec`]).
    pub fn toggle_current(&mut self, loads: &mut Vec<LoadRequest>)
        requires
            old(self).wf(),
        ensures
            final(self).wf(),
            final(self)@ == toggle_spec(old(self)@).0,
            load_views(final(loads)@) == load_views(old(loads)@) + toggle_spec(old(self)@).1,
    {
        let items = self.visible_items();
        proof {
            lemma_items_ok(self@.expanded, self@.min_bytes, self@.targets, 0);
        }
        if self.selected < items.len() {
            let item = &items[self.selected];
            assert(item_view(*item) == items_of(self@)[self.selected as int]);
            if !item.expandable {
                assert(load_views(loads@) =~= load_views(old(loads)@) + Seq::<LoadView>::empty());
                return;
            }
            if contains_key(&self.expanded, &item.key) {
                remove_key(&mut self.expanded, &item.key);
                self.set_status(text_with("Collapsed ", item.title.as_str()));
                assert(load_views(loads@) =~= load_views(old(loads)@) + Seq::<LoadView>::empty());
            } else {
                self.ensure_item_loaded(&item.kind, loads);
                insert_key(&mut self.expanded, item.key.clone());
                self.set_status(text_with("Expanded ", item.title.as_str()));
            }
        } else {
            assert(load_views(loads@) =~= load_views(old(loads)@) + Seq::<LoadView>::empty());
        }
    }

    /// Opens the selected drawer (see [`expand_spec`]).
    pub fn expand_current(&mut self, loads: &mut Vec<LoadRequest>)
        requires
            old(self).wf(),
        ensures
            final(self).wf(),
            final(self)@ == expand_spec(old(self)@).0,
            load_views(final(loads)@) == load_views(old(loads)@) + expand_spec(old(self)@).1,
    {
        let items = self.visible_items();
        proof {
            lemma_items_ok(self@.expanded, self@.min_bytes, self@.targets, 0);
        }
        if self.selected < items.len() {
            let item = &items[self.selected];
            assert(item_view(*item) == items_of(self@)[self.selected as int]);
            if item.expandable {
                self.ensure_item_loaded(&item.kind, loads);
                let inserted = insert_key(&mut self.expanded, item.key.clone());
                if inserted {
                    self.set_status(text_with("Expanded ", item.title.as_str()));
                }
            } else {
                assert(load_views(loads@) =~= load_views(old(loads)@) + Seq::<LoadView>::empty());
            }
        } else {
            assert(load_views(loads@) =~= load_views(old(loads)@) + Seq::<LoadView>::empty());
        }
    }

    /// Closes the selected drawer, or moves to its parent's row (see [`collapse_spec`]).
    pub fn collapse_current(&mut self)
        requires
            old(self).wf(),
        ensures
            final(self).wf(),
            final(self)@ == collapse_spec(old(self)@),
    {
        let items = self.visible_items();
        proof {
            lemma_items_ok(self@.expanded, self@.min_bytes, self@.targets, 0);
        }
        if self.selected >= items.len() {
            return;
        }
        let item = &items[self.selected];
        assert(item_view(*item) == items_of(self@)[self.selected as int]);
        if item.expandable && contains_key(&self.expanded, &item.key) {
            remove_key(&mut self.expanded, &item.key);
            self.set_status(text_with("Collapsed ", item.title.as_str()));
            return;
        }
        match &item.kind {
            ItemKind::Node { target_idx, node_path } => {
                assert(kind_ok(self@.targets, item_view(*item).kind));
                assert(self@.targets[*target_idx as int] == target_view(self.targets@[*target_idx as int]));
                if node_path.len() == 1 {
                    let parent_key = root_key(self.targets[*target_idx].root_display.as_str());
                    if let Some(index) = position_of_key(&items, &parent_key) {
                        self.selected = index;
                        let status = text_with("Moved to parent ", self.targets[*target_idx].root_display.as_str());
                        self.set_status(status);
                    }
                } else {
                    let prefix = vstd::slice::slice_subrange(node_path.as_slice(), 0, node_path.len() - 1);
                    assert(ipath(prefix@) =~= ipath(node_path@).drop_last());
                    proof {
                        lemma_path_prefix(self@.targets[*target_idx as int].nodes, ipath(node_path@));
                    }
                    let parent = node_at_path(&self.targets[*target_idx].nodes, prefix);
                    let parent_key = node_key(parent);
                    let parent_name = parent.name.clone();
                    if let Some(index) = position_of_key(&items, &parent_key) {
                        self.selected = index;
                        self.set_status(text_with("Moved to parent ", parent_name.as_str()));
                    }
                }
            },
            ItemKind::Target(_) => {},
        }
    }

    /// Moves the selection by `delta` rows, kept on the list (see [`move_spec`]).
    pub fn move_selection(&mut self, delta: isize)
        requires
            old(self).wf(),
        ensures
            final(self).wf(),
            final(self)@ == move_spec(old(self)@, delta as int),
    {
        let len = self.visible_items().len();
        if len == 0 {
            self.selected = 0;
            return;
        }
        let next: i128 = self.selected as i128 + delta as i128;
        let last: i128 = (len - 1) as i128;
        self.selected = if next < 0 {
            0
        } else if next > last {
            len - 1
        } else {
            next as usize
        };
    }

    /// Scrolls the drawer list so that the selection is in view (see [`visible_spec`]).
    pub fn ensure_selected_visible(&mut self)
        requires
            old(self).wf(),
        ensures
            final(self).wf(),
            final(self)@ == visible_spec(old(self)@),
    {
        let visible_rows = if self.layout.drawer_rows >= 1 { self.layout.drawer_rows } else { 1 };
        if self.selected < self.drawer_scroll {
            self.drawer_scroll = self.selected;
        } else if self.selected - self.drawer_scroll >= visible_rows {
            self.drawer_scroll = self.selected - visible_rows + 1;
        }
    }

    /// Asks for the subfolders of the selected row's folder, if needed (see [`loaded_spec`]).
    pub fn ensure_selected_loaded(&mut self, loads: &mut Vec<LoadRequest>)
        requires
            old(self).wf(),
        ensures
            final(self).wf(),
            final(self)@ == loaded_spec(old(self)@).0,
            load_views(final(loads)@) == load_views(old(loads)@) + loaded_spec(old(self)@).1,
    {
        let items = self.visible_items();
        proof {
            lemma_items_ok(self@.expanded, self@.min_bytes, self@.targets, 0);
        }
        if self.selected < items.len() {
            let item = &items[self.selected];
            assert(item_view(*item) == items_of(self@)[self.selected as int]);
            self.ensure_item_loaded(&item.kind, loads);
        } else {
            assert(load_views(loads@) =~= load_views(old(loads)@) + Seq::<LoadView>::empty());
        }
    }

    /// Keeps the selection on the list and in view (see [`clamp_spec`]).
    pub fn clamp_selection(&mut self)
        requires
            old(self).wf(),
        ensures
            final(self).wf(),
            final(self)@ == clamp_spec(old(self)@),
    {
        let len = self.visible_items().len();
        if len == 0 {
            self.selected = 0;
        } else if self.selected >= len {
            self.selected = len - 1;
        }
        self.ensure_selected_visible();
    }

    /// Opens or closes the help drawer (see [`help_spec`]).
    pub fn toggle_help(&mut self)
        requires
            old(self).wf(),
        ensures
            final(self).wf(),
            final(self)@ == help_spec(old(self)@),
    {
        self.show_help = !self.show_help;
        let status = if self.show_help {
            String::from_str("Opened help drawer")
        } else {
            String::from_str("Closed help drawer")
        };
        self.set_status(status);
    }
}

fn ratio_text(prefix: &str, r: u16) -> (t: String)
    requires
        r <= 100,
    ensures
        t@ == ratio_status(prefix@, r),
{
    let mut t = String::from_str(prefix);
    crate::text::push_decimal(&mut t, r as u64);
    t.append("% / ");
    crate::text::push_decimal(&mut t, (100 - r) as u64);
    t.append("%");
    t
}

/// The key of the explorer that a key press names.
pub enum Key {
    Char(char),
    Esc,
    Down,
    Up,
    Home,
    End,
    Right,
    Left,
    Enter,
    Other,
}

/// What a mouse event does.
pub enum MouseKind {
    LeftDown,
    LeftDrag,
    LeftUp,
    ScrollDown,
    ScrollUp,
    Other,
}

/// A mouse event at a terminal cell.
pub struct Mouse {
    pub kind: MouseKind,
    pub column: u16,
    pub row: u16,
}

/// What a key press does before the selection is loaded and scrolled into view.
pub open spec fn key_action(s: AppView, k: Key) -> (AppView, Seq<LoadView>) {
    match k {
        Key::Char('q') | Key::Esc => (AppView { should_quit: true, ..s }, Seq::empty()),
        Key::Down | Key::Char('j') => (move_spec(s, 1), Seq::empty()),
        Key::Up | Key::Char('k') => (move_spec(s, -1), Seq::empty()),
        Key::Home => (AppView { selected: 0, ..s }, Seq::empty()),
        Key::End => {
            let len = items_of(s).len();
            if len > 0 {
                (AppView { selected: (len - 1) as usize, ..s }, Seq::empty())
            } else {
                (s, Seq::empty())
            }
        },
        Key::Right | Key::Char('l') | Key::Char('e') => expand_spec(s),
        Key::Left | Key::Char('h') | Key::Char('c') => (collapse_spec(s), Seq::empty()),
        Key::Enter | Key::Char(' ') | Key::Char('d') => toggle_spec(s),
        Key::Char('?') => (help_spec(s), Seq::empty()),
        Key::Char('+') | Key::Char('=') | Key::Char(']') => (resize_spec(s, 3), Seq::empty()),
        Key::Char('-') | Key::Char('_') | Key::Char('[') => (resize_spec(s, -3), Seq::empty()),
        _ => (s, Seq::empty()),
    }
}

/// A key press: its action, then the selected folder's subfolders asked for
/// if needed, then the selection scrolled into view. The result holds the
/// scans to start, in order.
pub open spec fn key_spec(s: AppView, k: Key) -> (AppView, Seq<LoadView>) {
    let (s1, r1) = key_action(s, k);
    let (s2, r2) = loaded_spec(s1);
    (visible_spec(s2), r1 + r2)
}

/// The status line while the divider is dragged.
pub open spec fn resizing_status(s: AppView) -> AppView {
    AppView { status: ratio_status("Resizing panes: "@, s.pane_ratio), ..s }
}

/// What a mouse event does before the selection is loaded and scrolled into view.
pub open spec fn mouse_action(s: AppView, m: Mouse) -> (AppView, Seq<LoadView>) {
    match m.kind {
        MouseKind::LeftDown => if near(m.column, s.layout.divider_x, 1) {
            (resizing_status(ratio_spec(AppView { resizing: true, ..s }, m.column)), Seq::empty())
        } else if in_rect(m.column, m.row, s.layout.drawers_area) {
            match drawer_index_spec(s, m.row) {
                Some(index) => if s.selected == index {
                    toggle_spec(s)
                } else {
                    (
                        AppView { selected: index as usize, status: "Selected "@ + items_of(s)[index].title, ..s },
                        Seq::empty(),
                    )
                },
                None => (s, Seq::empty()),
            }
        } else if in_rect(m.column, m.row, s.layout.help_area) {
            (help_spec(s), Seq::empty())
        } else {
            (s, Seq::empty())
        },
        MouseKind::LeftDrag => if s.resizing {
            (resizing_status(ratio_spec(s, m.column)), Seq::empty())
        } else {
            (s, Seq::empty())
        },
        MouseKind::LeftUp => if s.resizing {
            (
                AppView { resizing: false, status: ratio_status("Pane ratio set to "@, s.pane_ratio), ..s },
                Seq::empty(),
            )
        } else {
            (s, Seq::empty())
        },
        MouseKind::ScrollDown => if in_rect(m.column, m.row, s.layout.drawers_area) {
            (move_spec(s, 1), Seq::empty())
        } else {
            (s, Seq::empty())
        },
        MouseKind::ScrollUp => if in_rect(m.column, m.row, s.layout.drawers_area) {
            (move_spec(s, -1), Seq::empty())
        } else {
            (s, Seq::empty())
        },
        MouseKind::Other => (s, Seq::empty()),
    }
}

/// A mouse event: its action, then the selected folder's subfolders asked
/// for if needed, then the selection scrolled into view.
pub open spec fn mouse_spec(s: AppView, m: Mouse) -> (AppView, Seq<LoadView>) {
    let (s1, r1) = mouse_action(s, m);
    let (s2, r2) = loaded_spec(s1);
    (visible_spec(s2), r1 + r2)
}

impl App {
    /// Changes the drawers pane's share by `delta` percent (see [`resize_spec`]).
    pub fn resize_panes(&mut self, delta: i16)
        requires
            old(self).wf(),
            i16::MIN <= old(self).pane_ratio + delta <= i16::MAX,
        ensures
            final(self).wf(),
            final(self)@ == resize_spec(old(self)@, delta as int),
    {
        let sum: i16 = self.pane_ratio as i16 + delta;
        let next: u16 = if sum < 25 {
            25
        } else if sum > 65 {
            65
        } else {
            sum as u16
        };
        self.pane_ratio = next;
        let status = ratio_text("Pane ratio set to ", self.pane_ratio);
        self.set_status(status);
    }

    /// Sets the pane ratio from the column the divider is dragged to (see [`ratio_spec`]).
    pub fn set_ratio_from_column(&mut self, column: u16)
        requires
            old(self).wf(),
        ensures
            final(self).wf(),
            final(self)@ == ratio_spec(old(self)@, column),
    {
        let width: u32 = self.layout.drawers_area.width as u32 + self.layout.details_area.width as u32;
        if width == 0 {
            return;
        }
        let relative: u16 = column.saturating_sub(self.layout.drawers_area.x);
        let ratio = ((relative as u32) * 100 / width) as i16;
        self.pane_ratio = if ratio < 25 {
            25
        } else if ratio > 65 {
            65
        } else {
            ratio as u16
        };
    }

    /// Whether a column lies on the divider between the panes.
    pub fn is_on_divider(&self, column: u16) -> (b: bool)
        ensures
            b == near(column, self.layout.divider_x, 1),
    {
        is_near(column, self.layout.divider_x, 1)
    }

    /// The row of the drawer list drawn at terminal row `row`, if any (see
    /// [`drawer_index_spec`]).
    pub fn drawer_index_at_row(&self, row: u16) -> (r: Option<usize>)
        ensures
            match r {
                Some(i) => drawer_index_spec(self@, row) == Some(i as int),
                None => drawer_index_spec(self@, row) is None,
            },
    {
        if self.layout.drawer_rows == 0 || row <= self.layout.drawers_area.y {
            return None;
        }
        let content_start = self.layout.drawers_area.y + 1;
        let relative = row.saturating_sub(content_start) as usize;
        if relative >= self.layout.drawer_rows {
            return None;
        }
        let len = self.visible_items().len();
        if relative >= len || self.drawer_scroll >= len - relative {
            return None;
        }
        let index = self.drawer_scroll + relative;
        Some(index)
    }

    fn resizing_message(&mut self)
        requires
            old(self).wf(),
        ensures
            final(self).wf(),
            final(self)@ == resizing_status(old(self)@),
    {
        let status = ratio_text("Resizing panes: ", self.pane_ratio);
        self.set_status(status);
    }

    fn key_action(&mut self, code: &Key, loads: &mut Vec<LoadRequest>)
        requires
            old(self).wf(),
        ensures
            final(self).wf(),
            final(self)@ == key_action(old(self)@, *code).0,
            load_views(final(loads)@) == load_views(old(loads)@) + key_action(old(self)@, *code).1,
    {
        let ghost s = self@;
        match code {
            Key::Char('q') | Key::Esc => self.should_quit = true,
            Key::Down | Key::Char('j') => self.move_selection(1),
            Key::Up | Key::Char('k') => self.move_selection(-1),
            Key::Home => self.selected = 0,
            Key::End => {
                let len = self.visible_items().len();
                if len > 0 {
                    self.selected = len - 1;
                }
            },
            Key::Right | Key::Char('l') | Key::Char('e') => self.expand_current(loads),
            Key::Left | Key::Char('h') | Key::Char('c') => self.collapse_current(),
            Key::Enter | Key::Char(' ') | Key::Char('d') => self.toggle_current(loads),
            Key::Char('?') => self.toggle_help(),
            Key::Char('+') | Key::Char('=') | Key::Char(']') => self.resize_panes(3),
            Key::Char('-') | Key::Char('_') | Key::Char('[') => self.resize_panes(-3),
            _ => {},
        }
        assert(load_views(loads@) =~= load_views(old(loads)@) + key_action(s, *code).1);
    }

    /// Handles a key press (see [`key_spec`]); the scans to start are
    /// appended to `loads`.
    pub fn handle_key(&mut self, code: Key, loads: &mut Vec<LoadRequest>)
        requires
            old(self).wf(),
        ensures
            final(self).wf(),
            final(self)@ == key_spec(old(self)@, code).0,
            load_views(final(loads)@) == load_views(old(loads)@) + key_spec(old(self)@, code).1,
    {
        let ghost s = self@;
        let ghost l0 = loads@;
        self.key_action(&code, loads);
        let ghost l1 = loads@;
        self.ensure_selected_loaded(loads);
        self.ensure_selected_visible();
        assert(load_views(loads@) =~= load_views(l0) + key_spec(s, code).1);
    }
}

impl App {
    fn mouse_action(&mut self, mouse: &Mouse, loads: &mut Vec<LoadRequest>)
        requires
            old(self).wf(),
        ensures
            final(self).wf(),
            final(self)@ == mouse_action(old(self)@, *mouse).0,
            load_views(final(loads)@) == load_views(old(loads)@) + mouse_action(old(self)@, *mouse).1,
    {
        let ghost s = self@;
        match mouse.kind {
            MouseKind::LeftDown => {
                if self.is_on_divider(mouse.column) {
                    self.resizing = true;
                    self.set_ratio_from_column(mouse.column);
                    self.resizing_message();
                } else if point_in_rect(mouse.column, mouse.row, self.layout.drawers_area) {
                    if let Some(index) = self.drawer_index_at_row(mouse.row) {
                        if self.selected == index {
                            self.toggle_current(loads);
                        } else {
                            self.selected = index;
                            let items = self.visible_items();
                            assert(items_of(self@) == items_of(s));
                            if index < items.len() {
                                let status = text_with("Selected ", items[index].title.as_str());
                                self.set_status(status);
                            }
                        }
                    }
                } else if point_in_rect(mouse.column, mouse.row, self.layout.help_area) {
                    self.toggle_help();
                }
            },
            MouseKind::LeftDrag => {
                if self.resizing {
                    self.set_ratio_from_column(mouse.column);
                    self.resizing_message();
                }
            },
            MouseKind::LeftUp => {
                if self.resizing {
                    self.resizing = false;
                    let status = ratio_text("Pane ratio set to ", self.pane_ratio);
                    self.set_status(status);
                }
            },
            MouseKind::ScrollDown => {
                if point_in_rect(mouse.column, mouse.row, self.layout.drawers_area) {
                    self.move_selection(1);
                }
            },
            MouseKind::ScrollUp => {
                if point_in_rect(mouse.column, mouse.row, self.layout.drawers_area) {
                    self.move_selection(-1);
                }
            },
            MouseKind::Other => {},
        }
        assert(load_views(loads@) =~= load_views(old(loads)@) + mouse_action(s, *mouse).1);
    }

    /// Handles a mouse event (see [`mouse_spec`]); the scans to start are
    /// appended to `loads`.
    pub fn handle_mouse(&mut self, mouse: Mouse, loads: &mut Vec<LoadRequest>)
        requires
            old(self).wf(),
        ensures
            final(self).wf(),
            final(self)@ == mouse_spec(old(self)@, mouse).0,
            load_views(final(loads)@) == load_views(old(loads)@) + mouse_spec(old(self)@, mouse).1,
    {
        let ghost s = self@;
        let ghost l0 = loads@;
        self.mouse_action(&mouse, loads);
        self.ensure_selected_loaded(loads);
        self.ensure_selected_visible();
        assert(load_views(loads@) =~= load_views(l0) + mouse_spec(s, mouse).1);
    }
}

// ---------------------------------------------------------------------------
// Results of background scans
// ---------------------------------------------------------------------------

/// The state once the subfolders scanned for the folder at `path` of root
/// `t` are in place: the folder holds them, counts as loaded and no longer
/// loading, has children when there are any, and its drawer closes when
/// there are none.
pub open spec fn scan_result_spec(s: AppView, t: int, path: Seq<int>, children: Seq<DirNodeView>) -> AppView {
    let n = at_path(s.targets[t].nodes, path);
    let n2 = DirNodeView {
        children,
        has_children: children.len() > 0,
        children_loaded: true,
        is_loading: false,
        ..n
    };
    let tv = s.targets[t];
    let key = node_key_of(n2);
    AppView {
        targets: s.targets.update(t, TargetView { nodes: replaced_at(tv.nodes, path, n2), ..tv }),
        expanded: if s.expanded.contains(key) && !n2.has_children { s.expanded.remove(key) } else { s.expanded },
        status: "Loaded "@ + n.name,
        ..s
    }
}

fn path_exists(nodes: &Vec<DirNode>, node_path: &[usize]) -> (b: bool)
    ensures
        b == path_ok(views(nodes@), ipath(node_path@)),
    decreases node_path@.len(),
{
    proof {
        lemma_views(nodes@);
    }
    if node_path.len() == 0 || node_path[0] >= nodes.len() {
        return false;
    }
    if node_path.len() == 1 {
        return true;
    }
    let tail = vstd::slice::slice_subrange(node_path, 1, node_path.len());
    assert(ipath(tail@) =~= ipath(node_path@).skip(1));
    path_exists(&nodes[node_path[0]].children, tail)
}

/// The sum of the roots' totals.
pub open spec fn total_of(ts: Seq<TargetView>) -> nat
    decreases ts.len(),
{
    if ts.len() == 0 {
        0
    } else {
        total_of(ts.drop_last()) + ts.last().total_size as nat
    }
}

/// The keys of the roots' drawers.
pub open spec fn root_keys(ts: Seq<TargetView>) -> Set<Seq<char>> {
    Set::new(|k: Seq<char>| exists|i: int| 0 <= i < ts.len() && k == root_key_of(#[trigger] ts[i].root_display))
}

impl App {
    /// Whether a scan result points at a folder that exists, as
    /// [`App::handle_scan_result`] requires.
    pub fn result_target_exists(&self, result: &ScanResult) -> (b: bool)
        ensures
            b == (result.target_idx < self@.targets.len() && path_ok(
                self@.targets[result.target_idx as int].nodes,
                ipath(result.node_path@),
            )),
    {
        if result.target_idx >= self.targets.len() {
            return false;
        }
        path_exists(&self.targets[result.target_idx].nodes, result.node_path.as_slice())
    }

    /// Puts the subfolders of a background scan in place (see [`scan_result_spec`]).
    pub fn handle_scan_result(&mut self, result: ScanResult)
        requires
            old(self).wf(),
            result.target_idx < old(self)@.targets.len(),
            path_ok(old(self)@.targets[result.target_idx as int].nodes, ipath(result.node_path@)),
        ensures
            final(self).wf(),
            final(self)@ == scan_result_spec(
                old(self)@,
                result.target_idx as int,
                ipath(result.node_path@),
                views(result.children@),
            ),
    {
        let ghost s = self@;
        let ghost rv = views(result.children@);
        let (key, has_children, node_name) = {
            let node = self.node_at_mut(result.target_idx, &result.node_path);
            node.children = result.children;
            node.has_children = node.children.len() != 0;
            proof {
                lemma_views(node.children@);
            }
            node.children_loaded = true;
            node.is_loading = false;
            (node_key(node), node.has_children, node.name.clone())
        };
        if contains_key(&self.expanded, &key) && !has_children {
            remove_key(&mut self.expanded, &key);
        }
        self.set_status(text_with("Loaded ", node_name.as_str()));
    }

    /// The total size of all the roots.
    pub fn total_size(&self) -> (t: u64)
        requires
            total_of(self@.targets) <= u64::MAX,
        ensures
            t == total_of(self@.targets),
    {
        let ghost ts = self@.targets;
        let mut total: u64 = 0;
        let mut i: usize = 0;
        assert(ts.take(0) =~= Seq::<TargetView>::empty());
        while i < self.targets.len()
            invariant
                i <= ts.len(),
                ts == self@.targets,
                ts.len() == self.targets@.len(),
                total == total_of(ts.take(i as int)),
                total_of(ts) <= u64::MAX,
            decreases ts.len() - i,
        {
            assert(ts.take(i + 1).drop_last() =~= ts.take(i as int));
            proof {
                lemma_total_prefix(ts, i + 1);
            }
            total = total + self.targets[i].total_size;
            i = i + 1;
        }
        assert(ts.take(i as int) =~= ts);
        total
    }

    /// A new explorer over `targets`: every root's drawer open, the first
    /// row selected, the drawers pane at 38% of the width.
    pub fn new(targets: Vec<ScanTarget>, min_bytes: u64) -> (app: App)
        ensures
            app.wf(),
            app@ == (AppView {
                targets: target_views(targets@),
                expanded: root_keys(target_views(targets@)),
                selected: 0,
                should_quit: false,
                min_bytes,
                pane_ratio: 38,
                drawer_scroll: 0,
                show_help: false,
                status: "Ready. "@ + crate::text::decimal(targets@.len()) + " roots loaded. Press ? for help."@,
                resizing: false,
                layout: LayoutCache::empty_spec(),
            }),
    {
        let root_count = targets.len();
        let ghost ts = target_views(targets@);
        let mut expanded: Vec<String> = Vec::new();
        let mut i: usize = 0;
        while i < targets.len()
            invariant
                i <= targets@.len(),
                ts == target_views(targets@),
                distinct_keys(expanded@),
                key_set(expanded@) == Set::new(
                    |k: Seq<char>| exists|j: int| 0 <= j < i && k == root_key_of(#[trigger] ts[j].root_display),
                ),
            decreases targets@.len() - i,
        {
            let ghost before = key_set(expanded@);
            let key = root_key(targets[i].root_display.as_str());
            insert_key(&mut expanded, key);
            assert(key_set(expanded@) =~= Set::new(
                |k: Seq<char>| exists|j: int| 0 <= j < i + 1 && k == root_key_of(#[trigger] ts[j].root_display),
            )) by {
                assert forall|k: Seq<char>| key_set(expanded@).contains(k) implies exists|j: int|
                    0 <= j < i + 1 && k == root_key_of(#[trigger] ts[j].root_display) by {
                    if k == root_key_of(ts[i as int].root_display) {
                    } else {
                        assert(before.contains(k));
                    }
                }
            }
            i = i + 1;
        }
        assert(key_set(expanded@) =~= root_keys(ts));
        let mut status_message = String::from_str("Ready. ");
        crate::text::push_decimal(&mut status_message, root_count as u64);
        status_message.append(" roots loaded. Press ? for help.");
        App {
            targets,
            expanded,
            selected: 0,
            should_quit: false,
            min_bytes,
            pane_ratio: 38,
            drawer_scroll: 0,
            show_help: false,
            status_message,
            resizing: false,
            layout: LayoutCache::empty(),
        }
    }
}

proof fn lemma_total_prefix(ts: Seq<TargetView>, k: int)
    requires
        0 <= k <= ts.len(),
    ensures
        total_of(ts.take(k)) <= total_of(ts),
    decreases ts.len() - k,
{
    if k < ts.len() {
        lemma_total_prefix(ts, k + 1);
        assert(ts.take(k + 1).drop_last() =~= ts.take(k));
    } else {
        assert(ts.take(k) =~= ts);
    }
}

// ---------------------------------------------------------------------------
// Laying out a frame
// ---------------------------------------------------------------------------

/// `ratatui::layout::Layout::vertical(..).areas(..)` with the constraints
/// `Length(3)`, `Min(10)`, `Length(help_height)`: a header, a body and a
/// footer, with the footer height that was asked for. For an area that lies
/// within the `u16` coordinates (so that `ratatui::layout::Rect::new` keeps
/// it as it is), the crate's source gives each part the columns of `area`,
/// and builds its rows from a start and an end row that are both `u16`. The
/// rows that its constraint solver gives the parts are left unsaid, as the
/// solver walks hash maps whose order changes from one run to the next.
#[verifier::external_body]
fn split_frame(area: Rect, help_height: u16) -> (r: (Rect, Rect, Rect, u16))
    requires
        area.x + area.width <= u16::MAX,
        area.y + area.height <= u16::MAX,
    ensures
        r.0.x == area.x && r.0.width == area.width && r.0.y + r.0.height <= u16::MAX,
        r.1.x == area.x && r.1.width == area.width && r.1.y + r.1.height <= u16::MAX,
        r.2.x == area.x && r.2.width == area.width && r.2.y + r.2.height <= u16::MAX,
        r.3 == help_height,
{
    let t = ratatui::layout::Rect::new(area.x, area.y, area.width, area.height);
    let c = [Constraint::Length(3), Constraint::Min(10), Constraint::Length(help_height)];
    let [a, b, f] = Layout::vertical(c).areas(t);
    (
        Rect { x: a.x, y: a.y, width: a.width, height: a.height },
        Rect { x: b.x, y: b.y, width: b.width, height: b.height },
        Rect { x: f.x, y: f.y, width: f.width, height: f.height },
        help_height,
    )
}

/// `ratatui::layout::Layout::horizontal(..).areas(..)` with the constraints
/// `Percentage(ratio)`, `Percentage(100 - ratio)`: the drawers pane and the
/// details pane, with the ratio that was asked for. For an area that lies
/// within the `u16` coordinates (so that `ratatui::layout::Rect::new` keeps
/// it as it is), the crate's source gives each pane the rows of `area`, and
/// builds it from a start and an end column that are both `u16`. The columns
/// that its constraint solver gives the panes are left unsaid, as the solver
/// walks hash maps whose order changes from one run to the next.
#[verifier::external_body]
fn split_body(area: Rect, ratio: u16) -> (r: (Rect, Rect, u16))
    requires
        ratio <= 100,
        area.x + area.width <= u16::MAX,
        area.y + area.height <= u16::MAX,
    ensures
        r.0.y == area.y && r.0.height == area.height,
        r.1.y == area.y && r.1.height == area.height,
        r.0.x + r.0.width <= u16::MAX,
        r.1.x + r.1.width <= u16::MAX,
        r.2 == ratio,
{
    let t = ratatui::layout::Rect::new(area.x, area.y, area.width, area.height);
    let c = [Constraint::Percentage(ratio), Constraint::Percentage(100 - ratio)];
    let [a, b] = Layout::horizontal(c).areas(t);
    (
        Rect { x: a.x, y: a.y, width: a.width, height: a.height },
        Rect { x: b.x, y: b.y, width: b.width, height: b.height },
        ratio,
    )
}

/// The areas of one frame of the explorer, with the footer height and the
/// pane ratio that they were laid out for.
pub struct FrameAreas {
    pub header: Rect,
    pub drawers: Rect,
    pub details: Rect,
    pub footer: Rect,
    pub help_height: u16,
    pub pane_ratio: u16,
}

/// The layout of a frame whose panes are `areas`: the drawer list two rows
/// shorter than its pane (for the border), the divider just right of it.
pub open spec fn layout_of(areas: FrameAreas) -> LayoutCache {
    LayoutCache {
        drawers_area: areas.drawers,
        details_area: areas.details,
        help_area: areas.footer,
        divider_x: (areas.drawers.x + areas.drawers.width) as u16,
        drawer_rows: (if areas.drawers.height >= 2 { areas.drawers.height - 2 } else { 0 }) as usize,
    }
}

/// Getting ready to draw a frame laid out as `areas`: the selection kept on
/// the list, the selected folder's subfolders asked for if needed, the panes
/// laid out, and the selection scrolled into view.
pub open spec fn frame_spec(s: AppView, areas: FrameAreas) -> (AppView, Seq<LoadView>) {
    let (s1, r) = loaded_spec(clamp_spec(s));
    (visible_spec(AppView { layout: layout_of(areas), ..s1 }), r)
}

impl App {
    /// Gets ready to draw a frame laid out as `areas` (see [`frame_spec`]).
    pub fn lay_out_frame(&mut self, areas: &FrameAreas, loads: &mut Vec<LoadRequest>)
        requires
            old(self).wf(),
            areas.drawers.x + areas.drawers.width <= u16::MAX,
        ensures
            final(self).wf(),
            final(self)@ == frame_spec(old(self)@, *areas).0,
            load_views(final(loads)@) == load_views(old(loads)@) + frame_spec(old(self)@, *areas).1,
    {
        self.clamp_selection();
        self.ensure_selected_loaded(loads);
        let left = areas.drawers;
        self.layout = LayoutCache {
            drawers_area: left,
            details_area: areas.details,
            help_area: areas.footer,
            divider_x: left.x + left.width,
            drawer_rows: left.height.saturating_sub(2) as usize,
        };
        self.ensure_selected_visible();
    }

    /// Splits a frame of `area` into a header, the drawers and details panes
    /// at the pane ratio, and a footer as high as the help drawer needs (the
    /// ratio and the height handed to the layout are given back with the
    /// areas), and gets ready to draw it (see [`App::lay_out_frame`]).
    pub fn prepare_frame(&mut self, area: Rect, loads: &mut Vec<LoadRequest>) -> (areas: FrameAreas)
        requires
            old(self).wf(),
            area.x + area.width <= u16::MAX,
            area.y + area.height <= u16::MAX,
        ensures
            final(self).wf(),
            final(self)@ == frame_spec(old(self)@, areas).0,
            load_views(final(loads)@) == load_views(old(loads)@) + frame_spec(old(self)@, areas).1,
            areas.header.x == area.x && areas.header.width == area.width,
            areas.footer.x == area.x && areas.footer.width == area.width,
            areas.drawers.y == areas.details.y && areas.drawers.height == areas.details.height,
            areas.drawers.x + areas.drawers.width <= u16::MAX,
            areas.help_height == if old(self).show_help { 7u16 } else { 4u16 },
            areas.pane_ratio == old(self).pane_ratio,
    {
        let help_height: u16 = if self.show_help { 7 } else { 4 };
        let (header, body, footer, asked_height) = split_frame(area, help_height);
        let (left, right, asked_ratio) = split_body(body, self.pane_ratio);
        let areas = FrameAreas {
            header,
            drawers: left,
            details: right,
            footer,
            help_height: asked_height,
            pane_ratio: asked_ratio,
        };
        self.lay_out_frame(&areas, loads);
        areas
    }
}

// ---------------------------------------------------------------------------
// Counting and measuring subtrees
// ---------------------------------------------------------------------------

/// The number of folders in a forest, at every depth.
pub open spec fn forest_size(s: Seq<DirNodeView>) -> nat
    decreases s,
{
    if s.len() == 0 {
        0
    } else {
        forest_size(s.subrange(0, s.len() - 1)) + 1 + forest_size(s[s.len() - 1].children)
    }
}

/// The number of levels of a forest: 0 when empty, else one more than the
/// deepest of its nodes' forests of children.
pub open spec fn forest_height(s: Seq<DirNodeView>) -> nat
    decreases s,
{
    if s.len() == 0 {
        0
    } else {
        let a = forest_height(s.subrange(0, s.len() - 1));
        let b = 1 + forest_height(s[s.len() - 1].children);
        if a >= b { a } else { b }
    }
}

proof fn lemma_forest_prefix(s: Seq<DirNodeView>, k: int)
    requires
        0 <= k < s.len(),
    ensures
        s.subrange(0, k + 1).subrange(0, k) == s.subrange(0, k),
        s.subrange(0, k + 1)[k] == s[k],
        forest_size(s.subrange(0, k + 1)) == forest_size(s.subrange(0, k)) + 1 + forest_size(s[k].children),
        forest_size(s.subrange(0, k)) <= forest_size(s),
        forest_height(s.subrange(0, k + 1)) == (if forest_height(s.subrange(0, k)) >= 1 + forest_height(s[k].children) {
            forest_height(s.subrange(0, k))
        } else {
            1 + forest_height(s[k].children)
        }),
    decreases s.len() - k,
{
    assert(s.subrange(0, k + 1).subrange(0, k) =~= s.subrange(0, k));
    if k + 1 < s.len() {
        lemma_forest_prefix(s, k + 1);
    } else {
        assert(s.subrange(0, k + 1) =~= s);
    }
}

/// The number of folders below a node, at every depth.
pub fn count_descendants(node: &DirNode) -> (n: Option<usize>)
    ensures
        match n {
            Some(n) => n == forest_size(node_view(*node).children),
            None => forest_size(node_view(*node).children) > usize::MAX,
        },
    decreases node,
{
    let ghost cs = views(node.children@);
    proof {
        lemma_views(node.children@);
    }
    let mut total: usize = 0;
    let mut i: usize = 0;
    assert(cs.subrange(0, 0) =~= Seq::<DirNodeView>::empty());
    while i < node.children.len()
        invariant
            i <= cs.len(),
            cs == views(node.children@),
            cs.len() == node.children@.len(),
            forall|k: int| 0 <= k < cs.len() ==> #[trigger] cs[k] == node_view(node.children@[k]),
            total == forest_size(cs.subrange(0, i as int)),
        decreases cs.len() - i,
    {
        proof {
            lemma_forest_prefix(cs, i as int);
            assert(decreases_to!(node => node.children));
            assert(decreases_to!(node.children => node.children@));
            assert(decreases_to!(node.children@ => node.children@[i as int]));
        }
        let below = match count_descendants(&node.children[i]) {
            Some(b) => b,
            None => {
                proof {
                    if i + 1 < cs.len() {
                        lemma_forest_prefix(cs, i + 1);
                    } else {
                        assert(cs.subrange(0, i + 1) =~= cs);
                    }
                }
                return None;
            },
        };
        let step = match below.checked_add(1) {
            Some(v) => v,
            None => {
                proof {
                    if i + 1 < cs.len() {
                        lemma_forest_prefix(cs, i + 1);
                    } else {
                        assert(cs.subrange(0, i + 1) =~= cs);
                    }
                }
                return None;
            },
        };
        total = match total.checked_add(step) {
            Some(v) => v,
            None => {
                proof {
                    if i + 1 < cs.len() {
                        lemma_forest_prefix(cs, i + 1);
                    } else {
                        assert(cs.subrange(0, i + 1) =~= cs);
                    }
                }
                return None;
            },
        };
        i = i + 1;
    }
    assert(cs.subrange(0, cs.len() as int) =~= cs);
    Some(total)
}

/// The number of folders in a node's subtree, the node included.
pub fn count_descendants_inclusive(node: &DirNode) -> (n: Option<usize>)
    ensures
        match n {
            Some(n) => n == 1 + forest_size(node_view(*node).children),
            None => 1 + forest_size(node_view(*node).children) > usize::MAX,
        },
{
    match count_descendants(node) {
        Some(d) => d.checked_add(1),
        None => None,
    }
}

/// The number of levels of a node's subtree, the node included.
pub fn tree_depth(node: &DirNode) -> (n: Option<usize>)
    ensures
        match n {
            Some(n) => n == 1 + forest_height(node_view(*node).children),
            None => 1 + forest_height(node_view(*node).children) > usize::MAX,
        },
    decreases node,
{
    let ghost cs = views(node.children@);
    proof {
        lemma_views(node.children@);
    }
    let mut deepest: usize = 0;
    let mut i: usize = 0;
    assert(cs.subrange(0, 0) =~= Seq::<DirNodeView>::empty());
    while i < node.children.len()
        invariant
            i <= cs.len(),
            cs == views(node.children@),
            cs.len() == node.children@.len(),
            forall|k: int| 0 <= k < cs.len() ==> #[trigger] cs[k] == node_view(node.children@[k]),
            deepest == forest_height(cs.subrange(0, i as int)),
        decreases cs.len() - i,
    {
        proof {
            lemma_forest_prefix(cs, i as int);
            assert(decreases_to!(node => node.children));
            assert(decreases_to!(node.children => node.children@));
            assert(decreases_to!(node.children@ => node.children@[i as int]));
        }
        let d = match tree_depth(&node.children[i]) {
            Some(d) => d,
            None => {
                assert(forest_height(cs.subrange(0, i + 1)) > usize::MAX);
                proof { lemma_height_prefix(cs, i + 1); }
                return None;
            },
        };
        if d > deepest {
            deepest = d;
        }
        i = i + 1;
    }
    assert(cs.subrange(0, cs.len() as int) =~= cs);
    deepest.checked_add(1)
}

proof fn lemma_height_prefix(s: Seq<DirNodeView>, k: int)
    requires
        0 <= k <= s.len(),
    ensures
        forest_height(s.subrange(0, k)) <= forest_height(s),
    decreases s.len() - k,
{
    if k < s.len() {
        lemma_height_prefix(s, k + 1);
        lemma_forest_prefix(s, k);
    } else {
        assert(s.subrange(0, k) =~= s);
    }
}

// ---------------------------------------------------------------------------
// The details pane
// ---------------------------------------------------------------------------

/// A name with a size.
pub open spec fn sized_entry(n: DirNodeView) -> (Seq<char>, u64) {
    (n.name, n.size)
}

/// The folders of at least `min` bytes, as names with sizes, in order.
pub open spec fn at_least(s: Seq<DirNodeView>, min: u64) -> Seq<(Seq<char>, u64)>
    decreases s.len(),
{
    if s.len() == 0 {
        Seq::empty()
    } else {
        let init = at_least(s.drop_last(), min);
        if s.last().size >= min {
            init.push(sized_entry(s.last()))
        } else {
            init
        }
    }
}

/// `x` placed into `s` just before the first entry that is not larger.
pub open spec fn insert_entry(x: (Seq<char>, u64), s: Seq<(Seq<char>, u64)>) -> Seq<(Seq<char>, u64)>
    decreases s.len(),
{
    if s.len() == 0 || x.1 >= s[0].1 {
        seq![x] + s
    } else {
        seq![s[0]] + insert_entry(x, s.subrange(1, s.len() as int))
    }
}

/// The stable ordering of entries by size, largest first.
pub open spec fn sort_entries(s: Seq<(Seq<char>, u64)>) -> Seq<(Seq<char>, u64)>
    decreases s.len(),
{
    if s.len() == 0 {
        Seq::empty()
    } else {
        insert_entry(s[0], sort_entries(s.subrange(1, s.len() as int)))
    }
}

/// The breakdown of a folder's children: the ones of at least `min` bytes,
/// largest first (equal sizes in their order), at most eight.
pub open spec fn breakdown_of(s: Seq<DirNodeView>, min: u64) -> Seq<(Seq<char>, u64)> {
    let sorted = sort_entries(at_least(s, min));
    if sorted.len() > 8 {
        sorted.take(8)
    } else {
        sorted
    }
}

/// The number of folders of at least `min` bytes.
pub open spec fn count_at_least(s: Seq<DirNodeView>, min: u64) -> nat {
    at_least(s, min).len()
}

/// The position of the last of the largest folders, or -1 when there are none.
pub open spec fn last_largest(s: Seq<DirNodeView>) -> int
    decreases s.len(),
{
    if s.len() == 0 {
        -1
    } else {
        let k = last_largest(s.drop_last());
        if k < 0 || s.last().size >= s[k].size {
            s.len() - 1
        } else {
            k
        }
    }
}

pub open spec fn entry_views(v: Seq<(String, u64)>) -> Seq<(Seq<char>, u64)> {
    v.map_values(|e: (String, u64)| (e.0@, e.1))
}

proof fn lemma_insert_entry(x: (Seq<char>, u64), s: Seq<(Seq<char>, u64)>, pos: int)
    requires
        0 <= pos <= s.len(),
        forall|k: int| 0 <= k < pos ==> x.1 < #[trigger] s[k].1,
        pos < s.len() ==> x.1 >= s[pos].1,
    ensures
        insert_entry(x, s) == s.insert(pos, x),
    decreases s.len(),
{
    if s.len() == 0 || x.1 >= s[0].1 {
        assert(insert_entry(x, s) =~= s.insert(pos, x));
    } else {
        let rest = s.subrange(1, s.len() as int);
        lemma_insert_entry(x, rest, pos - 1);
        assert(insert_entry(x, s) =~= s.insert(pos, x));
    }
}

/// The children of at least `min` bytes, as names with sizes, largest first
/// and at most eight (see [`breakdown_of`]).
pub fn child_breakdown(nodes: &Vec<DirNode>, min_bytes: u64) -> (b: Vec<(String, u64)>)
    ensures
        entry_views(b@) == breakdown_of(views(nodes@), min_bytes),
{
    let ghost vs = views(nodes@);
    proof {
        lemma_views(nodes@);
    }
    // The entries of at least `min_bytes`, in order.
    let mut picked: Vec<(String, u64)> = Vec::new();
    let mut i: usize = 0;
    assert(vs.take(0) =~= Seq::<DirNodeView>::empty());
    while i < nodes.len()
        invariant
            i <= vs.len(),
            vs == views(nodes@),
            vs.len() == nodes@.len(),
            forall|k: int| 0 <= k < vs.len() ==> #[trigger] vs[k] == node_view(nodes@[k]),
            entry_views(picked@) == at_least(vs.take(i as int), min_bytes),
        decreases vs.len() - i,
    {
        assert(vs.take(i + 1).drop_last() =~= vs.take(i as int));
        assert(vs.take(i + 1).last() == vs[i as int]);
        let node = &nodes[i];
        if node.size >= min_bytes {
            let ghost before = picked@;
            picked.push((node.name.clone(), node.size));
            assert(entry_views(picked@) =~= entry_views(before).push(sized_entry(vs[i as int])));
        }
        i = i + 1;
    }
    assert(vs.take(vs.len() as int) =~= vs);
    let ghost all = entry_views(picked@);
    // Stable insertion from the back: equal sizes keep their order.
    let mut sorted: Vec<(String, u64)> = Vec::new();
    let n = picked.len();
    while picked.len() > 0
        invariant
            entry_views(picked@) == all.subrange(0, picked@.len() as int),
            picked@.len() <= n,
            n == all.len(),
            entry_views(sorted@) == sort_entries(all.subrange(picked@.len() as int, n as int)),
        decreases picked@.len(),
    {
        let ghost k = picked@.len() - 1;
        let ghost before_picked = picked@;
        let x = picked.pop().unwrap();
        assert(entry_views(before_picked)[k] == (x.0@, x.1));
        let mut pos: usize = 0;
        while pos < sorted.len() && x.1 < sorted[pos].1
            invariant
                pos <= sorted@.len(),
                forall|j: int| 0 <= j < pos ==> x.1 < #[trigger] entry_views(sorted@)[j].1,
            decreases sorted@.len() - pos,
        {
            pos = pos + 1;
        }
        proof {
            lemma_insert_entry((x.0@, x.1), entry_views(sorted@), pos as int);
        }
        let ghost before = sorted@;
        sorted.insert(pos, x);
        assert(entry_views(sorted@) =~= entry_views(before).insert(pos as int, (x.0@, x.1)));
        assert(entry_views(picked@) =~= all.subrange(0, picked@.len() as int));
        proof {
            let tail = all.subrange(k, n as int);
            assert(tail[0] == all[k]);
            assert(tail.subrange(1, tail.len() as int) =~= all.subrange(k + 1, n as int));
        }
    }
    assert(all.subrange(0, n as int) =~= all);
    sorted.truncate(8);
    assert(entry_views(sorted@) =~= breakdown_of(vs, min_bytes));
    sorted
}

/// What the details pane shows about a row. The shares are given as a part
/// and a whole, for the pane to show as percentages; the breakdown's sizes
/// are parts of `size`.
pub struct DetailData {
    pub title: String,
    pub kind_label: String,
    pub path: String,
    pub size: u64,
    pub root_label: String,
    pub root_share: (u64, u64),
    pub total_share: (u64, u64),
    pub direct_children: usize,
    pub visible_children: usize,
    pub descendants: usize,
    pub tracked_depth: usize,
    pub largest_child: Option<(String, u64)>,
    pub breakdown: Vec<(String, u64)>,
}

/// The mathematical value of a [`DetailData`].
#[verifier::ext_equal]
pub struct DetailView {
    pub title: Seq<char>,
    pub kind_label: Seq<char>,
    pub path: Seq<char>,
    pub size: u64,
    pub root_label: Seq<char>,
    pub root_share: (u64, u64),
    pub total_share: (u64, u64),
    pub direct_children: nat,
    pub visible_children: nat,
    pub descendants: nat,
    pub tracked_depth: nat,
    pub largest_child: Option<(Seq<char>, u64)>,
    pub breakdown: Seq<(Seq<char>, u64)>,
}

pub open spec fn detail_view(d: DetailData) -> DetailView {
    DetailView {
        title: d.title@,
        kind_label: d.kind_label@,
        path: d.path@,
        size: d.size,
        root_label: d.root_label@,
        root_share: d.root_share,
        total_share: d.total_share,
        direct_children: d.direct_children as nat,
        visible_children: d.visible_children as nat,
        descendants: d.descendants as nat,
        tracked_depth: d.tracked_depth as nat,
        largest_child: match d.largest_child {
            Some(c) => Some((c.0@, c.1)),
            None => None,
        },
        breakdown: entry_views(d.breakdown@),
    }
}

/// The largest of the folders (the last of them on a tie), as a name with a size.
pub open spec fn largest_of(s: Seq<DirNodeView>) -> Option<(Seq<char>, u64)> {
    let k = last_largest(s);
    if k < 0 {
        None
    } else {
        Some(sized_entry(s[k]))
    }
}

/// What the details pane shows for a row, or `None` where it cannot be
/// computed: the row points at nothing, or a total or count does not fit.
pub open spec fn details_spec(s: AppView, kind: KindView) -> Option<DetailView> {
    let global = total_of(s.targets);
    if !kind_ok(s.targets, kind) || global > u64::MAX {
        None
    } else {
        match kind {
            KindView::Target(t) => {
                let tv = s.targets[t];
                if forest_size(tv.nodes) > usize::MAX || forest_height(tv.nodes) > usize::MAX {
                    None
                } else {
                    Some(DetailView {
                        title: tv.root_display,
                        kind_label: "scan root"@,
                        path: tv.root_display,
                        size: tv.total_size,
                        root_label: tv.root_display,
                        root_share: (tv.total_size, tv.total_size),
                        total_share: (tv.total_size, global as u64),
                        direct_children: tv.nodes.len(),
                        visible_children: count_at_least(tv.nodes, s.min_bytes),
                        descendants: forest_size(tv.nodes),
                        tracked_depth: forest_height(tv.nodes),
                        largest_child: largest_of(tv.nodes),
                        breakdown: breakdown_of(tv.nodes, s.min_bytes),
                    })
                }
            },
            KindView::Node(t, path) => {
                let tv = s.targets[t];
                let n = at_path(tv.nodes, path);
                if forest_size(n.children) > usize::MAX || 1 + forest_height(n.children) > usize::MAX {
                    None
                } else {
                    Some(DetailView {
                        title: n.name,
                        kind_label: "folder drawer"@,
                        path: n.path,
                        size: n.size,
                        root_label: tv.root_display,
                        root_share: (n.size, tv.total_size),
                        total_share: (n.size, global as u64),
                        direct_children: n.children.len(),
                        visible_children: count_at_least(n.children, s.min_bytes),
                        descendants: forest_size(n.children),
                        tracked_depth: 1 + forest_height(n.children),
                        largest_child: largest_of(n.children),
                        breakdown: breakdown_of(n.children, s.min_bytes),
                    })
                }
            },
        }
    }
}

fn largest_child(nodes: &Vec<DirNode>) -> (r: Option<(String, u64)>)
    ensures
        match r {
            Some(c) => largest_of(views(nodes@)) == Some((c.0@, c.1)),
            None => largest_of(views(nodes@)) is None,
        },
{
    let ghost vs = views(nodes@);
    proof {
        lemma_views(nodes@);
    }
    let mut best: Option<usize> = None;
    let mut i: usize = 0;
    while i < nodes.len()
        invariant
            i <= vs.len(),
            vs == views(nodes@),
            vs.len() == nodes@.len(),
            forall|k: int| 0 <= k < vs.len() ==> #[trigger] vs[k] == node_view(nodes@[k]),
            match best {
                Some(b) => b < i && b as int == last_largest(vs.take(i as int)),
                None => i == 0,
            },
        decreases vs.len() - i,
    {
        let ghost pre = vs.take(i as int);
        let ghost post = vs.take(i + 1);
        assert(post.drop_last() =~= pre);
        assert(post.last() == vs[i as int]);
        assert(last_largest(post) == (if last_largest(pre) < 0 || vs[i as int].size >= pre[last_largest(pre)].size {
            i as int
        } else {
            last_largest(pre)
        }));
        match best {
            Some(b) => {
                assert(pre[b as int] == vs[b as int]);
                if nodes[i].size >= nodes[b].size {
                    best = Some(i);
                }
            },
            None => {
                assert(pre =~= Seq::<DirNodeView>::empty());
                best = Some(i);
            },
        }
        i = i + 1;
    }
    assert(vs.take(vs.len() as int) =~= vs);
    match best {
        Some(b) => Some((nodes[b].name.clone(), nodes[b].size)),
        None => None,
    }
}

fn count_visible(nodes: &Vec<DirNode>, min_bytes: u64) -> (n: usize)
    ensures
        n == count_at_least(views(nodes@), min_bytes),
{
    let ghost vs = views(nodes@);
    proof {
        lemma_views(nodes@);
    }
    let mut n: usize = 0;
    let mut i: usize = 0;
    assert(vs.take(0) =~= Seq::<DirNodeView>::empty());
    while i < nodes.len()
        invariant
            i <= vs.len(),
            vs == views(nodes@),
            vs.len() == nodes@.len(),
            forall|k: int| 0 <= k < vs.len() ==> #[trigger] vs[k] == node_view(nodes@[k]),
            n == count_at_least(vs.take(i as int), min_bytes),
            n <= i,
        decreases vs.len() - i,
    {
        assert(vs.take(i + 1).drop_last() =~= vs.take(i as int));
        assert(vs.take(i + 1).last() == vs[i as int]);
        if nodes[i].size >= min_bytes {
            n = n + 1;
        }
        i = i + 1;
    }
    assert(vs.take(vs.len() as int) =~= vs);
    n
}

fn forest_counts(nodes: &Vec<DirNode>) -> (r: Option<(usize, usize)>)
    ensures
        match r {
            Some(c) => c.0 == forest_size(views(nodes@)) && c.1 == forest_height(views(nodes@)),
            None => forest_size(views(nodes@)) > usize::MAX || forest_height(views(nodes@)) > usize::MAX,
        },
{
    let ghost vs = views(nodes@);
    proof {
        lemma_views(nodes@);
    }
    let mut size: usize = 0;
    let mut height: usize = 0;
    let mut i: usize = 0;
    assert(vs.subrange(0, 0) =~= Seq::<DirNodeView>::empty());
    while i < nodes.len()
        invariant
            i <= vs.len(),
            vs == views(nodes@),
            vs.len() == nodes@.len(),
            forall|k: int| 0 <= k < vs.len() ==> #[trigger] vs[k] == node_view(nodes@[k]),
            size == forest_size(vs.subrange(0, i as int)),
            height == forest_height(vs.subrange(0, i as int)),
        decreases vs.len() - i,
    {
        proof {
            lemma_forest_prefix(vs, i as int);
            if i + 1 < vs.len() {
                lemma_forest_prefix(vs, i + 1);
            } else {
                assert(vs.subrange(0, i + 1) =~= vs);
            }
            lemma_height_prefix(vs, i + 1);
        }
        let c = match count_descendants_inclusive(&nodes[i]) {
            Some(c) => c,
            None => {
                return None;
            },
        };
        size = match size.checked_add(c) {
            Some(v) => v,
            None => {
                return None;
            },
        };
        let d = match tree_depth(&nodes[i]) {
            Some(d) => d,
            None => {
                return None;
            },
        };
        if d > height {
            height = d;
        }
        i = i + 1;
    }
    assert(vs.subrange(0, vs.len() as int) =~= vs);
    Some((size, height))
}

impl App {
    /// What the details pane shows for a row (see [`details_spec`]); `None`
    /// where the row points at nothing or a total or count overflows.
    pub fn detail_data(&self, item: &VisibleItem) -> (d: Option<DetailData>)
        ensures
            match d {
                Some(d) => details_spec(self@, kind_view(item.kind)) == Some(detail_view(d)),
                None => details_spec(self@, kind_view(item.kind)) is None,
            },
    {
        let ghost s = self@;
        let ghost ts = self@.targets;
        // The sum of the roots' totals.
        let mut global: u64 = 0;
        let mut i: usize = 0;
        assert(ts.take(0) =~= Seq::<TargetView>::empty());
        while i < self.targets.len()
            invariant
                i <= ts.len(),
                ts == self@.targets,
                ts.len() == self.targets@.len(),
                global == total_of(ts.take(i as int)),
            decreases ts.len() - i,
        {
            assert(ts.take(i + 1).drop_last() =~= ts.take(i as int));
            proof {
                lemma_total_prefix(ts, i + 1);
            }
            global = match global.checked_add(self.targets[i].total_size) {
                Some(g) => g,
                None => {
                    return None;
                },
            };
            i = i + 1;
        }
        assert(ts.take(i as int) =~= ts);
        match &item.kind {
            ItemKind::Target(target_idx) => {
                if *target_idx >= self.targets.len() {
                    return None;
                }
                let target = &self.targets[*target_idx];
                assert(ts[*target_idx as int] == target_view(*target));
                let (descendants, tracked_depth) = match forest_counts(&target.nodes) {
                    Some(c) => c,
                    None => {
                        return None;
                    },
                };
                proof {
                    lemma_views(target.nodes@);
                }
                let d = DetailData {
                    title: target.root_display.clone(),
                    kind_label: String::from_str("scan root"),
                    path: target.root_display.clone(),
                    size: target.total_size,
                    root_label: target.root_display.clone(),
                    root_share: (target.total_size, target.total_size),
                    total_share: (target.total_size, global),
                    direct_children: target.nodes.len(),
                    visible_children: count_visible(&target.nodes, self.min_bytes),
                    descendants,
                    tracked_depth,
                    largest_child: largest_child(&target.nodes),
                    breakdown: child_breakdown(&target.nodes, self.min_bytes),
                };
                assert(details_spec(s, kind_view(item.kind)) == Some(detail_view(d)));
                Some(d)
            },
            ItemKind::Node { target_idx, node_path } => {
                if *target_idx >= self.targets.len() {
                    return None;
                }
                let target = &self.targets[*target_idx];
                assert(ts[*target_idx as int] == target_view(*target));
                if !path_exists(&target.nodes, node_path.as_slice()) {
                    return None;
                }
                let node = node_at_path(&target.nodes, node_path.as_slice());
                let descendants = match count_descendants(node) {
                    Some(c) => c,
                    None => {
                        return None;
                    },
                };
                let tracked_depth = match tree_depth(node) {
                    Some(c) => c,
                    None => {
                        return None;
                    },
                };
                proof {
                    lemma_views(node.children@);
                }
                let d = DetailData {
                    title: node.name.clone(),
                    kind_label: String::from_str("folder drawer"),
                    path: node.path.clone(),
                    size: node.size,
                    root_label: target.root_display.clone(),
                    root_share: (node.size, target.total_size),
                    total_share: (node.size, global),
                    direct_children: node.children.len(),
                    visible_children: count_visible(&node.children, self.min_bytes),
                    descendants,
                    tracked_depth,
                    largest_child: largest_child(&node.children),
                    breakdown: child_breakdown(&node.children, self.min_bytes),
                };
                assert(details_spec(s, kind_view(item.kind)) == Some(detail_view(d)));
                Some(d)
            },
        }
    }
}

// ---------------------------------------------------------------------------
// Text of the drawers and the banner
// ---------------------------------------------------------------------------

fn str_equal(a: &str, b: &str) -> (r: bool)
    ensures
        r == (a@ == b@),
{
    let x = crate::text::chars_of(a);
    let y = crate::text::chars_of(b);
    if x.len() != y.len() {
        return false;
    }
    let mut i: usize = 0;
    while i < x.len()
        invariant
            i <= x@.len(),
            x@ == a@,
            y@ == b@,
            x@.len() == y@.len(),
            forall|k: int| 0 <= k < i ==> x@[k] == y@[k],
        decreases x@.len() - i,
    {
        if x[i] != y[i] {
            assert(x@[i as int] != y@[i as int]);
            assert(a@ != b@);
            return false;
        }
        i = i + 1;
    }
    assert(x@ =~= y@);
    true
}

/// The marker of a drawer row: the branch connector for a folder without
/// subfolders; with ASCII characters `[-]` or `[+]`, otherwise a down or
/// right triangle, for an open or a closed drawer.
pub open spec fn marker_of(expandable: bool, expanded: bool, c: Chars) -> Seq<char> {
    if !expandable {
        c.branch@
    } else if c.branch@ == "|-- "@ {
        if expanded { "[-]"@ } else { "[+]"@ }
    } else if expanded {
        "\u{25BC}"@
    } else {
        "\u{25B6}"@
    }
}

/// The marker of a drawer row (see [`marker_of`]).
pub fn drawer_marker(expandable: bool, expanded: bool, c: &Chars) -> (m: &'static str)
    ensures
        m@ == marker_of(expandable, expanded, *c),
{
    if !expandable {
        return c.branch;
    }
    if str_equal(c.branch, "|-- ") {
        if expanded {
            "[-]"
        } else {
            "[+]"
        }
    } else if expanded {
        "\u{25BC}"
    } else {
        "\u{25B6}"
    }
}

/// `s` written `n` times.
pub open spec fn repeat(s: Seq<char>, n: nat) -> Seq<char>
    decreases n,
{
    if n == 0 {
        Seq::empty()
    } else {
        repeat(s, (n - 1) as nat) + s
    }
}

fn repeat_str(s: &str, n: usize) -> (r: String)
    ensures
        r@ == repeat(s@, n as nat),
{
    let mut r = String::new();
    let mut i: usize = 0;
    while i < n
        invariant
            i <= n,
            r@ == repeat(s@, i as nat),
        decreases n - i,
    {
        r.append(s);
        i = i + 1;
    }
    r
}

impl App {
    /// The rows of a list of `item_count` rows that a drawers pane
    /// `pane_height` rows high shows, from the scroll position on, as far as
    /// the pane (less its two border rows) and the list reach: the indices
    /// from `r.0` up to `r.1`.
    pub fn drawer_window(&self, item_count: usize, pane_height: u16) -> (r: (usize, usize))
        ensures
            r.0 == if self.drawer_scroll <= item_count { self.drawer_scroll } else { item_count },
            r.1 as int == if item_count <= self.drawer_scroll + (if pane_height >= 2 { pane_height - 2 } else { 0 }) {
                item_count as int
            } else {
                self.drawer_scroll + (if pane_height >= 2 { pane_height - 2 } else { 0 })
            },
            r.0 <= r.1 <= item_count,
    {
        let rows: usize = pane_height.saturating_sub(2) as usize;
        let start = if self.drawer_scroll <= item_count { self.drawer_scroll } else { item_count };
        let end = if item_count - start <= rows { item_count } else { start + rows };
        (start, end)
    }
}

/// The text of a drawer row before its title: two blanks per level of
/// depth, and the loading marker `[~]` or the drawer's marker.
pub fn drawer_row_prefix(item: &VisibleItem, c: &Chars) -> (r: (String, String))
    ensures
        r.0@ == repeat("  "@, item.depth as nat),
        r.1@ == if item.is_loading { "[~]"@ } else { marker_of(item.expandable, item.expanded, *c) },
{
    let indent = repeat_str("  ", item.depth);
    let marker = if item.is_loading {
        String::from_str("[~]")
    } else {
        String::from_str(drawer_marker(item.expandable, item.expanded, c))
    };
    (indent, marker)
}

/// The four framed lines of the application banner.
pub open spec fn banner_spec(c: Chars) -> Seq<Seq<char>> {
    let hz_line = repeat(c.hz@, 50);
    seq![
        c.tl@ + hz_line + c.tr@,
        c.vt@ + "  "@ + c.bolt@ + " rusize -- Disk Scanner                       "@ + c.vt@,
        c.vt@ + "  High-Speed  |  Multi-Threaded  |  Drawer View   "@ + c.vt@,
        c.bl@ + hz_line + c.br@,
    ]
}

/// The lines of the application banner, framed with the platform's characters.
pub fn banner_lines(c: &Chars) -> (lines: Vec<String>)
    ensures
        crate::services::report::string_views(lines@) == banner_spec(*c),
{
    let hz_line = repeat_str(c.hz, 50);
    let mut top = String::from_str(c.tl);
    top.append(hz_line.as_str());
    top.append(c.tr);
    let mut title = String::from_str(c.vt);
    title.append("  ");
    title.append(c.bolt);
    title.append(" rusize -- Disk Scanner                       ");
    title.append(c.vt);
    let mut motto = String::from_str(c.vt);
    motto.append("  High-Speed  |  Multi-Threaded  |  Drawer View   ");
    motto.append(c.vt);
    let mut bottom = String::from_str(c.bl);
    bottom.append(hz_line.as_str());
    bottom.append(c.br);
    let lines = vec![top, title, motto, bottom];
    assert(crate::services::report::string_views(lines@) =~= banner_spec(*c));
    lines
}

// ---------------------------------------------------------------------------
// What the explorer keeps
// ---------------------------------------------------------------------------

proof fn lemma_replaced_at_path(nodes: Seq<DirNodeView>, path: Seq<int>, new: DirNodeView)
    requires
        path_ok(nodes, path),
    ensures
        path_ok(replaced_at(nodes, path, new), path),
        at_path(replaced_at(nodes, path, new), path) == new,
    decreases path.len(),
{
    if path.len() > 1 {
        lemma_replaced_at_path(nodes[path[0]].children, path.skip(1), new);
    }
}

/// A folder is asked for at most once while it loads: once a row's folder
/// has been marked as loading ([`App::ensure_item_loaded`]), marking it again
/// asks for nothing and changes nothing.
pub proof fn lemma_load_requested_once(s: AppView, kind: KindView)
    requires
        kind_ok(s.targets, kind),
    ensures
        mark_loading(mark_loading(s, kind).0, kind).1.len() == 0,
        mark_loading(mark_loading(s, kind).0, kind).0 == mark_loading(s, kind).0,
{
    match kind {
        KindView::Node(t, path) => {
            let n = at_path(s.targets[t].nodes, path);
            if !n.children_loaded && !n.is_loading {
                lemma_replaced_at_path(s.targets[t].nodes, path, DirNodeView { is_loading: true, ..n });
            }
        },
        KindView::Target(_) => {},
    }
}

/// Keeping the selection on the list leaves it on a row whenever there is one.
pub proof fn lemma_clamp_selects_row(s: AppView)
    ensures
        items_of(clamp_spec(s)) == items_of(s),
        items_of(s).len() > 0 ==> clamp_spec(s).selected < items_of(s).len(),
        items_of(s).len() == 0 ==> clamp_spec(s).selected == 0,
{
}

/// Moving the selection keeps it on a row whenever there is one.
pub proof fn lemma_move_stays_on_list(s: AppView, delta: int)
    ensures
        items_of(move_spec(s, delta)) == items_of(s),
        items_of(s).len() > 0 ==> move_spec(s, delta).selected < items_of(s).len(),
{
}

/// Every folder row of the drawer list, at every depth, stands for a folder
/// that exists and has at least the minimum size.
pub proof fn lemma_rows_at_least_min(s: AppView)
    ensures
        forall|k: int|
            0 <= k < items_of(s).len() ==> (#[trigger] items_of(s)[k].kind matches KindView::Node(t, p) ==> path_ok(
                s.targets[t].nodes,
                p,
            ) && at_path(s.targets[t].nodes, p).size >= s.min_bytes),
{
    lemma_items_ok(s.expanded, s.min_bytes, s.targets, 0);
}

/// Whether a folder has at least `min` bytes.
pub open spec fn has_at_least(min: u64) -> spec_fn(DirNodeView) -> bool {
    |c: DirNodeView| c.size >= min
}

proof fn lemma_count_at_least(s: Seq<DirNodeView>, min: u64)
    ensures
        count_at_least(s, min) == s.filter(has_at_least(min)).len(),
    decreases s.len(),
{
    reveal(Seq::filter);
    if s.len() > 0 {
        lemma_count_at_least(s.drop_last(), min);
    }
}

/// The details of a row count as visible exactly the direct subfolders of
/// the row's root or folder that have at least the minimum size, and so never
/// more than its direct subfolders.
pub proof fn lemma_details_visible_children(s: AppView, kind: KindView)
    ensures
        details_spec(s, kind) matches Some(d) ==> {
            let kids = match kind {
                KindView::Target(t) => s.targets[t].nodes,
                KindView::Node(t, p) => at_path(s.targets[t].nodes, p).children,
            };
            &&& d.direct_children == kids.len()
            &&& d.visible_children == kids.filter(has_at_least(s.min_bytes)).len()
            &&& d.visible_children <= d.direct_children
        },
{
    let kids = match kind {
        KindView::Target(t) => s.targets[t].nodes,
        KindView::Node(t, p) => at_path(s.targets[t].nodes, p).children,
    };
    lemma_count_at_least(kids, s.min_bytes);
    kids.lemma_filter_len(has_at_least(s.min_bytes));
}

/// The vi keys move as the arrows do: `k` as Up and `j` as Down. On a row of
/// the list, Up selects the row above (staying on the first row) and Down the
/// row below (staying on the last row; a list of rows fits in memory, so its
/// length is at most `usize::MAX`).
pub proof fn lemma_vertical_keys(s: AppView)
    ensures
        key_spec(s, Key::Char('k')) == key_spec(s, Key::Up),
        key_spec(s, Key::Char('j')) == key_spec(s, Key::Down),
        s.selected < items_of(s).len() ==> key_spec(s, Key::Up).0.selected == (if s.selected > 0 {
            s.selected - 1
        } else {
            0
        }),
        s.selected < items_of(s).len() <= usize::MAX ==> key_spec(s, Key::Down).0.selected == (if s.selected + 1 < items_of(
            s,
        ).len() {
            s.selected + 1
        } else {
            s.selected as int
        }),
{
    let up = key_action(s, Key::Up).0;
    let down = key_action(s, Key::Down).0;
    assert(loaded_spec(up).0.selected == up.selected);
    assert(loaded_spec(down).0.selected == down.selected);
}

/// A click on a drawer row picks the row that the pane draws there: item `i`,
/// drawn on the screen row `drawers_area.y + 1 + (i - drawer_scroll)` when it
/// lies in the window of rows shown, is picked by a click on that row.
pub proof fn lemma_click_picks_drawn_row(s: AppView, i: int)
    requires
        s.drawer_scroll <= i < items_of(s).len(),
        i - s.drawer_scroll < s.layout.drawer_rows,
        s.layout.drawers_area.y + 1 + (i - s.drawer_scroll) <= u16::MAX,
    ensures
        drawer_index_spec(s, (s.layout.drawers_area.y + 1 + (i - s.drawer_scroll)) as u16) == Some(i),
{
}

/// A click picks only a drawn row: when it picks item `i`, the item is in the
/// window of rows shown, at or after the scroll position, and the click is
/// on the screen row where the pane draws it.
pub proof fn lemma_click_only_drawn_rows(s: AppView, row: u16)
    ensures
        drawer_index_spec(s, row) matches Some(i) ==> {
            &&& s.drawer_scroll <= i < items_of(s).len()
            &&& i - s.drawer_scroll < s.layout.drawer_rows
            &&& row == s.layout.drawers_area.y + 1 + (i - s.drawer_scroll)
        },
{
}

} // verus!
