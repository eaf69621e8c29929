//! Laws on the rows of the drawer list: what a frame keeps, and what toggling
//! a drawer twice gives back.

use vstd::prelude::*;
use crate::scanner::DirNodeView;
use crate::display::{
    at_path, clamp_spec, first_key_index, frame_spec, layout_of, lemma_clamp_selects_row, loaded_spec, sat_inc,
    selected_item, FrameAreas, items_of, kind_ok, lemma_items_ok, mark_loading, node_items, path_ok, replaced_at,
    target_items, toggle_spec, AppView, ItemView, KindView, TargetView,
};

verus! {

/// Two forests with the same folders in the same places, with the same paths,
/// sizes and subfolder flags: they differ at most in what is loading or loaded.
spec fn same_shape(a: Seq<DirNodeView>, b: Seq<DirNodeView>) -> bool
    decreases a,
{
    &&& a.len() == b.len()
    &&& forall|i: int|
        #![trigger a[i]]
        0 <= i < a.len() ==> {
            &&& a[i].path == b[i].path
            &&& a[i].size == b[i].size
            &&& a[i].has_children == b[i].has_children
            &&& same_shape(a[i].children, b[i].children)
        }
}

/// Two lists of roots with the same names and forests of the same shape.
spec fn targets_shape(a: Seq<TargetView>, b: Seq<TargetView>) -> bool {
    &&& a.len() == b.len()
    &&& forall|t: int|
        #![trigger a[t]]
        0 <= t < a.len() ==> a[t].root_display == b[t].root_display && same_shape(a[t].nodes, b[t].nodes)
}

/// The first `n` rows of `a` and `b` have the same keys and the same
/// expandable flags.
spec fn rows_agree(a: Seq<ItemView>, b: Seq<ItemView>, n: int) -> bool {
    &&& 0 <= n <= a.len()
    &&& n <= b.len()
    &&& forall|j: int| #![trigger a[j]] 0 <= j < n ==> a[j].key == b[j].key && a[j].expandable == b[j].expandable
}

/// All rows agree.
spec fn rows_match(a: Seq<ItemView>, b: Seq<ItemView>) -> bool {
    a.len() == b.len() && rows_agree(a, b, a.len() as int)
}

/// No row has the key `k`.
spec fn no_key(a: Seq<ItemView>, k: Seq<char>) -> bool {
    forall|j: int| #![trigger a[j]] 0 <= j < a.len() ==> a[j].key != k
}

/// Two sets of open drawers that agree on every key but `k`.
spec fn differ_at(e1: Set<Seq<char>>, e2: Set<Seq<char>>, k: Seq<char>) -> bool {
    forall|x: Seq<char>| x != k ==> e1.contains(x) == e2.contains(x)
}

proof fn lemma_shape_refl(a: Seq<DirNodeView>)
    ensures
        same_shape(a, a),
    decreases a,
{
    assert forall|i: int| #![trigger a[i]] 0 <= i < a.len() implies same_shape(a[i].children, a[i].children) by {
        assert(decreases_to!(a => a[i]));
        lemma_shape_refl(a[i].children);
    }
}

/// Marking a folder as loading keeps the forest's shape.
proof fn lemma_shape_mark(nodes: Seq<DirNodeView>, path: Seq<int>)
    requires
        path_ok(nodes, path),
    ensures
        same_shape(
            nodes,
            replaced_at(nodes, path, DirNodeView { is_loading: true, ..at_path(nodes, path) }),
        ),
    decreases path.len(),
{
    let r = replaced_at(nodes, path, DirNodeView { is_loading: true, ..at_path(nodes, path) });
    let h = path[0];
    if path.len() > 1 {
        lemma_shape_mark(nodes[h].children, path.skip(1));
    }
    lemma_shape_refl(nodes);
    assert forall|i: int| #![trigger nodes[i]] 0 <= i < nodes.len() implies {
        &&& nodes[i].path == r[i].path
        &&& nodes[i].size == r[i].size
        &&& nodes[i].has_children == r[i].has_children
        &&& same_shape(nodes[i].children, r[i].children)
    } by {
        if i == h && path.len() <= 1 {
            lemma_shape_refl(nodes[i].children);
        } else if i != h {
            assert(r[i] == nodes[i]);
        }
    }
}

proof fn lemma_agree_concat(a1: Seq<ItemView>, b1: Seq<ItemView>, a2: Seq<ItemView>, b2: Seq<ItemView>, n: int)
    requires
        rows_match(a1, a2),
        rows_agree(b1, b2, n),
    ensures
        rows_agree(a1 + b1, a2 + b2, a1.len() + n),
{
    assert forall|j: int| #![trigger (a1 + b1)[j]] 0 <= j < a1.len() + n implies (a1 + b1)[j].key == (a2 + b2)[j].key
        && (a1 + b1)[j].expandable == (a2 + b2)[j].expandable by {
        if j < a1.len() {
            assert((a1 + b1)[j] == a1[j] && (a2 + b2)[j] == a2[j]);
        } else {
            assert((a1 + b1)[j] == b1[j - a1.len()] && (a2 + b2)[j] == b2[j - a1.len()]);
        }
    }
}

proof fn lemma_agree_extend(a: Seq<ItemView>, b: Seq<ItemView>, x: Seq<ItemView>, y: Seq<ItemView>, n: int)
    requires
        rows_agree(a, b, n),
    ensures
        rows_agree(a + x, b + y, n),
{
    assert forall|j: int| #![trigger (a + x)[j]] 0 <= j < n implies (a + x)[j].key == (b + y)[j].key && (a
        + x)[j].expandable == (b + y)[j].expandable by {
        assert((a + x)[j] == a[j] && (b + y)[j] == b[j]);
    }
}

proof fn lemma_no_key_parts(a: Seq<ItemView>, b: Seq<ItemView>, k: Seq<char>)
    requires
        no_key(a + b, k),
    ensures
        no_key(a, k),
        no_key(b, k),
{
    assert forall|j: int| #![trigger a[j]] 0 <= j < a.len() implies a[j].key != k by {
        assert((a + b)[j] == a[j]);
    }
    assert forall|j: int| #![trigger b[j]] 0 <= j < b.len() implies b[j].key != k by {
        assert((a + b)[a.len() + j] == b[j]);
    }
}

/// With no row of key `k`, opening or closing `k` changes no row's key or
/// expandable flag, nor their number; nor does a change of loading states
/// alone, with the same drawers open.
proof fn lemma_nodes_no_key(
    e1: Set<Seq<char>>,
    e2: Set<Seq<char>>,
    k: Seq<char>,
    min: u64,
    t: int,
    a: Seq<DirNodeView>,
    b: Seq<DirNodeView>,
    i: int,
    parent: Seq<int>,
    depth: nat,
)
    requires
        differ_at(e1, e2, k),
        same_shape(a, b),
        e1 == e2 || no_key(node_items(e1, min, t, a, i, parent, depth), k),
    ensures
        rows_match(node_items(e1, min, t, a, i, parent, depth), node_items(e2, min, t, b, i, parent, depth)),
    decreases a, a.len() - i,
{
    if 0 <= i < a.len() {
        assert(a[i].size == b[i].size && a[i].path == b[i].path && a[i].has_children == b[i].has_children);
        if a[i].size < min {
            lemma_nodes_no_key(e1, e2, k, min, t, a, b, i + 1, parent, depth);
        } else {
            let f1 = node_items(e1, min, t, a, i, parent, depth);
            let f2 = node_items(e2, min, t, b, i, parent, depth);
            let path = parent.push(i);
            let h1 = f1[0];
            let key = h1.key;
            if e1 != e2 {
                assert(key != k);
            }
            let open = e1.contains(key);
            assert(e2.contains(key) == open);
            let c1 = if open { node_items(e1, min, t, a[i].children, 0, path, sat_inc(depth)) } else { Seq::empty() };
            let c2 = if open { node_items(e2, min, t, b[i].children, 0, path, sat_inc(depth)) } else { Seq::empty() };
            let r1 = node_items(e1, min, t, a, i + 1, parent, depth);
            let r2 = node_items(e2, min, t, b, i + 1, parent, depth);
            let g1 = seq![h1];
            let g2 = seq![f2[0]];
            assert(f1 == g1 + c1 + r1);
            assert(f2 == g2 + c2 + r2);
            if e1 != e2 {
                lemma_no_key_parts(g1 + c1, r1, k);
                lemma_no_key_parts(g1, c1, k);
            }
            if open {
                assert(decreases_to!(a => a[i]));
                lemma_nodes_no_key(e1, e2, k, min, t, a[i].children, b[i].children, 0, path, sat_inc(depth));
            }
            lemma_nodes_no_key(e1, e2, k, min, t, a, b, i + 1, parent, depth);
            assert(rows_match(g1, g2));
            lemma_agree_concat(g1, c1, g2, c2, c1.len() as int);
            lemma_agree_concat(g1 + c1, r1, g2 + c2, r2, r1.len() as int);
        }
    }
}

/// Where the first row of key `k` is, opening or closing `k` changes no key
/// or expandable flag up to and including that row.
proof fn lemma_nodes_first_key(
    e1: Set<Seq<char>>,
    e2: Set<Seq<char>>,
    k: Seq<char>,
    min: u64,
    t: int,
    a: Seq<DirNodeView>,
    b: Seq<DirNodeView>,
    i: int,
    parent: Seq<int>,
    depth: nat,
    p: int,
)
    requires
        differ_at(e1, e2, k),
        same_shape(a, b),
        0 <= p < node_items(e1, min, t, a, i, parent, depth).len(),
        node_items(e1, min, t, a, i, parent, depth)[p].key == k,
        no_key(node_items(e1, min, t, a, i, parent, depth).take(p), k),
    ensures
        rows_agree(node_items(e1, min, t, a, i, parent, depth), node_items(e2, min, t, b, i, parent, depth), p + 1),
    decreases a, a.len() - i,
{
    if 0 <= i < a.len() {
        assert(a[i].size == b[i].size && a[i].path == b[i].path && a[i].has_children == b[i].has_children);
        if a[i].size < min {
            lemma_nodes_first_key(e1, e2, k, min, t, a, b, i + 1, parent, depth, p);
        } else {
            let f1 = node_items(e1, min, t, a, i, parent, depth);
            let f2 = node_items(e2, min, t, b, i, parent, depth);
            let path = parent.push(i);
            let h1 = f1[0];
            let key = h1.key;
            let g1 = seq![h1];
            let g2 = seq![f2[0]];
            assert(rows_match(g1, g2));
            if p == 0 {
                assert(rows_agree(f1, f2, 1));
            } else {
                assert(f1.take(p)[0] == h1);
                assert(key != k);
                let open = e1.contains(key);
                assert(e2.contains(key) == open);
                let c1 = if open { node_items(e1, min, t, a[i].children, 0, path, sat_inc(depth)) } else { Seq::empty() };
                let c2 = if open { node_items(e2, min, t, b[i].children, 0, path, sat_inc(depth)) } else { Seq::empty() };
                let r1 = node_items(e1, min, t, a, i + 1, parent, depth);
                let r2 = node_items(e2, min, t, b, i + 1, parent, depth);
                assert(f1 == g1 + c1 + r1);
                assert(f2 == g2 + c2 + r2);
                if p - 1 < c1.len() {
                    assert(open);
                    assert(c1[p - 1] == f1[p]);
                    assert forall|j: int| #![trigger c1.take(p - 1)[j]] 0 <= j < p - 1 implies c1.take(p - 1)[j].key != k by {
                        assert(c1.take(p - 1)[j] == f1.take(p)[j + 1]);
                    }
                    assert(decreases_to!(a => a[i]));
                    lemma_nodes_first_key(e1, e2, k, min, t, a[i].children, b[i].children, 0, path, sat_inc(depth), p - 1);
                    lemma_agree_concat(g1, c1, g2, c2, p - 1 + 1);
                    lemma_agree_extend(g1 + c1, g2 + c2, r1, r2, p + 1);
                } else {
                    let q = p - 1 - c1.len();
                    assert forall|j: int| #![trigger c1[j]] 0 <= j < c1.len() implies c1[j].key != k by {
                        assert(c1[j] == f1.take(p)[j + 1]);
                    }
                    if open {
                        assert(decreases_to!(a => a[i]));
                        lemma_nodes_no_key(e1, e2, k, min, t, a[i].children, b[i].children, 0, path, sat_inc(depth));
                    }
                    assert(r1[q] == f1[p]);
                    assert forall|j: int| #![trigger r1.take(q)[j]] 0 <= j < q implies r1.take(q)[j].key != k by {
                        assert(r1.take(q)[j] == f1.take(p)[1 + c1.len() + j]);
                    }
                    lemma_nodes_first_key(e1, e2, k, min, t, a, b, i + 1, parent, depth, q);
                    lemma_agree_concat(g1, c1, g2, c2, c1.len() as int);
                    lemma_agree_concat(g1 + c1, r1, g2 + c2, r2, q + 1);
                }
            }
        }
    }
}

/// `lemma_nodes_no_key` for the rows of the roots.
proof fn lemma_targets_no_key(
    e1: Set<Seq<char>>,
    e2: Set<Seq<char>>,
    k: Seq<char>,
    min: u64,
    ts1: Seq<TargetView>,
    ts2: Seq<TargetView>,
    t: int,
)
    requires
        differ_at(e1, e2, k),
        targets_shape(ts1, ts2),
        e1 == e2 || no_key(target_items(e1, min, ts1, t), k),
    ensures
        rows_match(target_items(e1, min, ts1, t), target_items(e2, min, ts2, t)),
    decreases ts1.len() - t,
{
    if 0 <= t < ts1.len() {
        assert(ts1[t].root_display == ts2[t].root_display && same_shape(ts1[t].nodes, ts2[t].nodes));
        let f1 = target_items(e1, min, ts1, t);
        let f2 = target_items(e2, min, ts2, t);
        let h1 = f1[0];
        let key = h1.key;
        if e1 != e2 {
            assert(key != k);
        }
        let open = e1.contains(key);
        assert(e2.contains(key) == open);
        let c1 = if open { node_items(e1, min, t, ts1[t].nodes, 0, Seq::empty(), 1) } else { Seq::empty() };
        let c2 = if open { node_items(e2, min, t, ts2[t].nodes, 0, Seq::empty(), 1) } else { Seq::empty() };
        let r1 = target_items(e1, min, ts1, t + 1);
        let r2 = target_items(e2, min, ts2, t + 1);
        let g1 = seq![h1];
        let g2 = seq![f2[0]];
        assert(f1 == g1 + c1 + r1);
        assert(f2 == g2 + c2 + r2);
        if e1 != e2 {
            lemma_no_key_parts(g1 + c1, r1, k);
            lemma_no_key_parts(g1, c1, k);
        }
        if open {
            lemma_nodes_no_key(e1, e2, k, min, t, ts1[t].nodes, ts2[t].nodes, 0, Seq::empty(), 1);
        }
        lemma_targets_no_key(e1, e2, k, min, ts1, ts2, t + 1);
        assert(rows_match(g1, g2));
        lemma_agree_concat(g1, c1, g2, c2, c1.len() as int);
        lemma_agree_concat(g1 + c1, r1, g2 + c2, r2, r1.len() as int);
    }
}

/// `lemma_nodes_first_key` for the rows of the roots.
proof fn lemma_targets_first_key(
    e1: Set<Seq<char>>,
    e2: Set<Seq<char>>,
    k: Seq<char>,
    min: u64,
    ts1: Seq<TargetView>,
    ts2: Seq<TargetView>,
    t: int,
    p: int,
)
    requires
        differ_at(e1, e2, k),
        targets_shape(ts1, ts2),
        0 <= p < target_items(e1, min, ts1, t).len(),
        target_items(e1, min, ts1, t)[p].key == k,
        no_key(target_items(e1, min, ts1, t).take(p), k),
    ensures
        rows_agree(target_items(e1, min, ts1, t), target_items(e2, min, ts2, t), p + 1),
    decreases ts1.len() - t,
{
    if 0 <= t < ts1.len() {
        assert(ts1[t].root_display == ts2[t].root_display && same_shape(ts1[t].nodes, ts2[t].nodes));
        let f1 = target_items(e1, min, ts1, t);
        let f2 = target_items(e2, min, ts2, t);
        let h1 = f1[0];
        let key = h1.key;
        let g1 = seq![h1];
        let g2 = seq![f2[0]];
        assert(rows_match(g1, g2));
        if p == 0 {
            assert(rows_agree(f1, f2, 1));
        } else {
            assert(f1.take(p)[0] == h1);
            assert(key != k);
            let open = e1.contains(key);
            assert(e2.contains(key) == open);
            let c1 = if open { node_items(e1, min, t, ts1[t].nodes, 0, Seq::empty(), 1) } else { Seq::empty() };
            let c2 = if open { node_items(e2, min, t, ts2[t].nodes, 0, Seq::empty(), 1) } else { Seq::empty() };
            let r1 = target_items(e1, min, ts1, t + 1);
            let r2 = target_items(e2, min, ts2, t + 1);
            assert(f1 == g1 + c1 + r1);
            assert(f2 == g2 + c2 + r2);
            if p - 1 < c1.len() {
                assert(open);
                assert(c1[p - 1] == f1[p]);
                assert forall|j: int| #![trigger c1.take(p - 1)[j]] 0 <= j < p - 1 implies c1.take(p - 1)[j].key != k by {
                    assert(c1.take(p - 1)[j] == f1.take(p)[j + 1]);
                }
                lemma_nodes_first_key(e1, e2, k, min, t, ts1[t].nodes, ts2[t].nodes, 0, Seq::empty(), 1, p - 1);
                lemma_agree_concat(g1, c1, g2, c2, p - 1 + 1);
                lemma_agree_extend(g1 + c1, g2 + c2, r1, r2, p + 1);
            } else {
                let q = p - 1 - c1.len();
                assert forall|j: int| #![trigger c1[j]] 0 <= j < c1.len() implies c1[j].key != k by {
                    assert(c1[j] == f1.take(p)[j + 1]);
                }
                if open {
                    lemma_nodes_no_key(e1, e2, k, min, t, ts1[t].nodes, ts2[t].nodes, 0, Seq::empty(), 1);
                }
                assert(r1[q] == f1[p]);
                assert forall|j: int| #![trigger r1.take(q)[j]] 0 <= j < q implies r1.take(q)[j].key != k by {
                    assert(r1.take(q)[j] == f1.take(p)[1 + c1.len() + j]);
                }
                lemma_targets_first_key(e1, e2, k, min, ts1, ts2, t + 1, q);
                lemma_agree_concat(g1, c1, g2, c2, c1.len() as int);
                lemma_agree_concat(g1 + c1, r1, g2 + c2, r2, q + 1);
            }
        }
    }
}

proof fn lemma_first_key_index(items: Seq<ItemView>, key: Seq<char>, from: int)
    requires
        0 <= from,
        first_key_index(items, key, from) >= 0,
    ensures
        from <= first_key_index(items, key, from) < items.len(),
        items[first_key_index(items, key, from)].key == key,
        forall|j: int| from <= j < first_key_index(items, key, from) ==> #[trigger] items[j].key != key,
    decreases items.len() - from,
{
    if from < items.len() && items[from].key != key {
        lemma_first_key_index(items, key, from + 1);
    }
}

/// Marking a row's folder as loading keeps the shape of every root's forest.
proof fn lemma_mark_keeps_shape(s: AppView, kind: KindView)
    requires
        kind_ok(s.targets, kind),
    ensures
        targets_shape(s.targets, mark_loading(s, kind).0.targets),
        mark_loading(s, kind).0.expanded == s.expanded,
        mark_loading(s, kind).0.selected == s.selected,
        mark_loading(s, kind).0.min_bytes == s.min_bytes,
{
    let ts = s.targets;
    let ts2 = mark_loading(s, kind).0.targets;
    assert forall|t: int| #![trigger ts[t]] 0 <= t < ts.len() implies ts[t].root_display == ts2[t].root_display
        && same_shape(ts[t].nodes, ts2[t].nodes) by {
        lemma_shape_refl(ts[t].nodes);
        match kind {
            KindView::Node(kt, path) => {
                if t == kt {
                    lemma_shape_mark(ts[t].nodes, path);
                }
            },
            KindView::Target(_) => {},
        }
    }
}

/// Toggling the selected drawer twice leaves the open drawers as they were,
/// when no row above the selected one has the same key.
pub proof fn lemma_toggle_twice(s: AppView)
    requires
        s.selected < items_of(s).len() ==> first_key_index(items_of(s), items_of(s)[s.selected as int].key, 0)
            == s.selected,
    ensures
        toggle_spec(toggle_spec(s).0).0.expanded == s.expanded,
{
    let items = items_of(s);
    let sel = s.selected as int;
    if sel < items.len() && items[sel].expandable {
        let item = items[sel];
        let k = item.key;
        lemma_first_key_index(items, k, 0);
        assert(no_key(items.take(sel), k));
        let s1 = toggle_spec(s).0;
        if s.expanded.contains(k) {
            assert(s1.targets == s.targets);
            assert(differ_at(s.expanded, s1.expanded, k));
            assert(targets_shape(s.targets, s1.targets)) by {
                assert forall|t: int| #![trigger s.targets[t]] 0 <= t < s.targets.len() implies same_shape(
                    s.targets[t].nodes,
                    s1.targets[t].nodes,
                ) by {
                    lemma_shape_refl(s.targets[t].nodes);
                }
            }
            lemma_targets_first_key(s.expanded, s1.expanded, k, s.min_bytes, s.targets, s1.targets, 0, sel);
            assert(items_of(s1)[sel].key == k);
            assert(s1.expanded.insert(k) =~= s.expanded);
            assert(toggle_spec(s1).0.expanded =~= s.expanded);
        } else {
            lemma_items_ok(s.expanded, s.min_bytes, s.targets, 0);
            assert(kind_ok(s.targets, item.kind));
            lemma_mark_keeps_shape(s, item.kind);
            assert(differ_at(s.expanded, s1.expanded, k));
            lemma_targets_first_key(s.expanded, s1.expanded, k, s.min_bytes, s.targets, s1.targets, 0, sel);
            assert(items_of(s1)[sel].key == k);
            assert(s1.expanded.remove(k) =~= s.expanded);
        }
    }
}

/// After a frame is prepared, the drawer list has as many rows as before; the
/// selection is on a row whenever there is one (on the first place when there
/// is none); the panes are those of the frame; and the selected row is among
/// the rows that the drawers pane shows.
pub proof fn lemma_frame_keeps_selection(s: AppView, areas: FrameAreas)
    ensures
        ({
            let f = frame_spec(s, areas).0;
            let rows: int = if f.layout.drawer_rows >= 1 { f.layout.drawer_rows as int } else { 1 };
            &&& items_of(f).len() == items_of(s).len()
            &&& items_of(s).len() > 0 ==> f.selected < items_of(s).len()
            &&& items_of(s).len() == 0 ==> f.selected == 0
            &&& f.layout == layout_of(areas)
            &&& f.drawer_scroll <= f.selected < f.drawer_scroll + rows
        }),
{
    let s1 = clamp_spec(s);
    lemma_clamp_selects_row(s);
    let s2 = loaded_spec(s1).0;
    match selected_item(s1) {
        Some(item) => {
            lemma_items_ok(s1.expanded, s1.min_bytes, s1.targets, 0);
            assert(item == items_of(s1)[s1.selected as int]);
            assert(kind_ok(s1.targets, item.kind));
            lemma_mark_keeps_shape(s1, item.kind);
            lemma_targets_no_key(s1.expanded, s2.expanded, Seq::empty(), s1.min_bytes, s1.targets, s2.targets, 0);
        },
        None => {},
    }
    assert(items_of(s2).len() == items_of(s).len());
}

} // verus!
