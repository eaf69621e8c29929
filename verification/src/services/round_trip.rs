//! What the GUI reads back from a text report that the library wrote.

use vstd::prelude::*;
use crate::models::dir_node::DirNode;
use crate::services::gui::{
    branch_chunk, chunk_at, finished_root, has_size, indent_chunk, insert_at, is_blank, is_whitespace,
    last_close, last_open, leaf, line_name, line_readable, line_size, name_start, parse_lines, parse_report,
    parse_step, prefix_depth, prefix_end, report_readable, sized_name, GuiNodeView,
};
use crate::services::report::{child_indent, entry_line, tree_lines, tree_prefix};
use crate::text::{decimal, digit_char};
use crate::utils::{as_f64_value, div_round_half_even, fixed2, format_size_spec};

verus! {

// ---------------------------------------------------------------------------
// What is read back
// ---------------------------------------------------------------------------

/// A top-level name that the reader takes back as written: not empty, and
/// not opening with blanks that, with the blank before the size, make three
/// (the reader would take them, with the blank that opens the line, for an
/// indentation step).
pub open spec fn top_name_reads_back(name: Seq<char>) -> bool {
    let t = name + seq![' ', '('];
    name.len() > 0 && !(t[0] == ' ' && t[1] == ' ' && t[2] == ' ')
}

/// A folder below the top level as the GUI reads it back: its name, no path
/// (paths below the top level are stated apart, see `node_paths`), its size
/// text, and its subfolders read back the same way.
pub open spec fn read_back_node(c: DirNode) -> GuiNodeView
    decreases c,
{
    GuiNodeView {
        name: c.name@,
        path: Seq::empty(),
        size_str: format_size_spec(c.size as nat),
        children: read_back_all(c.children@),
    }
}

/// The folders of a forest below the top level as the GUI reads them back.
pub open spec fn read_back_all(s: Seq<DirNode>) -> Seq<GuiNodeView>
    decreases s,
{
    if s.len() == 0 {
        Seq::empty()
    } else {
        read_back_all(s.subrange(0, s.len() - 1)).push(read_back_node(s[s.len() - 1]))
    }
}

/// A top-level folder as the GUI reads it back: its name, its name again as
/// its path, its size text, and all its subfolders at every depth.
pub open spec fn read_back_root(n: DirNode) -> GuiNodeView {
    GuiNodeView {
        name: n.name@,
        path: n.name@,
        size_str: format_size_spec(n.size as nat),
        children: read_back_all(n.children@),
    }
}

/// Every folder of the forest, at every depth, has a name.
pub open spec fn names_present(s: Seq<DirNode>) -> bool
    decreases s,
{
    forall|i: int| 0 <= i < s.len() ==> #[trigger] s[i].name@.len() > 0 && names_present(s[i].children@)
}

/// A report's top-level folders whose names read back as written, each with
/// named folders below it.
pub open spec fn report_names_read_back(nodes: Seq<DirNode>) -> bool {
    forall|i: int| 0 <= i < nodes.len() ==> top_name_reads_back(#[trigger] nodes[i].name@) && names_present(nodes[i].children@)
}

/// The number of levels of `nodes[i..]`: 0 when there is none, else one more
/// than the levels of the deepest forest of children.
pub open spec fn levels_from(nodes: Seq<DirNode>, i: int) -> nat
    decreases nodes, nodes.len() - i,
{
    if i < 0 || i >= nodes.len() {
        0
    } else {
        let a = 1 + levels_from(nodes[i].children@, 0);
        let b = levels_from(nodes, i + 1);
        if a >= b {
            a
        } else {
            b
        }
    }
}

/// A top-level node before the reader gives it its path.
spec fn raw_root(n: DirNode) -> GuiNodeView {
    GuiNodeView { path: Seq::empty(), ..read_back_root(n) }
}

/// The list of nodes reached from `f` by going `d` times into the children of
/// the last node.
spec fn at_right(f: Seq<GuiNodeView>, d: nat) -> Seq<GuiNodeView>
    decreases d,
{
    if d == 0 {
        f
    } else {
        at_right(f.last().children, (d - 1) as nat)
    }
}

/// `f` with the list [`at_right`] reaches at depth `d` replaced by `g`.
spec fn update_right(f: Seq<GuiNodeView>, d: nat, g: Seq<GuiNodeView>) -> Seq<GuiNodeView>
    decreases d,
{
    if d == 0 {
        g
    } else {
        f.update(f.len() - 1, GuiNodeView { children: update_right(f.last().children, (d - 1) as nat, g), ..f.last() })
    }
}

/// A node can be placed at depth `d` of `f` (see `insert_at`).
spec fn path_ready(f: Seq<GuiNodeView>, d: nat, top: bool) -> bool
    decreases d,
{
    d == 0 || (f.len() > 0 && !(top && f.last().name.len() == 0) && path_ready(f.last().children, (d - 1) as nat, false))
}

/// The top-level nodes read from `lines` on top of `roots`.
spec fn parse_onto(roots: Seq<GuiNodeView>, lines: Seq<Seq<char>>) -> Seq<GuiNodeView>
    decreases lines.len(),
{
    if lines.len() == 0 {
        roots
    } else {
        parse_step(parse_onto(roots, lines.drop_last()), lines.last())
    }
}

/// An indentation made of whole steps of the tree.
spec fn tree_indent(ind: Seq<char>) -> bool
    decreases ind.len(),
{
    if ind.len() == 0 {
        true
    } else if ind.len() < 4 {
        false
    } else {
        indent_chunk(ind, 0) && tree_indent(ind.skip(4))
    }
}

/// The number of steps of an indentation.
spec fn indent_steps(ind: Seq<char>) -> nat
    decreases ind.len(),
{
    if ind.len() < 4 {
        0
    } else {
        1 + indent_steps(ind.skip(4))
    }
}

// ---------------------------------------------------------------------------
// Reading lines
// ---------------------------------------------------------------------------

proof fn lemma_parse_lines_onto(lines: Seq<Seq<char>>)
    ensures
        parse_lines(lines) == parse_onto(Seq::empty(), lines),
    decreases lines.len(),
{
    if lines.len() > 0 {
        lemma_parse_lines_onto(lines.drop_last());
    }
}

proof fn lemma_parse_onto_concat(r: Seq<GuiNodeView>, a: Seq<Seq<char>>, b: Seq<Seq<char>>)
    ensures
        parse_onto(r, a + b) == parse_onto(parse_onto(r, a), b),
    decreases b.len(),
{
    if b.len() == 0 {
        assert(a + b =~= a);
    } else {
        assert((a + b).drop_last() =~= a + b.drop_last());
        assert((a + b).last() == b.last());
        lemma_parse_onto_concat(r, a, b.drop_last());
    }
}

proof fn lemma_parse_onto_one(r: Seq<GuiNodeView>, l: Seq<char>)
    ensures
        parse_onto(r, seq![l]) == parse_step(r, l),
{
    assert(seq![l].drop_last() =~= Seq::<Seq<char>>::empty());
    assert(parse_onto(r, Seq::empty()) == r);
    assert(seq![l].last() == l);
}

proof fn lemma_chunk_shift(x: Seq<char>, l: Seq<char>, i: int, a: char, b: char, c: char, d: char)
    requires
        0 <= i,
    ensures
        chunk_at(x + l, x.len() + i, a, b, c, d) == chunk_at(l, i, a, b, c, d),
{
    if i + 4 <= l.len() {
        assert((x + l)[x.len() + i] == l[i]);
        assert((x + l)[x.len() + i + 1] == l[i + 1]);
        assert((x + l)[x.len() + i + 2] == l[i + 2]);
        assert((x + l)[x.len() + i + 3] == l[i + 3]);
    }
}

proof fn lemma_prefix_shift(x: Seq<char>, l: Seq<char>, i: int)
    requires
        0 <= i,
    ensures
        prefix_depth(x + l, x.len() + i) == prefix_depth(l, i),
        prefix_end(x + l, x.len() + i) == x.len() + prefix_end(l, i),
    decreases l.len() - i,
{
    if i + 4 <= l.len() {
        lemma_chunk_shift(x, l, i, ' ', ' ', ' ', ' ');
        lemma_chunk_shift(x, l, i, '\u{2502}', ' ', ' ', ' ');
        lemma_chunk_shift(x, l, i, '\u{251C}', '\u{2500}', '\u{2500}', ' ');
        lemma_chunk_shift(x, l, i, '\u{2514}', '\u{2500}', '\u{2500}', ' ');
        lemma_prefix_shift(x, l, i + 4);
        assert(x.len() + i + 4 == x.len() + (i + 4));
    }
}

proof fn lemma_indent_prefix(ind: Seq<char>, rest: Seq<char>)
    requires
        tree_indent(ind),
        branch_chunk(rest, 0),
    ensures
        prefix_depth(ind + rest, 0) == indent_steps(ind) + 1,
        prefix_end(ind + rest, 0) == ind.len() + 4,
    decreases ind.len(),
{
    if ind.len() == 0 {
        assert(ind + rest =~= rest);
    } else {
        let b = ind.take(4);
        let t = ind.skip(4);
        assert(ind + rest =~= b + (t + rest));
        assert((ind + rest)[0] == ind[0]);
        assert((ind + rest)[1] == ind[1]);
        assert((ind + rest)[2] == ind[2]);
        assert((ind + rest)[3] == ind[3]);
        assert(indent_chunk(ind + rest, 0));
        lemma_indent_prefix(t, rest);
        lemma_prefix_shift(b, t + rest, 0);
    }
}

proof fn lemma_indent_push(ind: Seq<char>, blk: Seq<char>)
    requires
        tree_indent(ind),
        blk.len() == 4,
        indent_chunk(blk, 0),
    ensures
        tree_indent(ind + blk),
        indent_steps(ind + blk) == indent_steps(ind) + 1,
    decreases ind.len(),
{
    let e = Seq::<char>::empty();
    assert(tree_indent(e));
    assert(indent_steps(e) == 0);
    if ind.len() == 0 {
        assert(ind + blk =~= blk);
        assert(blk.skip(4) =~= e);
        assert(tree_indent(blk));
        assert(indent_steps(blk) == 1);
    } else {
        assert((ind + blk).skip(4) =~= ind.skip(4) + blk);
        assert((ind + blk)[0] == ind[0]);
        assert((ind + blk)[1] == ind[1]);
        assert((ind + blk)[2] == ind[2]);
        assert((ind + blk)[3] == ind[3]);
        lemma_indent_push(ind.skip(4), blk);
    }
}

/// The indentation under an entry below the top level is an indentation of one step more.
proof fn lemma_child_indent(ind: Seq<char>, last: bool)
    requires
        tree_indent(ind),
    ensures
        tree_indent(child_indent(ind, false, last)),
        indent_steps(child_indent(ind, false, last)) == indent_steps(ind) + 1,
        child_indent(ind, false, last).len() == ind.len() + 4,
{
    if last {
        lemma_indent_push(ind, seq![' ', ' ', ' ', ' ']);
    } else {
        lemma_indent_push(ind, seq!['\u{2502}', ' ', ' ', ' ']);
    }
}

proof fn lemma_decimal_plain(n: nat)
    ensures
        forall|k: int| 0 <= k < decimal(n).len() ==> #[trigger] decimal(n)[k] != '(',
    decreases n,
{
    if n >= 10 {
        lemma_decimal_plain(n / 10);
        let d = digit_char(n % 10);
        assert(d != '(');
        assert forall|k: int| 0 <= k < decimal(n).len() implies #[trigger] decimal(n)[k] != '(' by {
            if k < decimal(n / 10).len() {
                assert(decimal(n)[k] == decimal(n / 10)[k]);
            }
        }
    } else {
        assert(digit_char(n) != '(');
    }
}

proof fn lemma_fixed2_plain(q: nat)
    ensures
        forall|j: int| 0 <= j < fixed2(q).len() ==> #[trigger] fixed2(q)[j] != '(',
{
    lemma_decimal_plain(q / 100);
    assert(digit_char((q / 10) % 10) != '(');
    assert(digit_char(q % 10) != '(');
    assert forall|j: int| 0 <= j < fixed2(q).len() implies #[trigger] fixed2(q)[j] != '(' by {
        if j < decimal(q / 100).len() {
            assert(fixed2(q)[j] == decimal(q / 100)[j]);
        }
    }
}

/// A size text holds no opening parenthesis.
proof fn lemma_size_plain(bytes: nat)
    ensures
        forall|k: int| 0 <= k < format_size_spec(bytes).len() ==> #[trigger] format_size_spec(bytes)[k] != '(',
{
    let v = as_f64_value(bytes);
    let q = if v >= 0x4000_0000 {
        div_round_half_even(v * 100, 0x4000_0000)
    } else {
        div_round_half_even(v * 100, 0x10_0000)
    };
    lemma_fixed2_plain(q);
    let s = format_size_spec(bytes);
    assert forall|k: int| 0 <= k < s.len() implies #[trigger] s[k] != '(' by {
        if k < fixed2(q).len() {
            assert(s[k] == fixed2(q)[k]);
        }
    }
}

proof fn lemma_last_open_tail(l: Seq<char>, p: int, n: int)
    requires
        0 <= p,
        p + 1 <= n <= l.len(),
        p + 1 < l.len(),
        l[p] == ' ',
        l[p + 1] == '(',
        forall|k: int| p + 1 < k < l.len() ==> l[k] != '(',
    ensures
        last_open(l, n) == p,
    decreases n,
{
    if n > p + 1 {
        lemma_last_open_tail(l, p, n - 1);
    }
}

/// A line `head (size)` whose size holds no opening parenthesis: the size is
/// found after the last `" ("`.
proof fn lemma_sized_tail(head: Seq<char>, size: Seq<char>)
    requires
        forall|k: int| 0 <= k < size.len() ==> #[trigger] size[k] != '(',
    ensures
        ({
            let l = head + seq![' ', '('] + size + seq![')'];
            &&& last_open(l, l.len() as int) == head.len()
            &&& last_close(l, l.len() as int) == l.len() - 1
            &&& has_size(l)
            &&& l.subrange(head.len() as int + 2, l.len() - 1) == size
            &&& l.subrange(0, head.len() as int) == head
            &&& l[head.len() as int + 1] == '('
        }),
{
    let l = head + seq![' ', '('] + size + seq![')'];
    let p = head.len() as int;
    assert(l[p] == ' ');
    assert(l[p + 1] == '(');
    assert forall|k: int| p + 1 < k < l.len() implies l[k] != '(' by {
        if k < l.len() - 1 {
            assert(l[k] == size[k - p - 2]);
        } else {
            assert(l[k] == ')');
        }
    }
    lemma_last_open_tail(l, p, l.len() as int);
    assert(l[l.len() - 1] == ')');
    assert(l.subrange(p + 2, l.len() - 1) =~= size);
    assert(l.subrange(0, p) =~= head);
}

/// How the reader takes an entry line below the top level.
proof fn lemma_inner_line(indent: Seq<char>, last: bool, node: DirNode)
    requires
        tree_indent(indent),
    ensures
        ({
            let l = entry_line(indent, false, last, node);
            &&& !is_blank(l)
            &&& prefix_depth(l, 0) == indent_steps(indent) + 1
            &&& name_start(l) == indent.len() + 5
            &&& has_size(l)
            &&& last_open(l, l.len() as int) == indent.len() + 5 + node.name@.len()
            &&& sized_name(l) == node.name@
            &&& node.name@.len() > 0 ==> line_name(l) == node.name@
            &&& line_size(l) == format_size_spec(node.size as nat)
        }),
{
    let fs = format_size_spec(node.size as nat);
    let tp = tree_prefix(false, last);
    let head = indent + tp + seq![' '] + node.name@;
    let l = entry_line(indent, false, last, node);
    assert(l == head + seq![' ', '('] + fs + seq![')']);
    lemma_size_plain(node.size as nat);
    lemma_sized_tail(head, fs);
    let rest = tp + seq![' '] + node.name@ + seq![' ', '('] + fs + seq![')'];
    assert(l =~= indent + rest);
    assert(branch_chunk(rest, 0));
    lemma_indent_prefix(indent, rest);
    assert(l[indent.len() as int + 4] == head[indent.len() as int + 4]);
    assert(!is_whitespace(l[head.len() as int + 1]));
    assert(l.subrange(indent.len() as int + 5, head.len() as int) =~= node.name@) by {
        assert(l.subrange(0, head.len() as int) == head);
        assert forall|k: int| 0 <= k < node.name@.len() implies #[trigger] l.subrange(
            indent.len() as int + 5,
            head.len() as int,
        )[k] == node.name@[k] by {
            assert(l[indent.len() as int + 5 + k] == head[indent.len() as int + 5 + k]);
        }
    }
}

/// How the reader takes an entry line at the top level.
proof fn lemma_top_line(last: bool, node: DirNode)
    requires
        top_name_reads_back(node.name@),
    ensures
        ({
            let l = entry_line(Seq::empty(), true, last, node);
            &&& !is_blank(l)
            &&& prefix_depth(l, 0) == 0
            &&& name_start(l) == 1
            &&& has_size(l)
            &&& last_open(l, l.len() as int) == 1 + node.name@.len()
            &&& sized_name(l) == node.name@
            &&& line_name(l) == node.name@
            &&& line_size(l) == format_size_spec(node.size as nat)
        }),
{
    let fs = format_size_spec(node.size as nat);
    let e = Seq::<char>::empty();
    let head = e + tree_prefix(true, last) + seq![' '] + node.name@;
    let l = entry_line(e, true, last, node);
    assert(l == head + seq![' ', '('] + fs + seq![')']);
    assert(head =~= seq![' '] + node.name@);
    lemma_size_plain(node.size as nat);
    lemma_sized_tail(head, fs);
    let t = node.name@ + seq![' ', '('];
    assert(l[0] == ' ');
    assert(l[1] == t[0]);
    assert(l[2] == t[1]);
    assert(l[3] == t[2]);
    assert(!indent_chunk(l, 0));
    assert(!branch_chunk(l, 0));
    assert(prefix_depth(l, 0) == 0);
    assert(prefix_end(l, 0) == 0);
    assert(!is_whitespace(l[head.len() as int + 1]));
    assert(l.subrange(1, head.len() as int) =~= node.name@) by {
        assert(l.subrange(0, head.len() as int) == head);
        assert forall|k: int| 0 <= k < node.name@.len() implies #[trigger] l.subrange(1, head.len() as int)[k]
            == node.name@[k] by {
            assert(l[1 + k] == head[1 + k]);
        }
    }
}

// ---------------------------------------------------------------------------
// Reading a whole report
// ---------------------------------------------------------------------------

proof fn lemma_read_back_all(s: Seq<DirNode>)
    ensures
        read_back_all(s).len() == s.len(),
        forall|i: int| 0 <= i < s.len() ==> #[trigger] read_back_all(s)[i] == read_back_node(s[i]),
    decreases s.len(),
{
    if s.len() > 0 {
        let init = s.subrange(0, s.len() - 1);
        lemma_read_back_all(init);
        assert forall|i: int| 0 <= i < s.len() implies #[trigger] read_back_all(s)[i] == read_back_node(s[i]) by {
            if i < s.len() - 1 {
                assert(init[i] == s[i]);
            }
        }
    }
}

proof fn lemma_insert_right(f: Seq<GuiNodeView>, d: nat, n: GuiNodeView, top: bool)
    requires
        path_ready(f, d, top),
    ensures
        insert_at(f, d, n, top) == update_right(f, d, at_right(f, d).push(n)),
    decreases d,
{
    if d > 0 {
        lemma_insert_right(f.last().children, (d - 1) as nat, n, false);
    }
}

/// Replacing the list at depth `d`: the list there is the new one, a second
/// replacement overrides the first, putting back the list that is there
/// changes nothing, and a node can still be placed at depth `d`.
proof fn lemma_update_right(f: Seq<GuiNodeView>, d: nat, top: bool, g: Seq<GuiNodeView>, h: Seq<GuiNodeView>)
    requires
        path_ready(f, d, top),
    ensures
        at_right(update_right(f, d, g), d) == g,
        update_right(update_right(f, d, g), d, h) == update_right(f, d, h),
        update_right(f, d, at_right(f, d)) == f,
        path_ready(update_right(f, d, g), d, top),
        g.len() > 0 && !(top && d == 0 && g.last().name.len() == 0) ==> path_ready(update_right(f, d, g), d + 1, top),
    decreases d,
{
    if d == 0 {
        assert(((d + 1) - 1) as nat == 0);
        if g.len() > 0 {
            assert(path_ready(g.last().children, 0, false));
        }
    } else {
        let p = f.last();
        lemma_update_right(p.children, (d - 1) as nat, false, g, h);
        let f1 = update_right(f, d, g);
        assert(f1.last().children == update_right(p.children, (d - 1) as nat, g));
        assert(f1.last().name == p.name);
        assert(((d - 1) as nat + 1) == d);
        assert(((d + 1) - 1) as nat == d);
        assert(update_right(f1, d, h) =~= update_right(f, d, h));
        assert(GuiNodeView { children: p.children, ..p } == p);
        assert(update_right(f, d, at_right(f, d)) =~= f);
        assert(((d + 1) - 1) as nat == d);
    }
}

/// After `x` is placed at the end of the list at depth `d`, the list at depth
/// `d + 1` is `x`'s children, and replacing it replaces `x`'s children.
proof fn lemma_right_descend(f: Seq<GuiNodeView>, d: nat, top: bool, g: Seq<GuiNodeView>, x: GuiNodeView, h: Seq<GuiNodeView>)
    requires
        path_ready(f, d, top),
    ensures
        at_right(update_right(f, d, g.push(x)), d + 1) == x.children,
        update_right(update_right(f, d, g.push(x)), d + 1, h) == update_right(f, d, g.push(GuiNodeView { children: h, ..x })),
    decreases d,
{
    if d == 0 {
        let gx = g.push(x);
        assert(update_right(f, d, gx) == gx);
        assert(((d + 1) - 1) as nat == 0);
        assert(gx.last() == x);
        assert(at_right(gx, 1) == at_right(x.children, 0));
        assert(update_right(x.children, 0, h) == h);
        assert(update_right(gx, 1, h) == gx.update(gx.len() - 1, GuiNodeView { children: h, ..x }));
        assert(gx.update(g.len() as int, GuiNodeView { children: h, ..x }) =~= g.push(GuiNodeView { children: h, ..x }));
    } else {
        let p = f.last();
        lemma_right_descend(p.children, (d - 1) as nat, false, g, x, h);
        assert(((d + 1) - 1) as nat == d);
        assert(((d - 1) as nat + 1) == d);
        let f1 = update_right(f, d, g.push(x));
        let c1 = update_right(p.children, (d - 1) as nat, g.push(x));
        assert(f1.last().children == c1);
        assert(at_right(f1, d + 1) == at_right(c1, d));
        assert(at_right(c1, ((d - 1) as nat + 1) as nat) == x.children);
        let x2 = GuiNodeView { children: h, ..x };
        assert(update_right(c1, d, h) == update_right(p.children, (d - 1) as nat, g.push(x2)));
        assert(update_right(f1, d + 1, h) == f1.update(f1.len() - 1, GuiNodeView { children: update_right(c1, d, h), ..f1.last() }));
        assert(update_right(f1, d + 1, h) =~= update_right(f, d, g.push(x2)));
    }
}

/// The lines of the folders `cs[j..]` at a depth below the top place them,
/// with everything below them, at the end of the list at that depth.
proof fn lemma_parse_deep(f: Seq<GuiNodeView>, cs: Seq<DirNode>, j: int, indent: Seq<char>)
    requires
        tree_indent(indent),
        path_ready(f, indent_steps(indent) + 1, true),
        0 <= j <= cs.len(),
        names_present(cs),
    ensures
        parse_onto(f, tree_lines(cs, j, indent, false)) == update_right(
            f,
            indent_steps(indent) + 1,
            at_right(f, indent_steps(indent) + 1) + read_back_all(cs.subrange(j, cs.len() as int)),
        ),
    decreases cs, cs.len() - j,
{
    let m = indent_steps(indent) + 1;
    let e = Seq::<GuiNodeView>::empty();
    if j < cs.len() {
        let c = cs[j];
        let last = j == cs.len() - 1;
        let l = entry_line(indent, false, last, c);
        let ci = child_indent(indent, false, last);
        let a = tree_lines(c.children@, 0, ci, false);
        let b = tree_lines(cs, j + 1, indent, false);
        assert(c.name@.len() > 0 && names_present(c.children@));
        lemma_inner_line(indent, last, c);
        lemma_child_indent(indent, last);
        assert(tree_lines(cs, j, indent, false) == seq![l] + a + b);
        lemma_parse_onto_concat(f, seq![l] + a, b);
        lemma_parse_onto_concat(f, seq![l], a);
        lemma_parse_onto_one(f, l);
        let lf = leaf(c.name@, Seq::empty(), format_size_spec(c.size as nat));
        let g = at_right(f, m);
        lemma_insert_right(f, m, lf, true);
        let f1 = update_right(f, m, g.push(lf));
        assert(parse_onto(f, seq![l]) == f1);
        lemma_update_right(f, m, true, g.push(lf), e);
        assert(path_ready(f1, m + 1, true));
        assert(indent_steps(ci) + 1 == m + 1);
        assert(decreases_to!(cs => cs[j]));
        lemma_parse_deep(f1, c.children@, 0, ci);
        let kids = read_back_all(c.children@.subrange(0, c.children@.len() as int));
        assert(c.children@.subrange(0, c.children@.len() as int) =~= c.children@);
        lemma_right_descend(f, m, true, g, lf, e + kids);
        assert(e + kids =~= kids);
        let rbn = read_back_node(c);
        assert(GuiNodeView { children: kids, ..lf } == rbn);
        let f2 = update_right(f, m, g.push(rbn));
        assert(parse_onto(f1, a) == f2);
        lemma_update_right(f, m, true, g.push(rbn), e);
        lemma_parse_deep(f2, cs, j + 1, indent);
        let rest = read_back_all(cs.subrange(j + 1, cs.len() as int));
        let all = read_back_all(cs.subrange(j, cs.len() as int));
        lemma_update_right(f, m, true, g.push(rbn), g.push(rbn) + rest);
        lemma_read_back_all(cs.subrange(j + 1, cs.len() as int));
        lemma_read_back_all(cs.subrange(j, cs.len() as int));
        assert(all =~= seq![rbn] + rest) by {
            assert(cs.subrange(j, cs.len() as int)[0] == c);
            assert forall|k: int| 0 <= k < rest.len() implies #[trigger] rest[k] == all[k + 1] by {
                assert(cs.subrange(j + 1, cs.len() as int)[k] == cs.subrange(j, cs.len() as int)[k + 1]);
            }
        }
        assert(g.push(rbn) + rest =~= g + all);
    } else {
        lemma_parse_onto_one(f, Seq::empty());
        assert(parse_onto(f, Seq::<Seq<char>>::empty()) == f);
        assert(cs.subrange(j, cs.len() as int) =~= Seq::<DirNode>::empty());
        assert(read_back_all(Seq::<DirNode>::empty()) =~= e);
        assert(at_right(f, m) + e =~= at_right(f, m));
        lemma_update_right(f, m, true, e, e);
    }
}

/// The top-level lines from `nodes[i]` on append those nodes, each with all
/// the folders below it.
proof fn lemma_parse_top(roots: Seq<GuiNodeView>, nodes: Seq<DirNode>, i: int)
    requires
        0 <= i <= nodes.len(),
        report_names_read_back(nodes),
    ensures
        parse_onto(roots, tree_lines(nodes, i, Seq::empty(), true)) == roots + nodes.subrange(
            i,
            nodes.len() as int,
        ).map_values(|n: DirNode| raw_root(n)),
    decreases nodes.len() - i,
{
    let e = Seq::<char>::empty();
    let ev = Seq::<GuiNodeView>::empty();
    if i < nodes.len() {
        let n = nodes[i];
        let last = i == nodes.len() - 1;
        let l = entry_line(e, true, last, n);
        let a = tree_lines(n.children@, 0, e, false);
        let b = tree_lines(nodes, i + 1, e, true);
        assert(top_name_reads_back(n.name@) && names_present(n.children@));
        lemma_top_line(last, n);
        assert(child_indent(e, true, last) == e);
        assert(tree_lines(nodes, i, e, true) == seq![l] + a + b);
        let lf = leaf(n.name@, e, format_size_spec(n.size as nat));
        let r1 = roots.push(lf);
        lemma_parse_onto_one(roots, l);
        assert(parse_onto(roots, seq![l]) == r1);
        lemma_parse_onto_concat(roots, seq![l] + a, b);
        lemma_parse_onto_concat(roots, seq![l], a);
        assert(tree_indent(e));
        assert(indent_steps(e) == 0);
        assert(path_ready(lf.children, 0, false));
        assert(path_ready(r1, 1, true));
        lemma_parse_deep(r1, n.children@, 0, e);
        assert(r1.last() == lf);
        assert(at_right(r1, 1) == at_right(lf.children, 0));
        assert(at_right(r1, 1) == lf.children);
        let kids = read_back_all(n.children@.subrange(0, n.children@.len() as int));
        assert(n.children@.subrange(0, n.children@.len() as int) =~= n.children@);
        assert(ev + kids =~= kids);
        let r2 = roots.push(raw_root(n));
        assert(update_right(lf.children, 0, kids) == kids);
        assert(update_right(r1, 1, kids) =~= r2);
        lemma_parse_top(r2, nodes, i + 1);
        let rest = nodes.subrange(i + 1, nodes.len() as int).map_values(|m: DirNode| raw_root(m));
        let all = nodes.subrange(i, nodes.len() as int).map_values(|m: DirNode| raw_root(m));
        assert(r2 + rest =~= roots + all);
    } else {
        assert(parse_onto(roots, Seq::<Seq<char>>::empty()) == roots);
        assert(roots + nodes.subrange(i, nodes.len() as int).map_values(|n: DirNode| raw_root(n)) =~= roots);
    }
}

/// Reading back a text report: the GUI gives back the tree that the report
/// was written from, at every depth: each folder's name as written and its
/// size text, a top-level folder's name also as its path (the paths below the
/// top level join their parent's path with their name, see `node_paths`).
pub proof fn lemma_text_report_reads_back(nodes: Seq<DirNode>)
    requires
        report_names_read_back(nodes),
    ensures
        parse_report(tree_lines(nodes, 0, Seq::empty(), true)) == nodes.map_values(
            |n: DirNode| read_back_root(n),
        ),
{
    let lines = tree_lines(nodes, 0, Seq::empty(), true);
    lemma_parse_lines_onto(lines);
    lemma_parse_top(Seq::empty(), nodes, 0);
    let raw = nodes.subrange(0, nodes.len() as int).map_values(|n: DirNode| raw_root(n));
    assert(Seq::<GuiNodeView>::empty() + raw =~= raw);
    assert(parse_report(lines) =~= nodes.map_values(|n: DirNode| read_back_root(n))) by {
        assert forall|k: int| 0 <= k < nodes.len() implies #[trigger] finished_root(raw[k]) == read_back_root(
            nodes[k],
        ) by {
            assert(raw[k] == raw_root(nodes[k]));
        }
    }
}

// ---------------------------------------------------------------------------
// Every line can be read
// ---------------------------------------------------------------------------

proof fn lemma_readable_concat(a: Seq<Seq<char>>, b: Seq<Seq<char>>)
    requires
        report_readable(a),
        report_readable(b),
    ensures
        report_readable(a + b),
{
    assert forall|k: int| 0 <= k < (a + b).len() implies line_readable(#[trigger] (a + b)[k]) by {
        if k < a.len() {
            assert((a + b)[k] == a[k]);
        } else {
            assert((a + b)[k] == b[k - a.len()]);
        }
    }
}

proof fn lemma_readable_deep(cs: Seq<DirNode>, j: int, indent: Seq<char>)
    requires
        tree_indent(indent),
        names_present(cs),
        indent_steps(indent) + levels_from(cs, j) <= 99,
    ensures
        report_readable(tree_lines(cs, j, indent, false)),
    decreases cs, cs.len() - j,
{
    if 0 <= j < cs.len() {
        let last = j == cs.len() - 1;
        let l = entry_line(indent, false, last, cs[j]);
        let ci = child_indent(indent, false, last);
        let a = tree_lines(cs[j].children@, 0, ci, false);
        let b = tree_lines(cs, j + 1, indent, false);
        assert(cs[j].name@.len() > 0 && names_present(cs[j].children@));
        lemma_inner_line(indent, last, cs[j]);
        lemma_child_indent(indent, last);
        assert(levels_from(cs, j) >= 1);
        assert(prefix_depth(l, 0) < 100);
        assert(name_start(l) <= last_open(l, l.len() as int));
        assert(sized_name(l).len() > 0);
        assert(line_readable(l));
        assert(report_readable(seq![l]));
        lemma_readable_deep(cs[j].children@, 0, ci);
        lemma_readable_deep(cs, j + 1, indent);
        lemma_readable_concat(seq![l], a);
        lemma_readable_concat(seq![l] + a, b);
        assert(tree_lines(cs, j, indent, false) == seq![l] + a + b);
    }
}

proof fn lemma_readable_top(nodes: Seq<DirNode>, i: int)
    requires
        0 <= i <= nodes.len(),
        report_names_read_back(nodes),
        levels_from(nodes, i) <= 100,
    ensures
        report_readable(tree_lines(nodes, i, Seq::empty(), true)),
    decreases nodes.len() - i,
{
    let e = Seq::<char>::empty();
    if i < nodes.len() {
        let n = nodes[i];
        let last = i == nodes.len() - 1;
        let l = entry_line(e, true, last, n);
        let a = tree_lines(n.children@, 0, e, false);
        let b = tree_lines(nodes, i + 1, e, true);
        assert(top_name_reads_back(n.name@) && names_present(n.children@));
        lemma_top_line(last, n);
        assert(child_indent(e, true, last) == e);
        assert(line_readable(l));
        assert(report_readable(seq![l]));
        assert(tree_indent(e));
        assert(indent_steps(e) == 0);
        lemma_readable_deep(n.children@, 0, e);
        lemma_readable_top(nodes, i + 1);
        lemma_readable_concat(seq![l], a);
        lemma_readable_concat(seq![l] + a, b);
        assert(tree_lines(nodes, i, e, true) == seq![l] + a + b);
    }
}

/// Every line of the text report that the library writes for `nodes` can be
/// read by the GUI, when the report has at most a hundred levels.
pub proof fn lemma_text_report_readable(nodes: Seq<DirNode>)
    requires
        report_names_read_back(nodes),
        levels_from(nodes, 0) <= 100,
    ensures
        report_readable(tree_lines(nodes, 0, Seq::empty(), true)),
{
    lemma_readable_top(nodes, 0);
}

} // verus!
