use vstd::prelude::*;
use crate::text::{chars_of, push_char};

verus! {

/// A node of the tree that the GUI shows.
pub struct GuiNode {
    pub name: String,
    pub path: String,
    pub size_str: String,
    pub children: Vec<GuiNode>,
}

/// The mathematical value of a [`GuiNode`].
pub struct GuiNodeView {
    pub name: Seq<char>,
    pub path: Seq<char>,
    pub size_str: Seq<char>,
    pub children: Seq<GuiNodeView>,
}

/// The views of a sequence of GUI nodes.
pub open spec fn gui_views(nodes: Seq<GuiNode>) -> Seq<GuiNodeView>
    decreases nodes,
{
    if nodes.len() == 0 {
        Seq::empty()
    } else {
        gui_views(nodes.subrange(0, nodes.len() - 1)).push(gui_node_view(nodes[nodes.len() - 1]))
    }
}

/// The view of one GUI node.
pub open spec fn gui_node_view(node: GuiNode) -> GuiNodeView
    decreases node,
{
    GuiNodeView {
        name: node.name@,
        path: node.path@,
        size_str: node.size_str@,
        children: gui_views(node.children@),
    }
}

pub proof fn lemma_gui_views(nodes: Seq<GuiNode>)
    ensures
        gui_views(nodes).len() == nodes.len(),
        forall|i: int| 0 <= i < nodes.len() ==> #[trigger] gui_views(nodes)[i] == gui_node_view(nodes[i]),
    decreases nodes.len(),
{
    if nodes.len() > 0 {
        let init = nodes.subrange(0, nodes.len() - 1);
        lemma_gui_views(init);
        assert forall|i: int| 0 <= i < nodes.len() implies #[trigger] gui_views(nodes)[i] == gui_node_view(nodes[i]) by {
            if i < nodes.len() - 1 {
                assert(init[i] == nodes[i]);
            }
        }
    }
}

// ---------------------------------------------------------------------------
// Reading one line of a text report
// ---------------------------------------------------------------------------

/// Unicode's White_Space characters, which `char::is_whitespace` accepts.
pub open spec fn is_whitespace(c: char) -> bool {
    let u = c as u32;
    ||| 0x9 <= u <= 0xD
    ||| u == 0x20
    ||| u == 0x85
    ||| u == 0xA0
    ||| u == 0x1680
    ||| 0x2000 <= u <= 0x200A
    ||| u == 0x2028
    ||| u == 0x2029
    ||| u == 0x202F
    ||| u == 0x205F
    ||| u == 0x3000
}

/// A line that holds nothing but whitespace.
pub open spec fn is_blank(l: Seq<char>) -> bool {
    forall|i: int| 0 <= i < l.len() ==> is_whitespace(#[trigger] l[i])
}

/// The four characters of `l` from `i` are `a b c d`.
pub open spec fn chunk_at(l: Seq<char>, i: int, a: char, b: char, c: char, d: char) -> bool {
    &&& 0 <= i
    &&& i + 4 <= l.len()
    &&& l[i] == a
    &&& l[i + 1] == b
    &&& l[i + 2] == c
    &&& l[i + 3] == d
}

/// An indentation step of the tree at `i`: four blanks, or a bar and three blanks.
pub open spec fn indent_chunk(l: Seq<char>, i: int) -> bool {
    chunk_at(l, i, ' ', ' ', ' ', ' ') || chunk_at(l, i, '\u{2502}', ' ', ' ', ' ')
}

/// A branch connector of the tree at `i`: a tee or a corner.
pub open spec fn branch_chunk(l: Seq<char>, i: int) -> bool {
    chunk_at(l, i, '\u{251C}', '\u{2500}', '\u{2500}', ' ') || chunk_at(
        l,
        i,
        '\u{2514}',
        '\u{2500}',
        '\u{2500}',
        ' ',
    )
}

/// The depth of the tree prefix that starts at `i`: one per indentation step,
/// plus one for the connector that ends it.
pub open spec fn prefix_depth(l: Seq<char>, i: int) -> nat
    decreases l.len() - i,
{
    if 0 <= i && i + 4 <= l.len() {
        if indent_chunk(l, i) {
            1 + prefix_depth(l, i + 4)
        } else if branch_chunk(l, i) {
            1
        } else {
            0
        }
    } else {
        0
    }
}

/// Where the tree prefix that starts at `i` ends.
pub open spec fn prefix_end(l: Seq<char>, i: int) -> int
    decreases l.len() - i,
{
    if 0 <= i && i + 4 <= l.len() {
        if indent_chunk(l, i) {
            prefix_end(l, i + 4)
        } else if branch_chunk(l, i) {
            i + 4
        } else {
            i
        }
    } else {
        i
    }
}

/// Where the name of an entry starts: after its tree prefix and the single
/// blank that follows it (at the top level, the blank that opens the line).
pub open spec fn name_start(l: Seq<char>) -> int {
    let e = prefix_end(l, 0);
    if 0 <= e < l.len() && l[e] == ' ' {
        e + 1
    } else {
        e
    }
}

/// The last position below `n` where `" ("` starts, or -1.
pub open spec fn last_open(l: Seq<char>, n: int) -> int
    decreases n,
{
    if n <= 0 {
        -1
    } else if n - 1 + 1 < l.len() && l[n - 1] == ' ' && l[n] == '(' {
        n - 1
    } else {
        last_open(l, n - 1)
    }
}

/// The last position below `n` that holds `')'`, or -1.
pub open spec fn last_close(l: Seq<char>, n: int) -> int
    decreases n,
{
    if n <= 0 {
        -1
    } else if n - 1 < l.len() && l[n - 1] == ')' {
        n - 1
    } else {
        last_close(l, n - 1)
    }
}

/// Whether the line ends in a size in parentheses: a `" ("` before the last `')'`.
pub open spec fn has_size(l: Seq<char>) -> bool {
    let p = last_open(l, l.len() as int);
    let q = last_close(l, l.len() as int);
    p >= 0 && q >= 0 && p < q
}

/// The number of bytes that UTF-8 takes for a character.
pub open spec fn utf8_width(c: char) -> nat {
    let u = c as u32;
    if u < 0x80 {
        1
    } else if u < 0x800 {
        2
    } else if u < 0x10000 {
        3
    } else {
        4
    }
}

/// The number of bytes that UTF-8 takes for a string.
pub open spec fn utf8_len(s: Seq<char>) -> nat
    decreases s.len(),
{
    if s.len() == 0 {
        0
    } else {
        utf8_len(s.drop_last()) + utf8_width(s.last())
    }
}

/// Position `k` of `l` starts at byte `b` of its UTF-8 encoding.
pub open spec fn char_at_byte(l: Seq<char>, b: int, k: int) -> bool {
    0 <= k <= l.len() && utf8_len(l.take(k)) == b
}

/// The name found between the prefix and the size, if the line has a size.
pub open spec fn sized_name(l: Seq<char>) -> Seq<char> {
    if has_size(l) {
        l.subrange(name_start(l), last_open(l, l.len() as int))
    } else {
        Seq::empty()
    }
}

/// The size text between the parentheses, if the line has a size.
pub open spec fn line_size(l: Seq<char>) -> Seq<char> {
    if has_size(l) {
        l.subrange(last_open(l, l.len() as int) + 2, last_close(l, l.len() as int))
    } else {
        Seq::empty()
    }
}

/// The name of the entry on a line: the text before its size or, when that
/// is empty, the rest of the line from the byte whose offset equals the
/// position where the name starts.
pub open spec fn line_name(l: Seq<char>) -> Seq<char> {
    if sized_name(l).len() > 0 {
        sized_name(l)
    } else {
        let k = choose|k: int| char_at_byte(l, name_start(l), k);
        l.subrange(k, l.len() as int)
    }
}

/// A line that the reader takes without failing: its depth is below 100,
/// its name does not start after its size, and when the name has to be
/// taken from the rest of the line, that rest starts on a character boundary.
pub open spec fn line_readable(l: Seq<char>) -> bool {
    is_blank(l) || {
        &&& prefix_depth(l, 0) < 100
        &&& has_size(l) ==> name_start(l) <= last_open(l, l.len() as int)
        &&& sized_name(l).len() == 0 ==> exists|k: int| char_at_byte(l, name_start(l), k)
    }
}

fn is_whitespace_char(c: char) -> (b: bool)
    ensures
        b == is_whitespace(c),
{
    let u = c as u32;
    (0x9 <= u && u <= 0xD) || u == 0x20 || u == 0x85 || u == 0xA0 || u == 0x1680 || (0x2000 <= u && u
        <= 0x200A) || u == 0x2028 || u == 0x2029 || u == 0x202F || u == 0x205F || u == 0x3000
}

fn line_is_blank(l: &Vec<char>) -> (b: bool)
    ensures
        b == is_blank(l@),
{
    let mut i: usize = 0;
    while i < l.len()
        invariant
            i <= l@.len(),
            forall|k: int| 0 <= k < i ==> is_whitespace(#[trigger] l@[k]),
        decreases l@.len() - i,
    {
        if !is_whitespace_char(l[i]) {
            return false;
        }
        i = i + 1;
    }
    true
}

fn chunk_is(l: &Vec<char>, i: usize, a: char, b: char, c: char, d: char) -> (r: bool)
    requires
        i + 4 <= l.len(),
    ensures
        r == chunk_at(l@, i as int, a, b, c, d),
{
    l[i] == a && l[i + 1] == b && l[i + 2] == c && l[i + 3] == d
}

/// The string made of `v[a..b]`.
fn string_of_range(v: &Vec<char>, a: usize, b: usize) -> (res: String)
    requires
        a <= b <= v@.len(),
    ensures
        res@ == v@.subrange(a as int, b as int),
{
    let mut res = String::new();
    let mut i = a;
    while i < b
        invariant
            a <= i <= b,
            b <= v@.len(),
            res@ == v@.subrange(a as int, i as int),
        decreases b - i,
    {
        push_char(&mut res, v[i]);
        assert(v@.subrange(a as int, i + 1) =~= v@.subrange(a as int, i as int).push(v@[i as int]));
        i = i + 1;
    }
    res
}

fn utf8_width_of(c: char) -> (w: usize)
    ensures
        w == utf8_width(c),
{
    let u = c as u32;
    if u < 0x80 {
        1
    } else if u < 0x800 {
        2
    } else if u < 0x10000 {
        3
    } else {
        4
    }
}

proof fn lemma_utf8_len_take_step(l: Seq<char>, k: int)
    requires
        0 <= k < l.len(),
    ensures
        utf8_len(l.take(k + 1)) == utf8_len(l.take(k)) + utf8_width(l[k]),
{
    assert(l.take(k + 1).drop_last() =~= l.take(k));
}

proof fn lemma_utf8_len_take_mono(l: Seq<char>, j: int, k: int)
    requires
        0 <= j < k <= l.len(),
    ensures
        utf8_len(l.take(j)) + (k - j) <= utf8_len(l.take(k)),
    decreases k - j,
{
    lemma_utf8_len_take_step(l, k - 1);
    if j < k - 1 {
        lemma_utf8_len_take_mono(l, j, k - 1);
    }
}

/// The position of `l` that starts at byte `b`.
fn char_index_of_byte(l: &Vec<char>, b: usize) -> (k: usize)
    requires
        exists|k: int| char_at_byte(l@, b as int, k),
    ensures
        char_at_byte(l@, b as int, k as int),
        k as int == choose|k: int| char_at_byte(l@, b as int, k),
{
    let ghost w = choose|k: int| char_at_byte(l@, b as int, k);
    let mut k: usize = 0;
    let mut acc: usize = 0;
    let total = l.len();
    assert(l@.take(0) =~= Seq::<char>::empty());
    while acc < b
        invariant
            total == l@.len(),
            k <= l@.len(),
            acc == utf8_len(l@.take(k as int)),
            char_at_byte(l@, b as int, w),
            k <= w,
        decreases b - acc,
    {
        assert(k < w);
        proof {
            lemma_utf8_len_take_step(l@, k as int);
            if k + 1 < w {
                lemma_utf8_len_take_mono(l@, k + 1, w);
            }
        }
        acc = acc + utf8_width_of(l[k]);
        k = k + 1;
    }
    proof {
        if k < w {
            lemma_utf8_len_take_mono(l@, k as int, w);
        }
    }
    k
}

proof fn lemma_last_open_range(l: Seq<char>, n: int)
    requires
        n >= 0,
    ensures
        last_open(l, n) < n,
        last_open(l, n) >= -1,
        last_open(l, n) >= 0 ==> last_open(l, n) + 1 < l.len() && l[last_open(l, n)] == ' ' && l[last_open(l, n) + 1] == '(',
    decreases n,
{
    if n > 0 {
        lemma_last_open_range(l, n - 1);
    }
}

proof fn lemma_last_close_range(l: Seq<char>, n: int)
    requires
        n >= 0,
    ensures
        last_close(l, n) < n,
        last_close(l, n) >= -1,
        last_close(l, n) >= 0 ==> last_close(l, n) < l.len() && l[last_close(l, n)] == ')',
    decreases n,
{
    if n > 0 {
        lemma_last_close_range(l, n - 1);
    }
}

proof fn lemma_prefix_end_range(l: Seq<char>, i: int)
    requires
        0 <= i <= l.len(),
    ensures
        i <= prefix_end(l, i) <= l.len(),
    decreases l.len() - i,
{
    if i + 4 <= l.len() {
        lemma_prefix_end_range(l, i + 4);
    }
}

/// Where the parts of a line lie: its depth, where its name starts, and the
/// last `" ("` and `')'`.
struct LineScan {
    depth: usize,
    start: usize,
    open: Option<usize>,
    close: Option<usize>,
}

fn scan_line(l: &Vec<char>) -> (res: LineScan)
    ensures
        res.depth == prefix_depth(l@, 0),
        res.start == name_start(l@),
        res.start <= l@.len(),
        match res.open {
            Some(p) => p == last_open(l@, l@.len() as int),
            None => last_open(l@, l@.len() as int) < 0,
        },
        match res.close {
            Some(q) => q == last_close(l@, l@.len() as int),
            None => last_close(l@, l@.len() as int) < 0,
        },
        last_open(l@, l@.len() as int) < l@.len(),
        last_open(l@, l@.len() as int) >= 0 ==> last_open(l@, l@.len() as int) + 1 < l@.len()
            && l@[last_open(l@, l@.len() as int) + 1] == '(',
        last_close(l@, l@.len() as int) < l@.len(),
        last_close(l@, l@.len() as int) >= 0 ==> l@[last_close(l@, l@.len() as int)] == ')',
{
    let len = l.len();
    let mut depth: usize = 0;
    let mut idx: usize = 0;
    let mut scanning = true;
    while scanning && idx < len
        invariant
            idx <= len,
            len == l@.len(),
            depth <= idx,
            prefix_depth(l@, 0) == depth + (if scanning { prefix_depth(l@, idx as int) } else { 0 }),
            prefix_end(l@, 0) == (if scanning { prefix_end(l@, idx as int) } else { idx as int }),
        decreases len - idx + (if scanning { 1int } else { 0int }),
    {
        if len - idx >= 4 {
            if chunk_is(l, idx, ' ', ' ', ' ', ' ') || chunk_is(l, idx, '\u{2502}', ' ', ' ', ' ') {
                depth = depth + 1;
                idx = idx + 4;
            } else if chunk_is(l, idx, '\u{251C}', '\u{2500}', '\u{2500}', ' ') || chunk_is(
                l,
                idx,
                '\u{2514}',
                '\u{2500}',
                '\u{2500}',
                ' ',
            ) {
                depth = depth + 1;
                idx = idx + 4;
                scanning = false;
            } else {
                scanning = false;
            }
        } else {
            scanning = false;
        }
    }
    proof {
        lemma_prefix_end_range(l@, 0);
    }
    if idx < len && l[idx] == ' ' {
        idx = idx + 1;
    }
    // The last " (" and the last ")".
    let mut n: usize = len;
    let mut open: Option<usize> = None;
    while n > 0 && open.is_none()
        invariant
            n <= len,
            len == l@.len(),
            last_open(l@, len as int) == match open {
                Some(p) => p as int,
                None => last_open(l@, n as int),
            },
        decreases n + (if open is None { 1int } else { 0int }),
    {
        if n < len && l[n - 1] == ' ' && l[n] == '(' {
            assert(last_open(l@, n as int) == n - 1);
            open = Some(n - 1);
        } else {
            n = n - 1;
        }
    }
    let mut n: usize = len;
    let mut close: Option<usize> = None;
    while n > 0 && close.is_none()
        invariant
            n <= len,
            len == l@.len(),
            last_close(l@, len as int) == match close {
                Some(q) => q as int,
                None => last_close(l@, n as int),
            },
        decreases n + (if close is None { 1int } else { 0int }),
    {
        if l[n - 1] == ')' {
            assert(last_close(l@, n as int) == n - 1);
            close = Some(n - 1);
        } else {
            n = n - 1;
        }
    }
    proof {
        lemma_last_open_range(l@, len as int);
        lemma_last_close_range(l@, len as int);
    }
    LineScan { depth, start: idx, open, close }
}

/// Whether position `k` of `l` starts at byte `b`, for some `k`.
fn has_char_at_byte(l: &Vec<char>, b: usize) -> (r: bool)
    ensures
        r == exists|k: int| char_at_byte(l@, b as int, k),
{
    let mut k: usize = 0;
    let mut acc: u128 = 0;
    let total = l.len();
    assert(l@.take(0) =~= Seq::<char>::empty());
    while acc < b as u128 && k < total
        invariant
            total == l@.len(),
            k <= l@.len(),
            acc == utf8_len(l@.take(k as int)),
            acc <= 4 * k,
            forall|j: int| 0 <= j < k ==> utf8_len(#[trigger] l@.take(j)) < b,
        decreases total - k,
    {
        proof {
            lemma_utf8_len_take_step(l@, k as int);
        }
        acc = acc + utf8_width_of(l[k]) as u128;
        k = k + 1;
    }
    if acc == b as u128 {
        assert(char_at_byte(l@, b as int, k as int));
        true
    } else {
        assert forall|j: int| !char_at_byte(l@, b as int, j) by {
            if 0 <= j <= l@.len() {
                if j < k {
                } else if j > k {
                    lemma_utf8_len_take_mono(l@, k as int, j);
                }
            }
        }
        false
    }
}

/// Whether a line can be read without failing (see [`line_readable`]).
pub fn line_is_readable(line: &str) -> (r: bool)
    ensures
        r == line_readable(line@),
{
    let l = chars_of(line);
    if line_is_blank(&l) {
        return true;
    }
    let sc = scan_line(&l);
    if sc.depth >= 100 {
        return false;
    }
    let mut sized_empty = true;
    if let Some(p) = sc.open {
        if let Some(q) = sc.close {
            if p < q {
                if sc.start > p {
                    return false;
                }
                sized_empty = sc.start == p;
            }
        }
    }
    assert(sized_empty == (sized_name(l@).len() == 0));
    if sized_empty {
        has_char_at_byte(&l, sc.start)
    } else {
        true
    }
}

/// Reads a non-blank line of a text report: its depth, name and size text.
fn parse_line(l: &Vec<char>) -> (res: (usize, String, String))
    requires
        !is_blank(l@),
        line_readable(l@),
    ensures
        res.0 == prefix_depth(l@, 0),
        res.1@ == line_name(l@),
        res.2@ == line_size(l@),
{
    let len = l.len();
    let sc = scan_line(l);
    let idx = sc.start;
    let mut name = String::new();
    let mut size_str = String::new();
    let mut name_empty = true;
    if let Some(p) = sc.open {
        if let Some(q) = sc.close {
            if p < q {
                name = string_of_range(l, idx, p);
                size_str = string_of_range(l, p + 2, q);
                name_empty = idx == p;
            }
        }
    }
    assert(name@ == sized_name(l@));
    assert(size_str@ == line_size(l@));
    assert(name_empty == (name@.len() == 0));
    if name_empty {
        let k = char_index_of_byte(l, idx);
        name = string_of_range(l, k, len);
    }
    (sc.depth, name, size_str)
}

// ---------------------------------------------------------------------------
// Reading a whole text report
// ---------------------------------------------------------------------------

/// A path component that joins the same way on every platform: not empty,
/// not `.` or `..`, and free of separators and drive colons.
pub open spec fn simple_component(name: Seq<char>) -> bool {
    &&& name.len() > 0
    &&& name != seq!['.']
    &&& name != seq!['.', '.']
    &&& forall|i: int| 0 <= i < name.len() ==> #[trigger] name[i] != '/' && name[i] != '\\' && name[i] != ':'
}

/// A path with a Windows verbatim prefix (`\\?\`), onto which components are
/// pushed after normalising the path.
pub open spec fn verbatim(parent: Seq<char>) -> bool {
    parent.len() >= 4 && parent[0] == '\\' && parent[1] == '\\' && parent[2] == '?' && parent[3] == '\\'
}

/// A directory path that a component is appended to after a separator: not
/// empty, without a verbatim prefix, and not ending in a separator or a drive
/// colon.
pub open spec fn plain_directory(parent: Seq<char>) -> bool {
    &&& parent.len() > 0
    &&& !verbatim(parent)
    &&& parent.last() != '/'
    &&& parent.last() != '\\'
    &&& parent.last() != ':'
}

/// `res` is `parent` joined with `name`, as far as every platform agrees: not
/// empty when the parent is not; for a simple component and a plain
/// directory, the parent, one separator (`/` or `\`), the name; for a simple
/// component and a parent without a verbatim prefix that ends in `/`, the
/// parent followed by the name.
pub open spec fn joined_path(parent: Seq<char>, name: Seq<char>, res: Seq<char>) -> bool {
    &&& parent.len() > 0 ==> res.len() > 0
    &&& simple_component(name) && plain_directory(parent) ==> {
        &&& res.len() == parent.len() + 1 + name.len()
        &&& res.take(parent.len() as int) == parent
        &&& res.skip(parent.len() as int + 1) == name
        &&& (res[parent.len() as int] == '/' || res[parent.len() as int] == '\\')
    }
    &&& simple_component(name) && parent.len() > 0 && !verbatim(parent) && parent.last() == '/' ==> res == parent
        + name
}

/// `std::path::PathBuf::push` of `name` onto `parent`, read back as a string
/// (`to_string_lossy`, lossless for paths built from strings). The contract
/// states what every platform agrees on (see [`joined_path`]): pushing onto a
/// non-empty path never gives an empty one, and a simple component goes after
/// one separator, or after the `/` that ends the parent, unless the parent has
/// a Windows verbatim prefix (which `push` normalises). Other inputs are left
/// unsaid.
#[verifier::external_body]
fn join_path(parent: &str, name: &str) -> (res: String)
    ensures
        joined_path(parent@, name@, res@),
{
    let mut p = std::path::PathBuf::from(parent);
    p.push(name);
    p.to_string_lossy().to_string()
}

/// A node read from a line, without children.
pub open spec fn leaf(name: Seq<char>, path: Seq<char>, size_str: Seq<char>) -> GuiNodeView {
    GuiNodeView { name, path, size_str, children: Seq::empty() }
}

/// The path under which a node's children are placed: its path, or its name
/// while it has no path.
pub open spec fn parent_path(node: GuiNodeView) -> Seq<char> {
    if node.path.len() == 0 {
        node.name
    } else {
        node.path
    }
}

/// A node with its path, and the paths of all the nodes below it, left out.
pub open spec fn bare(n: GuiNodeView) -> GuiNodeView
    decreases n,
{
    GuiNodeView { path: Seq::empty(), children: bare_all(n.children), ..n }
}

/// The nodes of a forest with every path left out.
pub open spec fn bare_all(s: Seq<GuiNodeView>) -> Seq<GuiNodeView>
    decreases s,
{
    if s.len() == 0 {
        Seq::empty()
    } else {
        bare_all(s.subrange(0, s.len() - 1)).push(bare(s[s.len() - 1]))
    }
}

pub proof fn lemma_bare_all(s: Seq<GuiNodeView>)
    ensures
        bare_all(s).len() == s.len(),
        forall|i: int| 0 <= i < s.len() ==> #[trigger] bare_all(s)[i] == bare(s[i]),
    decreases s.len(),
{
    if s.len() > 0 {
        let init = s.subrange(0, s.len() - 1);
        lemma_bare_all(init);
        assert forall|i: int| 0 <= i < s.len() implies #[trigger] bare_all(s)[i] == bare(s[i]) by {
            if i < s.len() - 1 {
                assert(init[i] == s[i]);
            }
        }
    }
}

/// `node` placed at depth `d` of the forest `f`: at the end of `f` at depth
/// zero, and otherwise, one level down, among the children of the last node.
/// Where there is no such node, or (at the top level) the last node has an
/// empty name and so no path to place children under, `f` stays as it is.
pub open spec fn insert_at(f: Seq<GuiNodeView>, d: nat, node: GuiNodeView, top: bool) -> Seq<GuiNodeView>
    decreases d,
{
    if d == 0 {
        f.push(node)
    } else if f.len() == 0 || (top && f.last().name.len() == 0) {
        f
    } else {
        let p = f.last();
        f.update(f.len() - 1, GuiNodeView { children: insert_at(p.children, (d - 1) as nat, node, false), ..p })
    }
}

/// How one line changes the tree read so far: a non-blank line places a new
/// node, with the line's name and size, at the line's depth under the last
/// node of the level above (its path is left out here).
pub open spec fn parse_step(roots: Seq<GuiNodeView>, l: Seq<char>) -> Seq<GuiNodeView> {
    if is_blank(l) {
        roots
    } else {
        insert_at(roots, prefix_depth(l, 0), leaf(line_name(l), Seq::empty(), line_size(l)), true)
    }
}

/// The tree read from `lines`, with every path left out.
pub open spec fn parse_lines(lines: Seq<Seq<char>>) -> Seq<GuiNodeView>
    decreases lines.len(),
{
    if lines.len() == 0 {
        Seq::empty()
    } else {
        parse_step(parse_lines(lines.drop_last()), lines.last())
    }
}

/// A top-level node with its path set to its name where it has none.
pub open spec fn finished_root(r: GuiNodeView) -> GuiNodeView {
    GuiNodeView { path: parent_path(r), ..r }
}

/// A top-level node with the paths of all the nodes below it left out.
pub open spec fn without_child_paths(r: GuiNodeView) -> GuiNodeView {
    GuiNodeView { children: bare_all(r.children), ..r }
}

/// The tree that the GUI shows for the lines of a text report, with the paths
/// below the top level left out.
pub open spec fn parse_report(lines: Seq<Seq<char>>) -> Seq<GuiNodeView> {
    parse_lines(lines).map_values(|r: GuiNodeView| finished_root(r))
}

/// Every line of the report can be read without failing.
pub open spec fn report_readable(lines: Seq<Seq<char>>) -> bool {
    forall|i: int| 0 <= i < lines.len() ==> line_readable(#[trigger] lines[i])
}

/// Below `n`, every child's path joins the path its parent places children
/// under with the child's name, and is not empty.
pub open spec fn node_paths(n: GuiNodeView) -> bool
    decreases n,
{
    &&& forall|j: int|
        #![trigger n.children[j]]
        0 <= j < n.children.len() ==> joined_path(parent_path(n), n.children[j].name, n.children[j].path)
            && n.children[j].path.len() > 0
    &&& forest_paths(n.children, false)
}

/// Every node of the forest has the paths of [`node_paths`] below it; at the
/// top level (while reading) no node has a path yet, below it every node has one.
pub open spec fn forest_paths(s: Seq<GuiNodeView>, top: bool) -> bool
    decreases s,
{
    forall|i: int|
        #![trigger s[i]]
        0 <= i < s.len() ==> (if top { s[i].path.len() == 0 } else { s[i].path.len() > 0 }) && node_paths(s[i])
}

proof fn lemma_views_push(v: Seq<GuiNode>, x: GuiNode)
    ensures
        gui_views(v.push(x)) == gui_views(v).push(gui_node_view(x)),
{
    assert(v.push(x).subrange(0, v.len() as int) =~= v);
}

/// Places a node with `name` and `size_str` at depth `d` of the forest `f`
/// (see [`insert_at`]); a child's path joins its parent's with its name.
fn insert_node(f: &mut Vec<GuiNode>, d: usize, name: String, size_str: String, top: bool)
    requires
        forest_paths(gui_views(old(f)@), top),
        d == 0 ==> top,
    ensures
        forest_paths(gui_views(final(f)@), top),
        bare_all(gui_views(final(f)@)) == insert_at(
            bare_all(gui_views(old(f)@)),
            d as nat,
            leaf(name@, Seq::empty(), size_str@),
            top,
        ),
        d > 0 ==> final(f)@.len() == old(f)@.len() && forall|i: int|
            0 <= i < old(f)@.len() ==> #[trigger] final(f)@[i].name == old(f)@[i].name && final(f)@[i].path
                == old(f)@[i].path,
    decreases d,
{
    let ghost ov = gui_views(old(f)@);
    proof {
        lemma_gui_views(old(f)@);
        lemma_bare_all(ov);
    }
    let ghost ob = bare_all(ov);
    if d == 0 {
        let ghost before = f@;
        let node = GuiNode { name, path: String::new(), size_str, children: Vec::new() };
        f.push(node);
        proof {
            lemma_views_push(before, node);
            let nv = gui_views(f@);
            lemma_gui_views(f@);
            lemma_bare_all(nv);
            assert(gui_views(node.children@) =~= Seq::<GuiNodeView>::empty());
            assert(bare_all(Seq::<GuiNodeView>::empty()) =~= Seq::<GuiNodeView>::empty());
            assert(bare(gui_node_view(node)) == leaf(name@, Seq::empty(), size_str@));
            assert(bare_all(nv) =~= ob.push(leaf(name@, Seq::empty(), size_str@)));
            assert(gui_node_view(node).children.len() == 0);
            assert(forest_paths(gui_node_view(node).children, false));
            assert(node_paths(gui_node_view(node)));
            assert forall|i: int| #![trigger nv[i]] 0 <= i < nv.len() implies (if top { nv[i].path.len() == 0 } else { nv[i].path.len() > 0 })
                && node_paths(nv[i]) by {
                if i < ov.len() {
                    assert(nv[i] == ov[i]);
                }
            }
        }
        return;
    }
    if f.len() == 0 {
        return;
    }
    let ghost before = f@;
    let mut p = f.pop().unwrap();
    let ghost pv = gui_node_view(p);
    let ghost rest = f@;
    assert(rest =~= before.subrange(0, before.len() - 1));
    assert(ov[ov.len() - 1] == pv);
    assert(ob.last() == bare(pv));
    let under = if p.path.as_str().is_empty() {
        p.name.clone()
    } else {
        p.path.clone()
    };
    assert(under@ == parent_path(pv));
    assert(node_paths(pv));
    if under.as_str().is_empty() {
        f.push(p);
        assert(f@ =~= before);
        assert(top && ob.last().name.len() == 0);
        return;
    }
    let ghost pb = bare(pv);
    proof {
        lemma_gui_views(p.children@);
        lemma_bare_all(pv.children);
    }
    assert(!(top && ob.last().name.len() == 0));
    if d == 1 {
        let path = join_path(under.as_str(), name.as_str());
        let child = GuiNode { name, path, size_str, children: Vec::new() };
        let ghost old_children = p.children@;
        p.children.push(child);
        proof {
            lemma_views_push(old_children, child);
            let cv = gui_views(p.children@);
            lemma_gui_views(p.children@);
            lemma_bare_all(cv);
            assert(gui_views(child.children@) =~= Seq::<GuiNodeView>::empty());
            assert(bare_all(Seq::<GuiNodeView>::empty()) =~= Seq::<GuiNodeView>::empty());
            assert(bare(gui_node_view(child)) == leaf(name@, Seq::empty(), size_str@));
            assert(bare_all(cv) =~= bare_all(pv.children).push(leaf(name@, Seq::empty(), size_str@)));
            assert(forest_paths(gui_node_view(child).children, false));
            assert(node_paths(gui_node_view(child)));
            assert(forest_paths(cv, false)) by {
                assert forall|i: int| #![trigger cv[i]] 0 <= i < cv.len() implies cv[i].path.len() > 0 && node_paths(cv[i]) by {
                    if i < pv.children.len() {
                        assert(cv[i] == pv.children[i]);
                    }
                }
            }
            assert forall|j: int| #![trigger cv[j]] 0 <= j < cv.len() implies joined_path(parent_path(gui_node_view(p)), cv[j].name, cv[j].path)
                && cv[j].path.len() > 0 by {
                if j < pv.children.len() {
                    assert(cv[j] == pv.children[j]);
                }
            }
        }
    } else {
        insert_node(&mut p.children, d - 1, name, size_str, false);
        proof {
            let cv = gui_views(p.children@);
            lemma_gui_views(p.children@);
            assert forall|j: int| #![trigger cv[j]] 0 <= j < cv.len() implies joined_path(parent_path(gui_node_view(p)), cv[j].name, cv[j].path)
                && cv[j].path.len() > 0 by {
                assert(cv[j].name == pv.children[j].name && cv[j].path == pv.children[j].path);
            }
        }
    }
    let ghost np = gui_node_view(p);
    assert(np.name == pv.name && np.path == pv.path && np.size_str == pv.size_str);
    assert(node_paths(np));
    f.push(p);
    proof {
        lemma_views_push(rest, p);
        let nv = gui_views(f@);
        lemma_gui_views(f@);
        lemma_gui_views(rest);
        lemma_bare_all(nv);
        assert(bare(np) == GuiNodeView { children: insert_at(pb.children, (d - 1) as nat, leaf(name@, Seq::empty(), size_str@), false), ..pb });
        assert(bare_all(nv) =~= ob.update(ob.len() - 1, bare(np)));
        assert forall|i: int| #![trigger nv[i]] 0 <= i < nv.len() implies (if top { nv[i].path.len() == 0 } else { nv[i].path.len() > 0 }) && node_paths(nv[i]) by {
            if i < ov.len() - 1 {
                assert(nv[i] == ov[i]);
            }
        }
        assert forall|i: int| 0 <= i < before.len() implies #[trigger] f@[i].name == before[i].name && f@[i].path == before[i].path by {
            if i < before.len() - 1 {
                assert(f@[i] == before[i]);
            }
        }
    }
}

/// Reads the lines of a text report into the tree that the GUI shows.
///
/// Each line becomes a node, placed at its depth under the last node of the
/// level above (see [`parse_report`]); a top-level node's path is its name,
/// and every other node's path joins its parent's path with its own name.
pub fn parse_text_report(lines: &Vec<String>) -> (res: Vec<GuiNode>)
    requires
        report_readable(lines@.map_values(|s: String| s@)),
    ensures
        gui_views(res@).map_values(|r: GuiNodeView| without_child_paths(r)) == parse_report(
            lines@.map_values(|s: String| s@),
        ),
        forall|i: int| 0 <= i < res@.len() ==> node_paths(#[trigger] gui_node_view(res@[i])),
{
    let ghost ls = lines@.map_values(|s: String| s@);
    let mut roots: Vec<GuiNode> = Vec::new();
    let mut li: usize = 0;
    assert(ls.take(0) =~= Seq::<Seq<char>>::empty());
    proof {
        assert(gui_views(roots@) =~= Seq::<GuiNodeView>::empty());
        assert(bare_all(Seq::<GuiNodeView>::empty()) =~= Seq::<GuiNodeView>::empty());
    }
    while li < lines.len()
        invariant
            li <= lines@.len(),
            ls == lines@.map_values(|s: String| s@),
            report_readable(ls),
            forest_paths(gui_views(roots@), true),
            bare_all(gui_views(roots@)) == parse_lines(ls.take(li as int)),
        decreases lines@.len() - li,
    {
        let ghost before = parse_lines(ls.take(li as int));
        assert(ls.take(li + 1).drop_last() =~= ls.take(li as int));
        let line = &lines[li];
        let chars = chars_of(line.as_str());
        assert(ls.take(li + 1).last() == chars@);
        assert(line_readable(chars@)) by {
            assert(ls[li as int] == chars@);
        }
        let ghost after = parse_lines(ls.take(li + 1));
        assert(after == parse_step(before, chars@));
        if !line_is_blank(&chars) {
            let (depth, name, size_str) = parse_line(&chars);
            insert_node(&mut roots, depth, name, size_str, true);
        }
        li = li + 1;
    }
    assert(ls.take(lines@.len() as int) =~= ls);
    let ghost spec_roots = parse_lines(ls);
    let ghost rv = gui_views(roots@);
    proof {
        lemma_gui_views(roots@);
        lemma_bare_all(rv);
    }
    // Top-level nodes take their name as their path.
    let mut pending = crate::text::reversed(roots);
    let mut done: Vec<GuiNode> = Vec::new();
    let n = pending.len();
    while pending.len() > 0
        invariant
            n == rv.len(),
            pending@.len() + done@.len() == n,
            forall|k: int| 0 <= k < pending@.len() ==> gui_node_view(#[trigger] pending@[k]) == rv[n - 1 - k],
            forall|k: int| 0 <= k < done@.len() ==> gui_node_view(#[trigger] done@[k]) == finished_root(rv[k]),
        decreases pending@.len(),
    {
        let k = done.len();
        let mut r = pending.pop().unwrap();
        assert(gui_node_view(r) == rv[k as int]);
        if r.path.as_str().is_empty() {
            r.path = r.name.clone();
        }
        done.push(r);
        assert forall|j: int| 0 <= j < done@.len() implies gui_node_view(#[trigger] done@[j]) == finished_root(rv[j]) by {
            if j < k {
            }
        }
    }
    proof {
        lemma_gui_views(done@);
        let lhs = gui_views(done@).map_values(|r: GuiNodeView| without_child_paths(r));
        let rhs = spec_roots.map_values(|r: GuiNodeView| finished_root(r));
        assert forall|i: int| 0 <= i < n implies lhs[i] == rhs[i] by {
            assert(gui_views(done@)[i] == finished_root(rv[i]));
            assert(rv[i].path.len() == 0);
            assert(spec_roots[i] == bare(rv[i]));
            assert(bare(rv[i]).name == rv[i].name);
        }
        assert(lhs =~= rhs);
        assert forall|i: int| 0 <= i < done@.len() implies node_paths(#[trigger] gui_node_view(done@[i])) by {
            assert(gui_node_view(done@[i]) == finished_root(rv[i]));
            assert(node_paths(rv[i]));
            assert(parent_path(finished_root(rv[i])) == parent_path(rv[i]));
            assert(finished_root(rv[i]).children == rv[i].children);
        }
    }
    done
}

/// Whether every line of a report can be read without failing.
pub fn report_is_readable(lines: &Vec<String>) -> (r: bool)
    ensures
        r == report_readable(lines@.map_values(|s: String| s@)),
{
    let ghost ls = lines@.map_values(|s: String| s@);
    let mut i: usize = 0;
    while i < lines.len()
        invariant
            i <= lines@.len(),
            ls == lines@.map_values(|s: String| s@),
            forall|k: int| 0 <= k < i ==> line_readable(#[trigger] ls[k]),
        decreases lines@.len() - i,
    {
        if !line_is_readable(lines[i].as_str()) {
            assert(!line_readable(ls[i as int]));
            return false;
        }
        i = i + 1;
    }
    true
}

// ---------------------------------------------------------------------------
// Answering the GUI's requests
// ---------------------------------------------------------------------------

/// `s` with every occurrence of `from` replaced by `to`, scanning left to
/// right without overlaps (`str::replace`).
pub open spec fn replace_all(s: Seq<char>, from: Seq<char>, to: Seq<char>) -> Seq<char>
    decreases s.len(),
{
    if from.len() == 0 || s.len() < from.len() {
        s
    } else if s.take(from.len() as int) == from {
        to + replace_all(s.skip(from.len() as int), from, to)
    } else {
        seq![s[0]] + replace_all(s.skip(1), from, to)
    }
}

/// `s` begins with `prefix`.
pub open spec fn starts_with(s: Seq<char>, prefix: Seq<char>) -> bool {
    prefix.len() <= s.len() && s.take(prefix.len() as int) == prefix
}

/// The first position where `pat` occurs in `s`, or -1.
pub open spec fn find_first(s: Seq<char>, pat: Seq<char>) -> int {
    if exists|i: int| 0 <= i && i + pat.len() <= s.len() && #[trigger] s.subrange(i, i + pat.len()) == pat {
        choose|i: int|
            0 <= i && i + pat.len() <= s.len() && #[trigger] s.subrange(i, i + pat.len()) == pat && forall|j: int|
                0 <= j < i ==> #[trigger] s.subrange(j, j + pat.len()) != pat
    } else {
        -1
    }
}

/// `s` without its trailing NUL characters.
pub open spec fn trim_end_nuls(s: Seq<char>) -> Seq<char>
    decreases s.len(),
{
    if s.len() > 0 && s.last() == '\0' {
        trim_end_nuls(s.drop_last())
    } else {
        s
    }
}

/// `s` without its trailing whitespace.
pub open spec fn trim_end_ws(s: Seq<char>) -> Seq<char>
    decreases s.len(),
{
    if s.len() > 0 && is_whitespace(s.last()) {
        trim_end_ws(s.drop_last())
    } else {
        s
    }
}

/// `s` without its leading whitespace.
pub open spec fn trim_start_ws(s: Seq<char>) -> Seq<char>
    decreases s.len(),
{
    if s.len() > 0 && is_whitespace(s[0]) {
        trim_start_ws(s.skip(1))
    } else {
        s
    }
}

/// What percent-decoding (`urlencoding::decode`) gives for a text: `None`
/// where the decoded bytes are not UTF-8.
pub uninterp spec fn percent_decoded(data: Seq<char>) -> Option<Seq<char>>;

/// `urlencoding::decode`: decodes `%xx` escapes as UTF-8 bytes. A text
/// without `%` comes back unchanged (the crate's source returns it borrowed).
#[verifier::external_body]
fn url_decode(data: &str) -> (res: Option<String>)
    ensures
        res is None <==> percent_decoded(data@) is None,
        res matches Some(s) ==> percent_decoded(data@) == Some(s@),
        !data@.contains('%') ==> res is Some && res.unwrap()@ == data@,
{
    match urlencoding::decode(data) {
        Ok(s) => Some(s.into_owned()),
        Err(_) => None,
    }
}

/// The page with the tree's JSON put in place of the marker.
pub open spec fn page_with_tree(html_template: Seq<char>, tree_json: Seq<char>) -> Seq<char> {
    replace_all(html_template, "\"INJECT_TREE_DATA_HERE\""@, tree_json)
}

/// The path that a `POST /open` request asks to open: its body after the
/// blank line, without trailing NULs and surrounding whitespace, decoded.
pub open spec fn requested_path(request: Seq<char>) -> Option<Seq<char>> {
    let at = find_first(request, seq!['\r', '\n', '\r', '\n']);
    if at < 0 {
        None
    } else {
        percent_decoded(trim_start_ws(trim_end_ws(trim_end_nuls(request.skip(at + 4)))))
    }
}

/// The answer to a request from the GUI's browser page.
pub struct Reply {
    /// The HTTP response to send back.
    pub response: String,
    /// A path to open with the system's default program.
    pub open_path: Option<String>,
}

fn ends_before_match(s: &Vec<char>, i: usize, pat: &Vec<char>) -> (r: bool)
    requires
        i + pat.len() <= s.len(),
    ensures
        r == (s@.subrange(i as int, i + pat@.len()) == pat@),
{
    let mut j: usize = 0;
    while j < pat.len()
        invariant
            j <= pat@.len(),
            i + pat.len() <= s.len(),
            forall|k: int| 0 <= k < j ==> s@[i + k] == pat@[k],
        decreases pat@.len() - j,
    {
        if s[i + j] != pat[j] {
            assert(s@.subrange(i as int, i + pat@.len())[j as int] != pat@[j as int]);
            return false;
        }
        j = j + 1;
    }
    assert(s@.subrange(i as int, i + pat@.len()) =~= pat@);
    true
}

fn replace_marker(s: &Vec<char>, from: &Vec<char>, to: &str) -> (res: String)
    requires
        from@.len() > 0,
    ensures
        res@ == replace_all(s@, from@, to@),
{
    let mut res = String::new();
    let mut i: usize = 0;
    let n = s.len();
    let m = from.len();
    assert(s@.skip(0) =~= s@);
    while i < n
        invariant
            n == s@.len(),
            m == from@.len(),
            m > 0,
            i <= n,
            res@ + replace_all(s@.skip(i as int), from@, to@) == replace_all(s@, from@, to@),
        decreases n - i,
    {
        let ghost rest = s@.skip(i as int);
        if n - i >= m && ends_before_match(s, i, from) {
            assert(rest.take(m as int) =~= s@.subrange(i as int, i + m));
            assert(rest.skip(m as int) =~= s@.skip(i + m));
            res.append(to);
            i = i + m;
        } else {
            if n - i >= m {
                assert(rest.take(m as int) =~= s@.subrange(i as int, i + m));
            }
            assert(rest.skip(1) =~= s@.skip(i + 1));
            if n - i < m {
                assert(replace_all(rest, from@, to@) == rest);
                let ghost before = res@;
                let mut j = i;
                while j < n
                    invariant
                        n == s@.len(),
                        i <= j <= n,
                        res@ == before + s@.subrange(i as int, j as int),
                    decreases n - j,
                {
                    push_char(&mut res, s[j]);
                    assert(s@.subrange(i as int, j + 1) =~= s@.subrange(i as int, j as int).push(s@[j as int]));
                    j = j + 1;
                }
                assert(s@.subrange(i as int, n as int) =~= rest);
                assert(s@.skip(n as int) =~= Seq::<char>::empty());
                assert(res@ + replace_all(s@.skip(n as int), from@, to@) =~= res@);
                i = n;
            } else {
                push_char(&mut res, s[i]);
                assert(rest[0] == s@[i as int]);
                assert(res@ + replace_all(s@.skip(i + 1), from@, to@) =~= (res@.drop_last() + (seq![s@[i as int]]
                    + replace_all(rest.skip(1), from@, to@))));
                i = i + 1;
            }
        }
    }
    assert(s@.skip(n as int) =~= Seq::<char>::empty());
    assert(res@ + replace_all(s@.skip(n as int), from@, to@) =~= res@);
    res
}

fn starts_with_chars(s: &Vec<char>, prefix: &Vec<char>) -> (r: bool)
    ensures
        r == starts_with(s@, prefix@),
{
    if prefix.len() <= s.len() {
        let m = ends_before_match(s, 0, prefix);
        assert(s@.take(prefix@.len() as int) =~= s@.subrange(0, prefix@.len() as int));
        m
    } else {
        false
    }
}

fn find_first_chars(s: &Vec<char>, pat: &Vec<char>) -> (r: Option<usize>)
    requires
        pat@.len() > 0,
    ensures
        match r {
            Some(i) => i == find_first(s@, pat@) && i + pat.len() <= s.len(),
            None => find_first(s@, pat@) == -1,
        },
{
    let n = s.len();
    let m = pat.len();
    if m > n {
        assert(!exists|i: int| 0 <= i && i + pat@.len() <= s@.len() && #[trigger] s@.subrange(i, i + pat@.len()) == pat@);
        return None;
    }
    let mut i: usize = 0;
    while i <= n - m
        invariant
            n == s@.len(),
            m == pat@.len(),
            m > 0,
            m <= n,
            i <= n - m + 1,
            forall|j: int| 0 <= j < i ==> #[trigger] s@.subrange(j, j + pat@.len()) != pat@,
        decreases n - m + 1 - i,
    {
        if ends_before_match(s, i, pat) {
            let ghost c = choose|c: int|
                0 <= c && c + pat@.len() <= s@.len() && #[trigger] s@.subrange(c, c + pat@.len()) == pat@ && forall|j: int|
                    0 <= j < c ==> #[trigger] s@.subrange(j, j + pat@.len()) != pat@;
            assert(0 <= i && i + pat@.len() <= s@.len() && s@.subrange(i as int, i + pat@.len()) == pat@ && forall|j: int|
                0 <= j < i ==> #[trigger] s@.subrange(j, j + pat@.len()) != pat@);
            assert(c == i) by {
                if c < i {
                } else if c > i {
                    assert(s@.subrange(i as int, i + pat@.len()) != pat@);
                }
            }
            return Some(i);
        }
        i = i + 1;
    }
    assert(!exists|i: int| 0 <= i && i + pat@.len() <= s@.len() && #[trigger] s@.subrange(i, i + pat@.len()) == pat@);
    None
}

/// The body of a request after the blank line at `at`, trimmed.
fn trimmed_body(req: &Vec<char>, at: usize) -> (res: String)
    requires
        at <= req@.len(),
    ensures
        res@ == trim_start_ws(trim_end_ws(trim_end_nuls(req@.skip(at as int)))),
{
    let n = req.len();
    let mut e = n;
    assert(req@.skip(at as int) =~= req@.subrange(at as int, n as int));
    while e > at && req[e - 1] == '\0'
        invariant
            at <= e <= n,
            n == req@.len(),
            trim_end_nuls(req@.subrange(at as int, n as int)) == trim_end_nuls(req@.subrange(at as int, e as int)),
        decreases e,
    {
        assert(req@.subrange(at as int, e as int).drop_last() =~= req@.subrange(at as int, e - 1));
        e = e - 1;
    }
    assert(trim_end_nuls(req@.subrange(at as int, e as int)) == req@.subrange(at as int, e as int));
    while e > at && is_whitespace_char(req[e - 1])
        invariant
            at <= e <= n,
            n == req@.len(),
            trim_end_ws(trim_end_nuls(req@.subrange(at as int, n as int))) == trim_end_ws(req@.subrange(at as int, e as int)),
        decreases e,
    {
        assert(req@.subrange(at as int, e as int).drop_last() =~= req@.subrange(at as int, e - 1));
        e = e - 1;
    }
    assert(trim_end_ws(req@.subrange(at as int, e as int)) == req@.subrange(at as int, e as int));
    let mut b = at;
    while b < e && is_whitespace_char(req[b])
        invariant
            at <= b <= e,
            e <= n,
            n == req@.len(),
            trim_start_ws(trim_end_ws(trim_end_nuls(req@.subrange(at as int, n as int)))) == trim_start_ws(req@.subrange(b as int, e as int)),
        decreases e - b,
    {
        assert(req@.subrange(b as int, e as int).skip(1) =~= req@.subrange(b + 1, e as int));
        b = b + 1;
    }
    assert(trim_start_ws(req@.subrange(b as int, e as int)) == req@.subrange(b as int, e as int));
    string_of_range(req, b, e)
}

/// The response to a page request: the page, with its length in bytes.
pub open spec fn page_response(page: Seq<char>) -> Seq<char> {
    "HTTP/1.1 200 OK\r\nContent-Length: "@ + crate::text::decimal((vstd::utf8::encode_utf8(page).len() as usize) as nat)
        + "\r\nContent-Type: text/html; charset=utf-8\r\nConnection: close\r\n\r\n"@ + page
}

fn page_reply(html_template: &str, tree_json: &str) -> (r: String)
    ensures
        r@ == page_response(page_with_tree(html_template@, tree_json@)),
{
    let template = chars_of(html_template);
    let marker = chars_of("\"INJECT_TREE_DATA_HERE\"");
    proof {
        reveal_strlit("\"INJECT_TREE_DATA_HERE\"");
    }
    let html = replace_marker(&template, &marker, tree_json);
    let mut response = String::from_str("HTTP/1.1 200 OK\r\nContent-Length: ");
    let len = html.as_str().len();
    crate::text::push_decimal(&mut response, len as u64);
    response.append("\r\nContent-Type: text/html; charset=utf-8\r\nConnection: close\r\n\r\n");
    response.append(html.as_str());
    response
}

fn open_request(req: &Vec<char>) -> (p: Option<String>)
    ensures
        p is Some <==> requested_path(req@) is Some,
        p matches Some(p) ==> requested_path(req@) == Some(p@),
{
    let crlf2 = vec!['\r', '\n', '\r', '\n'];
    assert(crlf2@ =~= seq!['\r', '\n', '\r', '\n']);
    match find_first_chars(req, &crlf2) {
        Some(at) => {
            let body = trimmed_body(req, at + 4);
            url_decode(body.as_str())
        },
        None => None,
    }
}

/// Answers one request of the GUI's page: `GET /` gets the page with the
/// tree's JSON in place of its marker; `POST /open` gets `OK` and names the
/// path in its body to be opened; anything else gets `404 NOT FOUND`.
pub fn respond(request: &str, html_template: &str, tree_json: &str) -> (r: Reply)
    ensures
        starts_with(request@, "GET / "@) ==> r.response@ == page_response(
            page_with_tree(html_template@, tree_json@),
        ) && r.open_path is None,
        !starts_with(request@, "GET / "@) && starts_with(request@, "POST /open "@) ==> {
            &&& r.response@ == "HTTP/1.1 200 OK\r\nContent-Length: 2\r\nConnection: close\r\n\r\nOK"@
            &&& r.open_path is Some <==> requested_path(request@) is Some
            &&& r.open_path matches Some(p) ==> requested_path(request@) == Some(p@)
        },
        !starts_with(request@, "GET / "@) && !starts_with(request@, "POST /open "@) ==> {
            &&& r.response@ == "HTTP/1.1 404 NOT FOUND\r\nContent-Length: 9\r\nConnection: close\r\n\r\nNot Found"@
            &&& r.open_path is None
        },
{
    let req = chars_of(request);
    let get = chars_of("GET / ");
    let post = chars_of("POST /open ");
    if starts_with_chars(&req, &get) {
        Reply { response: page_reply(html_template, tree_json), open_path: None }
    } else if starts_with_chars(&req, &post) {
        let open_path = open_request(&req);
        Reply {
            response: String::from_str("HTTP/1.1 200 OK\r\nContent-Length: 2\r\nConnection: close\r\n\r\nOK"),
            open_path,
        }
    } else {
        Reply {
            response: String::from_str(
                "HTTP/1.1 404 NOT FOUND\r\nContent-Length: 9\r\nConnection: close\r\n\r\nNot Found",
            ),
            open_path: None,
        }
    }
}

} // verus!
