use vstd::prelude::*;
use crate::models::dir_node::DirNode;
use crate::text::push_char;
use crate::utils::{format_size, format_size_spec};

verus! {

/// The formats a report can be written in.
#[derive(Clone, Copy, Debug, PartialEq, Eq, Structural)]
pub enum ReportFormat {
    Csv,
    Json,
    Text,
}

impl Default for ReportFormat {
    fn default() -> (f: Self)
        ensures
            f == ReportFormat::Csv,
    {
        ReportFormat::Csv
    }
}

/// The views of a sequence of strings.
pub open spec fn string_views(v: Seq<String>) -> Seq<Seq<char>> {
    v.map_values(|s: String| s@)
}

// ---------------------------------------------------------------------------
// Text report
// ---------------------------------------------------------------------------

/// The connector drawn before an entry: none at the top level, a corner for
/// the last entry of a list, a tee for the others.
pub open spec fn tree_prefix(top: bool, last: bool) -> Seq<char> {
    if top {
        Seq::empty()
    } else if last {
        seq!['\u{2514}', '\u{2500}', '\u{2500}', ' ']
    } else {
        seq!['\u{251C}', '\u{2500}', '\u{2500}', ' ']
    }
}

/// The indentation under an entry: unchanged at the top level, blank under
/// the last entry of a list, a vertical bar under the others.
pub open spec fn child_indent(indent: Seq<char>, top: bool, last: bool) -> Seq<char> {
    if top {
        indent
    } else if last {
        indent + seq![' ', ' ', ' ', ' ']
    } else {
        indent + seq!['\u{2502}', ' ', ' ', ' ']
    }
}

/// The report line of one entry: `<indent><connector> <name> (<size>)`.
pub open spec fn entry_line(indent: Seq<char>, top: bool, last: bool, node: DirNode) -> Seq<char> {
    indent + tree_prefix(top, last) + seq![' '] + node.name@ + seq![' ', '('] + format_size_spec(
        node.size as nat,
    ) + seq![')']
}

/// The lines of the text report for `nodes[i..]`, each entry followed by the
/// lines of its children; `top` for the top level of the report.
pub open spec fn tree_lines(nodes: Seq<DirNode>, i: int, indent: Seq<char>, top: bool) -> Seq<Seq<char>>
    decreases nodes, nodes.len() - i,
{
    if i < 0 || i >= nodes.len() {
        Seq::empty()
    } else {
        let last = i == nodes.len() - 1;
        seq![entry_line(indent, top, last, nodes[i])]
            + tree_lines(nodes[i].children@, 0, child_indent(indent, top, last), false)
            + tree_lines(nodes, i + 1, indent, top)
    }
}

fn push_connector(s: &mut String, depth: usize, last: bool)
    ensures
        final(s)@ == old(s)@ + tree_prefix(depth == 0, last),
{
    if depth == 0 {
        assert(old(s)@ + tree_prefix(depth == 0, last) =~= old(s)@);
    } else {
        if last {
            push_char(s, '\u{2514}');
        } else {
            push_char(s, '\u{251C}');
        }
        push_char(s, '\u{2500}');
        push_char(s, '\u{2500}');
        push_char(s, ' ');
        assert(final(s)@ =~= old(s)@ + tree_prefix(depth == 0, last));
    }
}

fn write_tree(nodes: &Vec<DirNode>, indent: &String, depth: usize, out: &mut Vec<String>)
    ensures
        string_views(final(out)@) == string_views(old(out)@) + tree_lines(nodes@, 0, indent@, depth == 0),
    decreases nodes@,
{
    let count = nodes.len();
    let mut i: usize = 0;
    while i < count
        invariant
            count == nodes@.len(),
            i <= count,
            string_views(out@) + tree_lines(nodes@, i as int, indent@, depth == 0) == string_views(old(out)@)
                + tree_lines(nodes@, 0, indent@, depth == 0),
        decreases count - i,
    {
        let node = &nodes[i];
        let last = i == count - 1;
        let mut line = indent.clone();
        push_connector(&mut line, depth, last);
        push_char(&mut line, ' ');
        line.append(node.name.as_str());
        push_char(&mut line, ' ');
        push_char(&mut line, '(');
        let size = format_size(node.size);
        line.append(size.as_str());
        push_char(&mut line, ')');
        assert(line@ =~= entry_line(indent@, depth == 0, last, nodes@[i as int]));
        let ghost before = out@;
        out.push(line);
        assert(string_views(out@) =~= string_views(before).push(entry_line(indent@, depth == 0, last, nodes@[i as int])));
        let mut new_indent = indent.clone();
        if depth != 0 {
            if last {
                push_char(&mut new_indent, ' ');
            } else {
                push_char(&mut new_indent, '\u{2502}');
            }
            push_char(&mut new_indent, ' ');
            push_char(&mut new_indent, ' ');
            push_char(&mut new_indent, ' ');
        }
        assert(new_indent@ =~= child_indent(indent@, depth == 0, last));
        proof {
            assert(decreases_to!(nodes@ => nodes@[i as int]));
            assert(decreases_to!(nodes@[i as int] => nodes@[i as int].children));
            assert(decreases_to!(nodes@[i as int].children => nodes@[i as int].children@));
        }
        let ghost mid = out@;
        write_tree(&node.children, &new_indent, depth.saturating_add(1), out);
        assert(tree_lines(nodes@, i as int, indent@, depth == 0) =~= seq![entry_line(indent@, depth == 0, last, nodes@[i as int])]
            + tree_lines(nodes@[i as int].children@, 0, new_indent@, false) + tree_lines(nodes@, i + 1, indent@, depth == 0));
        i = i + 1;
    }
}

// ---------------------------------------------------------------------------
// CSV report
// ---------------------------------------------------------------------------

/// One row of the CSV report.
pub struct CsvRow {
    pub name: String,
    pub path: String,
    pub size_gb: String,
}

/// The contents of a CSV row: name, path and formatted size.
pub open spec fn csv_row_view(r: CsvRow) -> (Seq<char>, Seq<char>, Seq<char>) {
    (r.name@, r.path@, r.size_gb@)
}

/// The views of a sequence of rows.
pub open spec fn csv_row_views(rows: Seq<CsvRow>) -> Seq<(Seq<char>, Seq<char>, Seq<char>)> {
    rows.map_values(|r: CsvRow| csv_row_view(r))
}

/// The CSV rows of `nodes[i..]`: each node, then the rows of its children.
pub open spec fn csv_rows(nodes: Seq<DirNode>, i: int) -> Seq<(Seq<char>, Seq<char>, Seq<char>)>
    decreases nodes, nodes.len() - i,
{
    if i < 0 || i >= nodes.len() {
        Seq::empty()
    } else {
        seq![(nodes[i].name@, nodes[i].path@, format_size_spec(nodes[i].size as nat))]
            + csv_rows(nodes[i].children@, 0) + csv_rows(nodes, i + 1)
    }
}

fn write_csv_recursive(out: &mut Vec<CsvRow>, nodes: &Vec<DirNode>)
    ensures
        csv_row_views(final(out)@) == csv_row_views(old(out)@) + csv_rows(nodes@, 0),
    decreases nodes@,
{
    let count = nodes.len();
    let mut i: usize = 0;
    while i < count
        invariant
            count == nodes@.len(),
            i <= count,
            csv_row_views(out@) + csv_rows(nodes@, i as int) == csv_row_views(old(out)@) + csv_rows(nodes@, 0),
        decreases count - i,
    {
        let node = &nodes[i];
        let row = CsvRow { name: node.name.clone(), path: node.path.clone(), size_gb: format_size(node.size) };
        let ghost before = out@;
        out.push(row);
        assert(csv_row_views(out@) =~= csv_row_views(before).push(
            (nodes@[i as int].name@, nodes@[i as int].path@, format_size_spec(nodes@[i as int].size as nat)),
        ));
        proof {
            assert(decreases_to!(nodes@ => nodes@[i as int]));
            assert(decreases_to!(nodes@[i as int] => nodes@[i as int].children));
            assert(decreases_to!(nodes@[i as int].children => nodes@[i as int].children@));
        }
        write_csv_recursive(out, &node.children);
        assert(csv_rows(nodes@, i as int) =~= seq![(nodes@[i as int].name@, nodes@[i as int].path@, format_size_spec(nodes@[i as int].size as nat))]
            + csv_rows(nodes@[i as int].children@, 0) + csv_rows(nodes@, i + 1));
        i = i + 1;
    }
}

// ---------------------------------------------------------------------------
// JSON report
// ---------------------------------------------------------------------------

/// One node of the JSON report.
pub struct JsonNode {
    pub name: String,
    pub path: String,
    pub size_gb: String,
    pub children: Vec<JsonNode>,
}

/// The mathematical value of a [`JsonNode`].
pub struct JsonNodeView {
    pub name: Seq<char>,
    pub path: Seq<char>,
    pub size_gb: Seq<char>,
    pub children: Seq<JsonNodeView>,
}

/// The views of a sequence of JSON nodes.
pub open spec fn json_views(nodes: Seq<JsonNode>) -> Seq<JsonNodeView>
    decreases nodes,
{
    if nodes.len() == 0 {
        Seq::empty()
    } else {
        json_views(nodes.subrange(0, nodes.len() - 1)).push(json_node_view(nodes[nodes.len() - 1]))
    }
}

/// The view of one JSON node.
pub open spec fn json_node_view(node: JsonNode) -> JsonNodeView
    decreases node,
{
    JsonNodeView {
        name: node.name@,
        path: node.path@,
        size_gb: node.size_gb@,
        children: json_views(node.children@),
    }
}

/// The JSON report's rendering of a tree: every node with its size formatted.
pub open spec fn json_of(nodes: Seq<DirNode>) -> Seq<JsonNodeView>
    decreases nodes,
{
    if nodes.len() == 0 {
        Seq::empty()
    } else {
        json_of(nodes.subrange(0, nodes.len() - 1)).push(json_of_node(nodes[nodes.len() - 1]))
    }
}

/// The JSON rendering of one node.
pub open spec fn json_of_node(node: DirNode) -> JsonNodeView
    decreases node,
{
    JsonNodeView {
        name: node.name@,
        path: node.path@,
        size_gb: format_size_spec(node.size as nat),
        children: json_of(node.children@),
    }
}

proof fn lemma_json_views_push(a: Seq<JsonNode>, x: JsonNode)
    ensures
        json_views(a.push(x)) == json_views(a).push(json_node_view(x)),
{
    assert(a.push(x).subrange(0, a.len() as int) =~= a);
}

proof fn lemma_json_of_prefix(nodes: Seq<DirNode>, i: int)
    requires
        0 <= i < nodes.len(),
    ensures
        json_of(nodes.subrange(0, i + 1)) == json_of(nodes.subrange(0, i)).push(json_of_node(nodes[i])),
{
    assert(nodes.subrange(0, i + 1).subrange(0, i) =~= nodes.subrange(0, i));
}

/// The JSON report keeps every folder: at each position, at every depth, the
/// JSON node has the folder's own name, its own path and its size text, and
/// the JSON nodes of its subfolders as children.
pub proof fn lemma_json_keeps_folders(nodes: Seq<DirNode>)
    ensures
        json_of(nodes).len() == nodes.len(),
        forall|i: int|
            0 <= i < nodes.len() ==> {
                &&& (#[trigger] json_of(nodes)[i]).name == nodes[i].name@
                &&& json_of(nodes)[i].path == nodes[i].path@
                &&& json_of(nodes)[i].size_gb == format_size_spec(nodes[i].size as nat)
                &&& json_of(nodes)[i].children == json_of(nodes[i].children@)
            },
    decreases nodes.len(),
{
    if nodes.len() > 0 {
        let init = nodes.subrange(0, nodes.len() - 1);
        lemma_json_keeps_folders(init);
        assert forall|i: int| 0 <= i < nodes.len() implies {
            &&& (#[trigger] json_of(nodes)[i]).name == nodes[i].name@
            &&& json_of(nodes)[i].path == nodes[i].path@
            &&& json_of(nodes)[i].size_gb == format_size_spec(nodes[i].size as nat)
            &&& json_of(nodes)[i].children == json_of(nodes[i].children@)
        } by {
            if i < nodes.len() - 1 {
                assert(init[i] == nodes[i]);
                assert(json_of(nodes)[i] == json_of(init)[i]);
            } else {
                assert(json_of(nodes)[i] == json_of_node(nodes[i]));
            }
        }
    }
}

fn transform_json(nodes: &Vec<DirNode>) -> (res: Vec<JsonNode>)
    ensures
        json_views(res@) == json_of(nodes@),
    decreases nodes@,
{
    let mut res: Vec<JsonNode> = Vec::new();
    let count = nodes.len();
    let mut i: usize = 0;
    assert(nodes@.subrange(0, 0) =~= Seq::<DirNode>::empty());
    assert(res@ =~= Seq::<JsonNode>::empty());
    while i < count
        invariant
            count == nodes@.len(),
            i <= count,
            json_views(res@) == json_of(nodes@.subrange(0, i as int)),
        decreases count - i,
    {
        let n = &nodes[i];
        proof {
            assert(decreases_to!(nodes@ => nodes@[i as int]));
            assert(decreases_to!(nodes@[i as int] => nodes@[i as int].children));
            assert(decreases_to!(nodes@[i as int].children => nodes@[i as int].children@));
        }
        let children = transform_json(&n.children);
        let j = JsonNode { name: n.name.clone(), path: n.path.clone(), size_gb: format_size(n.size), children };
        proof {
            lemma_json_views_push(res@, j);
            lemma_json_of_prefix(nodes@, i as int);
        }
        res.push(j);
        i = i + 1;
    }
    assert(nodes@.subrange(0, count as int) =~= nodes@);
    res
}

// ---------------------------------------------------------------------------
// Report assembly
// ---------------------------------------------------------------------------

/// What a report holds, in the shape its format writes.
pub enum ReportBody {
    /// The rows of the CSV file, after its header.
    Csv(Vec<CsvRow>),
    /// The nodes of the JSON document.
    Json(Vec<JsonNode>),
    /// The lines of the text file.
    Text(Vec<String>),
}

/// A report: where it goes and what it holds.
pub struct Report {
    pub output_path: String,
    pub body: ReportBody,
}

/// The file a report goes to when no output path is given.
pub open spec fn default_output(format: ReportFormat) -> Seq<char> {
    match format {
        ReportFormat::Csv => "rusize_report.csv"@,
        ReportFormat::Json => "rusize_report.json"@,
        ReportFormat::Text => "rusize_report.txt"@,
    }
}

/// Builds the report of `nodes` in `format`: the CSV rows in pre-order, the
/// JSON tree, or the text tree; it goes to `output_file`, or to
/// `rusize_report.<csv|json|txt>` when none is given.
pub fn generate_report(nodes: &Vec<DirNode>, format: &ReportFormat, output_file: Option<&str>) -> (res: Report)
    ensures
        res.output_path@ == match output_file {
            Some(p) => p@,
            None => default_output(*format),
        },
        match *format {
            ReportFormat::Csv => res.body matches ReportBody::Csv(rows) && csv_row_views(rows@) == csv_rows(nodes@, 0),
            ReportFormat::Json => res.body matches ReportBody::Json(tree) && json_views(tree@) == json_of(nodes@),
            ReportFormat::Text => res.body matches ReportBody::Text(lines) && string_views(lines@) == tree_lines(
                nodes@,
                0,
                Seq::empty(),
                true,
            ),
        },
{
    let output_path = match output_file {
        Some(p) => String::from_str(p),
        None => match format {
            ReportFormat::Csv => String::from_str("rusize_report.csv"),
            ReportFormat::Json => String::from_str("rusize_report.json"),
            ReportFormat::Text => String::from_str("rusize_report.txt"),
        },
    };
    let body = match format {
        ReportFormat::Csv => {
            let mut rows: Vec<CsvRow> = Vec::new();
            assert(csv_row_views(rows@) =~= Seq::empty());
            write_csv_recursive(&mut rows, nodes);
            assert(csv_row_views(rows@) =~= csv_rows(nodes@, 0));
            ReportBody::Csv(rows)
        },
        ReportFormat::Json => ReportBody::Json(transform_json(nodes)),
        ReportFormat::Text => {
            let mut lines: Vec<String> = Vec::new();
            assert(string_views(lines@) =~= Seq::empty());
            let indent = String::new();
            write_tree(nodes, &indent, 0, &mut lines);
            assert(string_views(lines@) =~= tree_lines(nodes@, 0, Seq::empty(), true));
            ReportBody::Text(lines)
        },
    };
    Report { output_path, body }
}

} // verus!
