use crate::node::{nodes_view, strings_view, Node, NodeView};
use vstd::string::StringExecFns;
use crate::pattern::{occurs_in, rest_after, LinePattern};
use vstd::prelude::*;

verus! {

/// The literal that marks a task being added.
pub const ADDED_MARKER: &'static str = "Task Added:";

/// The literal that marks a task being started.
pub const STARTING_MARKER: &'static str = "✨ Starting task: ";

/// The literal that marks the open task as finished, wherever it stands.
pub const FINISHED_MARKER: &'static str = "Finished:";

/// The literal that marks a command being executed.
pub const EXECUTING_MARKER: &'static str = "Executing: ";

pub const ADDED_FLAG: &'static str = "added";

pub const STARTING_FLAG: &'static str = "starting";

pub const EXECUTING_FLAG: &'static str = "executing";

/// The nodes built so far and the task that is open, if any.
pub struct ParseState {
    pub nodes: Seq<NodeView>,
    pub open: Option<usize>,
}

pub open spec fn initial_state() -> ParseState {
    ParseState { nodes: Seq::empty(), open: None }
}

/// Appends a node for `task` with the single flag `flag`, as a child of the
/// open task, and makes it the open task.
pub open spec fn open_node(s: ParseState, task: Seq<char>, flag: Seq<char>) -> ParseState {
    let n = s.nodes.len() as usize;
    let node = NodeView {
        task,
        output: Seq::empty(),
        parent: s.open,
        children: Seq::empty(),
        flags: seq![flag],
    };
    let linked = match s.open {
        Some(p) => s.nodes.update(
            p as int,
            NodeView { children: s.nodes[p as int].children.push(n), ..s.nodes[p as int] },
        ),
        None => s.nodes,
    };
    ParseState { nodes: linked.push(node), open: Some(n) }
}

/// Closes the open task and reopens its parent.
pub open spec fn close_open(s: ParseState) -> ParseState {
    match s.open {
        Some(c) => ParseState { nodes: s.nodes, open: s.nodes[c as int].parent },
        None => s,
    }
}

/// Replaces the output of the open task by `text`.
pub open spec fn set_open_output(s: ParseState, text: Seq<char>) -> ParseState {
    match s.open {
        Some(c) => ParseState {
            nodes: s.nodes.update(c as int, NodeView { output: text, ..s.nodes[c as int] }),
            open: s.open,
        },
        None => s,
    }
}

/// Appends `text` to the output of the open task.
pub open spec fn append_open_output(s: ParseState, text: Seq<char>) -> ParseState {
    match s.open {
        Some(c) => set_open_output(s, s.nodes[c as int].output + text),
        None => s,
    }
}

/// The line is a "finished" event: it matches neither node-creating pattern
/// that takes precedence, and holds the finished marker.
pub open spec fn is_finished_line(line: Seq<char>) -> bool {
    rest_after(line, ADDED_MARKER@) is None && rest_after(line, STARTING_MARKER@) is None
        && occurs_in(line, FINISHED_MARKER@)
}

/// The line is an "executing" event: it matches none of the patterns that
/// take precedence, and captures `task` after the executing marker.
pub open spec fn is_executing_line(line: Seq<char>, task: Seq<char>) -> bool {
    rest_after(line, ADDED_MARKER@) is None && rest_after(line, STARTING_MARKER@) is None
        && !occurs_in(line, FINISHED_MARKER@) && rest_after(line, EXECUTING_MARKER@) == Some(
        task,
    )
}

/// The effect of one log line, the patterns tried in order of precedence.
pub open spec fn step(s: ParseState, line: Seq<char>) -> ParseState {
    match rest_after(line, ADDED_MARKER@) {
        Some(t) => open_node(s, t, ADDED_FLAG@),
        None => match rest_after(line, STARTING_MARKER@) {
            Some(t) => open_node(s, t, STARTING_FLAG@),
            None => if occurs_in(line, FINISHED_MARKER@) {
                close_open(s)
            } else {
                match rest_after(line, EXECUTING_MARKER@) {
                    Some(t) => open_node(set_open_output(s, line), t, EXECUTING_FLAG@),
                    None => append_open_output(s, line + seq!['\n']),
                }
            },
        },
    }
}

/// The state after scanning `lines` in order from the initial state.
pub open spec fn run(lines: Seq<Seq<char>>) -> ParseState
    decreases lines.len(),
{
    if lines.len() == 0 {
        initial_state()
    } else {
        step(run(lines.drop_last()), lines.last())
    }
}

pub open spec fn lines_view(lines: Seq<String>) -> Seq<Seq<char>> {
    lines.map_values(|l: String| l@)
}

/// The nodes that scanning `lines` produces.
pub open spec fn parse_spec(lines: Seq<Seq<char>>) -> Seq<NodeView> {
    run(lines).nodes
}

/// The links of the state are consistent: each parent precedes its child
/// and lists it, each child list is strictly increasing and names nodes
/// whose parent it is, and the open task is a node.
pub open spec fn well_linked(s: ParseState) -> bool {
    &&& (forall|i: int|
        #![trigger s.nodes[i].parent]
        0 <= i < s.nodes.len() && s.nodes[i].parent is Some ==> {
            let p = s.nodes[i].parent->Some_0 as int;
            &&& p < i
            &&& s.nodes[p].children.contains(i as usize)
        })
    &&& (forall|p: int, k: int|
        #![trigger s.nodes[p].children[k]]
        0 <= p < s.nodes.len() && 0 <= k < s.nodes[p].children.len() ==> {
            let c = s.nodes[p].children[k] as int;
            &&& p < c < s.nodes.len()
            &&& s.nodes[c].parent == Some(p as usize)
        })
    &&& (forall|p: int, k1: int, k2: int|
        0 <= p < s.nodes.len() && 0 <= k1 < k2 < s.nodes[p].children.len()
            ==> #[trigger] s.nodes[p].children[k1] < #[trigger] s.nodes[p].children[k2])
    &&& (s.open matches Some(c) ==> c < s.nodes.len())
}

proof fn lemma_open_node_well_linked(s: ParseState, task: Seq<char>, flag: Seq<char>)
    requires
        well_linked(s),
        s.nodes.len() < usize::MAX,
    ensures
        well_linked(open_node(s, task, flag)),
{
    let t = open_node(s, task, flag);
    let n = s.nodes.len();
    assert forall|i: int|
        #![trigger t.nodes[i].parent]
        0 <= i < t.nodes.len() && t.nodes[i].parent is Some implies {
            let p = t.nodes[i].parent->Some_0 as int;
            &&& p < i
            &&& t.nodes[p].children.contains(i as usize)
        } by {
        let p = t.nodes[i].parent->Some_0 as int;
        if i < n {
            assert(s.nodes[i].parent == t.nodes[i].parent);
            let k = choose|k: int| 0 <= k < s.nodes[p].children.len() && s.nodes[p].children[k] == i as usize;
            assert(t.nodes[p].children[k] == i as usize);
        } else {
            assert(t.nodes[p].children.last() == n as usize);
        }
    }
    assert forall|p: int, k: int|
        #![trigger t.nodes[p].children[k]]
        0 <= p < t.nodes.len() && 0 <= k < t.nodes[p].children.len() implies {
            let c = t.nodes[p].children[k] as int;
            &&& p < c < t.nodes.len()
            &&& t.nodes[c].parent == Some(p as usize)
        } by {
        if p < n && k < s.nodes[p].children.len() {
            assert(t.nodes[p].children[k] == s.nodes[p].children[k]);
        }
    }
    assert forall|p: int, k1: int, k2: int|
        0 <= p < t.nodes.len() && 0 <= k1 < k2 < t.nodes[p].children.len()
        implies #[trigger] t.nodes[p].children[k1] < #[trigger] t.nodes[p].children[k2] by {
        if k2 < s.nodes[p].children.len() {
            assert(t.nodes[p].children[k1] == s.nodes[p].children[k1]);
            assert(t.nodes[p].children[k2] == s.nodes[p].children[k2]);
        } else {
            assert(t.nodes[p].children[k1] == s.nodes[p].children[k1]);
        }
    }
}

proof fn lemma_set_output_well_linked(s: ParseState, text: Seq<char>)
    requires
        well_linked(s),
    ensures
        well_linked(set_open_output(s, text)),
        set_open_output(s, text).nodes.len() == s.nodes.len(),
        set_open_output(s, text).open == s.open,
{
    let t = set_open_output(s, text);
    assert forall|i: int| 0 <= i < s.nodes.len() implies t.nodes[i].parent == s.nodes[i].parent
        && t.nodes[i].children == s.nodes[i].children by {}
}

proof fn lemma_step_well_linked(s: ParseState, line: Seq<char>)
    requires
        well_linked(s),
        s.nodes.len() < usize::MAX,
    ensures
        well_linked(step(s, line)),
        step(s, line).nodes.len() <= s.nodes.len() + 1,
{
    match rest_after(line, ADDED_MARKER@) {
        Some(t) => lemma_open_node_well_linked(s, t, ADDED_FLAG@),
        None => match rest_after(line, STARTING_MARKER@) {
            Some(t) => lemma_open_node_well_linked(s, t, STARTING_FLAG@),
            None => if occurs_in(line, FINISHED_MARKER@) {
                if let Some(c) = s.open {
                    assert(s.nodes[c as int].parent is Some ==> s.nodes[c as int].parent->Some_0 < c);
                }
            } else {
                match rest_after(line, EXECUTING_MARKER@) {
                    Some(t) => {
                        lemma_set_output_well_linked(s, line);
                        lemma_open_node_well_linked(set_open_output(s, line), t, EXECUTING_FLAG@);
                    },
                    None => {
                        if let Some(c) = s.open {
                            lemma_set_output_well_linked(s, s.nodes[c as int].output + seq!['\n']);
                        }
                    },
                }
            },
        },
    }
}

/// Every state reached by scanning lines is consistently linked.
pub proof fn lemma_run_well_linked(lines: Seq<Seq<char>>)
    requires
        lines.len() < usize::MAX,
    ensures
        well_linked(run(lines)),
        run(lines).nodes.len() <= lines.len(),
    decreases lines.len(),
{
    if lines.len() > 0 {
        lemma_run_well_linked(lines.drop_last());
        lemma_step_well_linked(run(lines.drop_last()), lines.last());
    }
}

/// Every node that has a parent is listed among that parent's children
/// exactly once, and no node is listed as a child of two different parents.
pub open spec fn tree_consistent(nodes: Seq<NodeView>) -> bool {
    &&& forall|i: int|
        #![trigger nodes[i].parent]
        0 <= i < nodes.len() && nodes[i].parent is Some ==> {
            let p = nodes[i].parent->Some_0 as int;
            &&& 0 <= p < nodes.len()
            &&& exists|k: int|
                0 <= k < nodes[p].children.len() && nodes[p].children[k] == i as usize
            &&& forall|k1: int, k2: int|
                0 <= k1 < nodes[p].children.len() && 0 <= k2 < nodes[p].children.len()
                    && #[trigger] nodes[p].children[k1] == i as usize
                    && #[trigger] nodes[p].children[k2] == i as usize ==> k1 == k2
        }
    &&& forall|p1: int, p2: int, k1: int, k2: int|
        0 <= p1 < nodes.len() && 0 <= p2 < nodes.len() && 0 <= k1 < nodes[p1].children.len()
            && 0 <= k2 < nodes[p2].children.len() && #[trigger] nodes[p1].children[k1]
            == #[trigger] nodes[p2].children[k2] ==> p1 == p2
}

/// The tree that any log produces is consistent: parent and child links
/// agree, each child listed once under a single parent.
pub proof fn lemma_parse_tree_consistent(lines: Seq<Seq<char>>)
    requires
        lines.len() < usize::MAX,
    ensures
        tree_consistent(parse_spec(lines)),
{
    lemma_run_well_linked(lines);
    let nodes = parse_spec(lines);
    assert forall|i: int|
        #![trigger nodes[i].parent]
        0 <= i < nodes.len() && nodes[i].parent is Some implies {
            let p = nodes[i].parent->Some_0 as int;
            &&& 0 <= p < nodes.len()
            &&& exists|k: int|
                0 <= k < nodes[p].children.len() && nodes[p].children[k] == i as usize
            &&& forall|k1: int, k2: int|
                0 <= k1 < nodes[p].children.len() && 0 <= k2 < nodes[p].children.len()
                    && #[trigger] nodes[p].children[k1] == i as usize
                    && #[trigger] nodes[p].children[k2] == i as usize ==> k1 == k2
        } by {
        let p = nodes[i].parent->Some_0 as int;
        assert(nodes[p].children.contains(i as usize));
        assert forall|k1: int, k2: int|
            0 <= k1 < nodes[p].children.len() && 0 <= k2 < nodes[p].children.len()
                && #[trigger] nodes[p].children[k1] == i as usize
                && #[trigger] nodes[p].children[k2] == i as usize implies k1 == k2 by {
            if k1 < k2 {
                assert(nodes[p].children[k1] < nodes[p].children[k2]);
            } else if k2 < k1 {
                assert(nodes[p].children[k2] < nodes[p].children[k1]);
            }
        }
    }
    assert forall|p1: int, p2: int, k1: int, k2: int|
        0 <= p1 < nodes.len() && 0 <= p2 < nodes.len() && 0 <= k1 < nodes[p1].children.len()
            && 0 <= k2 < nodes[p2].children.len() && #[trigger] nodes[p1].children[k1]
            == #[trigger] nodes[p2].children[k2] implies p1 == p2 by {
        let c = nodes[p1].children[k1] as int;
        assert(nodes[c].parent == Some(p1 as usize));
        assert(nodes[c].parent == Some(p2 as usize));
    }
}

/// A finished line while no task is open leaves the nodes and the cursor
/// as they were.
pub proof fn lemma_finished_without_open_task(lines: Seq<Seq<char>>, line: Seq<char>)
    requires
        run(lines).open is None,
        is_finished_line(line),
    ensures
        run(lines.push(line)) == run(lines),
        parse_spec(lines.push(line)) == parse_spec(lines),
{
    assert(lines.push(line).drop_last() =~= lines);
}

/// An executing line while a task is open replaces that task's output by
/// the whole line, whatever it held before.
pub proof fn lemma_executing_overwrites_output(
    lines: Seq<Seq<char>>,
    line: Seq<char>,
    task: Seq<char>,
)
    requires
        lines.len() < usize::MAX,
        run(lines).open is Some,
        is_executing_line(line, task),
    ensures
        parse_spec(lines.push(line))[run(lines).open->Some_0 as int].output == line,
{
    assert(lines.push(line).drop_last() =~= lines);
    lemma_run_well_linked(lines);
}

/// Appends a node for `task` with the single flag `flag` under `open`, and
/// records it among the children of `open`.
fn push_node(nodes: &mut Vec<Node>, open: Option<usize>, task: String, flag: &str) -> (n: usize)
    requires
        old(nodes).len() < usize::MAX,
        open matches Some(p) ==> p < old(nodes).len(),
    ensures
        n == old(nodes).len(),
        nodes_view(final(nodes)@) == open_node(
            ParseState { nodes: nodes_view(old(nodes)@), open },
            task@,
            flag@,
        ).nodes,
{
    let ghost s = ParseState { nodes: nodes_view(nodes@), open };
    let n = nodes.len();
    if let Some(p) = open {
        nodes[p].children.push(n);
    }
    let mut flags: Vec<String> = Vec::new();
    flags.push(flag.to_owned());
    proof {
        assert(strings_view(flags@) =~= seq![flag@]);
    }
    let node = Node { task, output: String::new(), parent: open, children: Vec::new(), flags };
    nodes.push(node);
    proof {
        assert(nodes_view(nodes@) =~= open_node(s, task@, flag@).nodes);
    }
    n
}

/// Builds the task tree of a log given as its lines, in order.
pub fn parse_lines(lines: &[String]) -> (r: Vec<Node>)
    ensures
        nodes_view(r@) == parse_spec(lines_view(lines@)),
{
    proof {
        reveal_strlit("Task Added:");
        reveal_strlit("✨ Starting task: ");
        reveal_strlit("Finished:");
        reveal_strlit("Executing: ");
        reveal_strlit("\n");
    }
    let added = LinePattern::new(ADDED_MARKER);
    let starting = LinePattern::new(STARTING_MARKER);
    let finished = LinePattern::new(FINISHED_MARKER);
    let executing = LinePattern::new(EXECUTING_MARKER);
    let mut nodes: Vec<Node> = Vec::new();
    let mut open: Option<usize> = None;
    let mut i: usize = 0;
    proof {
        assert(lines_view(lines@.subrange(0, 0)) =~= Seq::<Seq<char>>::empty());
        assert(nodes_view(nodes@) =~= Seq::<NodeView>::empty());
    }
    while i < lines.len()
        invariant
            i <= lines.len(),
            added.literal() == ADDED_MARKER@,
            starting.literal() == STARTING_MARKER@,
            finished.literal() == FINISHED_MARKER@,
            executing.literal() == EXECUTING_MARKER@,
            nodes_view(nodes@) == run(lines_view(lines@.subrange(0, i as int))).nodes,
            open == run(lines_view(lines@.subrange(0, i as int))).open,
            well_linked(run(lines_view(lines@.subrange(0, i as int)))),
            nodes.len() <= i,
        decreases lines.len() - i,
    {
        let line = &lines[i];
        let ghost before = run(lines_view(lines@.subrange(0, i as int)));
        proof {
            let next = lines_view(lines@.subrange(0, i + 1));
            assert(next.drop_last() =~= lines_view(lines@.subrange(0, i as int)));
            assert(next.last() == line@);
            lemma_step_well_linked(before, line@);
        }
        if let Some(task) = added.capture_rest(line.as_str()) {
            push_node(&mut nodes, open, task, ADDED_FLAG);
            open = Some(nodes.len() - 1);
        } else if let Some(task) = starting.capture_rest(line.as_str()) {
            push_node(&mut nodes, open, task, STARTING_FLAG);
            open = Some(nodes.len() - 1);
        } else if finished.is_match(line.as_str()) {
            if let Some(c) = open {
                open = nodes[c].parent;
            }
        } else if let Some(task) = executing.capture_rest(line.as_str()) {
            if let Some(c) = open {
                nodes[c].output = line.clone();
                proof {
                    assert(nodes_view(nodes@) =~= set_open_output(before, line@).nodes);
                }
            }
            push_node(&mut nodes, open, task, EXECUTING_FLAG);
            open = Some(nodes.len() - 1);
        } else if let Some(c) = open {
            let ghost prior = nodes[c as int].output@;
            nodes[c].output.append(line.as_str());
            nodes[c].output.append("\n");
            proof {
                reveal_strlit("\n");
                assert(nodes[c as int].output@ =~= prior + (line@ + seq!['\n']));
                assert(nodes_view(nodes@) =~= append_open_output(before, line@ + seq!['\n']).nodes);
            }
        }
        i += 1;
    }
    proof {
        assert(lines@.subrange(0, lines@.len() as int) =~= lines@);
    }
    nodes
}

} // verus!
