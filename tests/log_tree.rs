use log_tree::{filter_nodes, has_matching_flags, has_output, parse_lines, Node};

fn lines(v: &[&str]) -> Vec<String> {
    v.iter().map(|s| s.to_string()).collect()
}

fn flag_filter(wanted: Vec<String>) -> Box<dyn Fn(&Node) -> bool> {
    Box::new(move |n: &Node| has_matching_flags(n, &wanted))
}

fn output_filter() -> Box<dyn Fn(&Node) -> bool> {
    Box::new(|n: &Node| has_output(n))
}

fn tasks(nodes: &[Node]) -> Vec<String> {
    nodes.iter().map(|n| n.task.clone()).collect()
}

#[test]
fn added_task_collects_plain_lines() {
    let nodes = parse_lines(&lines(&["Task Added: build", "hello", "Finished: build"]));
    assert_eq!(nodes.len(), 1);
    // the capture is everything after "Task Added:", the space included
    assert_eq!(nodes[0].task, " build");
    assert_eq!(nodes[0].flags, vec!["added".to_string()]);
    assert_eq!(nodes[0].output, "hello\n");
    assert_eq!(nodes[0].parent, None);
    assert!(nodes[0].children.is_empty());
}

#[test]
fn executing_overwrites_parent_output() {
    let nodes = parse_lines(&lines(&[
        "✨ Starting task: compile",
        "Executing: gcc foo.c",
        "Finished: compile",
    ]));
    assert_eq!(nodes.len(), 2);
    assert_eq!(nodes[0].task, "compile");
    assert_eq!(nodes[0].flags, vec!["starting".to_string()]);
    assert_eq!(nodes[0].output, "Executing: gcc foo.c");
    assert_eq!(nodes[0].children, vec![1]);
    assert_eq!(nodes[1].task, "gcc foo.c");
    assert_eq!(nodes[1].parent, Some(0));
    assert_eq!(nodes[1].flags, vec!["executing".to_string()]);
    assert_eq!(nodes[1].output, "");
}

#[test]
fn filter_executing_with_output_is_empty() {
    let nodes = parse_lines(&lines(&[
        "✨ Starting task: compile",
        "Executing: gcc foo.c",
        "Finished: compile",
    ]));
    let filters = vec![flag_filter(vec!["executing".to_string()]), output_filter()];
    let r = filter_nodes(&nodes, &filters);
    assert!(r.is_empty());
}

#[test]
fn executing_discards_accumulated_output() {
    let nodes = parse_lines(&lines(&["Task Added: a", "one", "two", "Executing: run x", "three"]));
    assert_eq!(nodes.len(), 2);
    assert_eq!(nodes[0].output, "Executing: run x");
    assert_eq!(nodes[1].output, "three\n");
    assert_eq!(nodes[1].task, "run x");
}

#[test]
fn executing_without_open_task_makes_root() {
    let nodes = parse_lines(&lines(&["Executing: ls", "listing"]));
    assert_eq!(nodes.len(), 1);
    assert_eq!(nodes[0].parent, None);
    assert_eq!(nodes[0].output, "listing\n");
}

#[test]
fn finished_without_open_task_is_noop() {
    let nodes = parse_lines(&lines(&["Finished: nothing", "stray", "Task Added: x", "Finished:", "Finished:"]));
    assert_eq!(nodes.len(), 1);
    assert_eq!(nodes[0].output, "");
    let more = parse_lines(&lines(&["Task Added: x", "Finished:", "Finished:", "after"]));
    assert_eq!(more.len(), 1);
    assert_eq!(more[0].output, "");
}

#[test]
fn plain_lines_without_open_task_are_discarded() {
    let nodes = parse_lines(&lines(&["just text", "more"]));
    assert!(nodes.is_empty());
    assert!(parse_lines(&[]).is_empty());
}

#[test]
fn nesting_and_closing_reopens_parent() {
    let nodes = parse_lines(&lines(&[
        "Task Added: root",
        "✨ Starting task: child one",
        "Finished: child one",
        "✨ Starting task: child two",
        "Task Added: grandchild",
        "Finished: grandchild",
        "Finished: child two",
        "root output",
        "Finished: root",
        "Task Added: second root",
    ]));
    assert_eq!(nodes.len(), 5);
    assert_eq!(nodes[0].children, vec![1, 2]);
    assert_eq!(nodes[0].output, "root output\n");
    assert_eq!(nodes[1].parent, Some(0));
    assert_eq!(nodes[2].parent, Some(0));
    assert_eq!(nodes[2].children, vec![3]);
    assert_eq!(nodes[3].parent, Some(2));
    assert_eq!(nodes[4].parent, None);
    assert_eq!(nodes[4].task, " second root");
}

#[test]
fn tree_links_are_mutual() {
    let nodes = parse_lines(&lines(&[
        "Task Added: a",
        "Task Added: b",
        "Executing: c",
        "Finished:",
        "Executing: d",
        "Finished:",
        "Finished:",
        "Task Added: e",
    ]));
    for (i, n) in nodes.iter().enumerate() {
        if let Some(p) = n.parent {
            assert_eq!(nodes[p].children.iter().filter(|&&c| c == i).count(), 1);
        }
        for &c in &n.children {
            assert_eq!(nodes[c].parent, Some(i));
        }
    }
}

#[test]
fn first_matching_pattern_wins() {
    let nodes = parse_lines(&lines(&["Task Added: x Finished: y", "✨ Starting task: s Executing: e"]));
    assert_eq!(nodes.len(), 2);
    assert_eq!(nodes[0].flags, vec!["added".to_string()]);
    assert_eq!(nodes[0].task, " x Finished: y");
    assert_eq!(nodes[1].flags, vec!["starting".to_string()]);
    assert_eq!(nodes[1].task, "s Executing: e");
    assert_eq!(nodes[1].parent, Some(0));
}

#[test]
fn finished_marker_anywhere_closes() {
    let nodes = parse_lines(&lines(&["Task Added: a", "step Finished: ok", "tail"]));
    assert_eq!(nodes.len(), 1);
    assert_eq!(nodes[0].output, "");
}

#[test]
fn capture_uses_first_occurrence_and_stops_at_line_feed() {
    let nodes = parse_lines(&lines(&["pre Task Added:one Task Added:two", "Task Added: x\ny"]));
    assert_eq!(nodes[0].task, "one Task Added:two");
    assert_eq!(nodes[1].task, " x");
}

#[test]
fn empty_filter_list_keeps_everything() {
    let nodes = parse_lines(&lines(&["Task Added: a", "Executing: b", "Finished:", "x"]));
    let filters: Vec<Box<dyn Fn(&Node) -> bool>> = Vec::new();
    let r = filter_nodes(&nodes, &filters);
    assert_eq!(tasks(&r), tasks(&nodes));
    assert_eq!(r[0].output, nodes[0].output);
}

#[test]
fn filtering_keeps_order() {
    let nodes = parse_lines(&lines(&[
        "Task Added: a",
        "✨ Starting task: b",
        "Task Added: c",
        "Executing: d",
        "✨ Starting task: e",
    ]));
    let filters = vec![flag_filter(vec!["starting".to_string(), "added".to_string()])];
    let r = filter_nodes(&nodes, &filters);
    assert_eq!(tasks(&r), vec![" a".to_string(), "b".to_string(), " c".to_string(), "e".to_string()]);
}

#[test]
fn filtering_twice_equals_once() {
    let nodes = parse_lines(&lines(&[
        "Task Added: a",
        "out",
        "Executing: b",
        "Finished:",
        "✨ Starting task: c",
        "more",
    ]));
    let filters = vec![flag_filter(vec!["added".to_string(), "starting".to_string()]), output_filter()];
    let once = filter_nodes(&nodes, &filters);
    let twice = filter_nodes(&once, &filters);
    assert_eq!(tasks(&once), vec![" a".to_string(), "c".to_string()]);
    assert_eq!(tasks(&twice), tasks(&once));
}

#[test]
fn has_output_counts_lone_line_feed() {
    let nodes = parse_lines(&lines(&["Task Added: a", ""]));
    assert_eq!(nodes[0].output, "\n");
    assert!(has_output(&nodes[0]));
    let bare = parse_lines(&lines(&["Task Added: b"]));
    assert!(!has_output(&bare[0]));
}

#[test]
fn matching_flags_is_any_of() {
    let nodes = parse_lines(&lines(&["Task Added: a"]));
    assert!(has_matching_flags(&nodes[0], &["executing".to_string(), "added".to_string()]));
    assert!(!has_matching_flags(&nodes[0], &["starting".to_string()]));
    assert!(!has_matching_flags(&nodes[0], &["".to_string()]));
    assert!(!has_matching_flags(&nodes[0], &[]));
}

#[test]
fn duplicate_copies_every_field() {
    let nodes = parse_lines(&lines(&["Task Added: a", "x", "Executing: b"]));
    let d = nodes[0].duplicate();
    assert_eq!(d.task, nodes[0].task);
    assert_eq!(d.output, nodes[0].output);
    assert_eq!(d.parent, nodes[0].parent);
    assert_eq!(d.children, nodes[0].children);
    assert_eq!(d.flags, nodes[0].flags);
}
