use pinto::graph::{first_cycle, graph_cycles};

fn strings(values: &[&str]) -> Vec<String> {
    values.iter().map(|value| value.to_string()).collect()
}

fn edges(entries: &[(&str, &[&str])]) -> Vec<(String, Vec<String>)> {
    entries
        .iter()
        .map(|(node, targets)| (node.to_string(), strings(targets)))
        .collect()
}

/// Depth that would overflow the default test-thread stack under naive recursion.
const DEEP_GRAPH: usize = 100_000;

#[test]
fn graph_cycles_are_reported_once_with_stable_members() {
    let graph = edges(&[
        ("T-1", &["T-2", "T-3"]),
        ("T-2", &["T-1"]),
        ("T-3", &["T-1"]),
    ]);

    assert_eq!(
        graph_cycles(&graph),
        vec![strings(&["T-1", "T-2"]), strings(&["T-1", "T-3"])]
    );
}

#[test]
fn deep_acyclic_chain_reports_no_cycle_without_a_stack_overflow() {
    let graph: Vec<(String, Vec<String>)> = (1..DEEP_GRAPH)
        .map(|n| (format!("T-{n}"), vec![format!("T-{}", n + 1)]))
        .collect();
    let mut sorted = graph.clone();
    sorted.sort();

    assert!(
        graph_cycles(&sorted).is_empty(),
        "a straight chain has no cycle"
    );
}

#[test]
fn deep_chain_closing_into_a_cycle_is_detected_without_a_stack_overflow() {
    let mut graph: Vec<(String, Vec<String>)> = (1..=DEEP_GRAPH)
        .map(|n| {
            let next = if n == DEEP_GRAPH { 1 } else { n + 1 };
            (format!("T-{n}"), vec![format!("T-{next}")])
        })
        .collect();
    graph.sort();

    let cycles = graph_cycles(&graph);

    assert_eq!(cycles.len(), 1, "exactly one cycle");
    assert_eq!(cycles[0].len(), DEEP_GRAPH, "the cycle spans every node");
}

#[test]
fn self_loop_is_a_cycle_of_one() {
    let graph = edges(&[("T-1", &["T-1"]), ("T-2", &["T-1"])]);
    assert_eq!(graph_cycles(&graph), vec![strings(&["T-1"])]);
    assert_eq!(first_cycle(&graph), Some(strings(&["T-1"])));
}

#[test]
fn targets_without_entries_are_nodes_too() {
    let graph = edges(&[("A-1", &["A-2", "A-3"]), ("A-2", &["A-3"])]);
    assert!(graph_cycles(&graph).is_empty());
    assert_eq!(first_cycle(&graph), None);
}

#[test]
fn first_cycle_reports_the_first_cycle_closed_in_name_order() {
    let graph = edges(&[
        ("T-1", &["T-3"]),
        ("T-3", &["T-1"]),
        ("T-5", &["T-6"]),
        ("T-6", &["T-5"]),
    ]);
    assert_eq!(first_cycle(&graph), Some(strings(&["T-1", "T-3"])));
    assert_eq!(
        graph_cycles(&graph),
        vec![strings(&["T-1", "T-3"]), strings(&["T-5", "T-6"])]
    );
}

#[test]
fn cycle_members_come_sorted_whatever_the_walk_order() {
    let graph = edges(&[("b", &["a"]), ("a", &["c"]), ("c", &["b"])]);
    assert_eq!(first_cycle(&graph), Some(strings(&["a", "b", "c"])));
}

#[test]
fn an_empty_graph_has_no_cycle() {
    assert!(graph_cycles(&Vec::new()).is_empty());
    assert_eq!(first_cycle(&Vec::new()), None);
}
