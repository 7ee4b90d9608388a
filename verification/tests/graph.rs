use spready::cell::{Cell, Content, Sheet};
use spready::evaluate::evaluate;
use spready::graph::DirectedGraph;
use spready::parser::parse_formula;
use spready::reference::Reference;
use spready::value::Value;

fn r(text: &str) -> Reference {
    Reference::from_str(text).unwrap()
}

fn position(order: &[Reference], x: Reference) -> usize {
    order.iter().position(|&y| y == x).unwrap()
}

#[test]
fn empty_graph_sorts_to_nothing() {
    let graph = DirectedGraph::default();
    assert!(!graph.has_edges());
    assert_eq!(graph.to_topological_sort().unwrap(), vec![]);
}

#[test]
fn add_and_remove_edge_are_idempotent() {
    let mut graph = DirectedGraph::default();
    graph.add_edge(r("A1"), r("B1"));
    graph.add_edge(r("A1"), r("B1"));
    assert!(graph.has_edges());
    graph.remove_edge(r("A1"), r("B1"));
    assert!(!graph.has_edges());
    graph.remove_edge(r("A1"), r("B1"));
    assert!(!graph.has_edges());
}

#[test]
fn topological_sort_respects_every_edge() {
    let mut graph = DirectedGraph::default();
    let (a, b, c, d) = (r("A1"), r("B1"), r("C1"), r("D1"));
    graph.add_edge(a, b);
    graph.add_edge(a, c);
    graph.add_edge(b, d);
    graph.add_edge(c, d);
    let order = graph.to_topological_sort().unwrap();
    assert_eq!(order.len(), 4);
    assert!(position(&order, a) < position(&order, b));
    assert!(position(&order, a) < position(&order, c));
    assert!(position(&order, b) < position(&order, d));
    assert!(position(&order, c) < position(&order, d));
}

#[test]
fn topological_sort_reports_cycles() {
    let mut graph = DirectedGraph::default();
    graph.add_edge(r("A1"), r("B1"));
    graph.add_edge(r("B1"), r("A1"));
    assert!(graph.to_topological_sort().is_err());
}

#[test]
fn self_edge_is_a_cycle() {
    let mut graph = DirectedGraph::default();
    graph.add_edge(r("A1"), r("A1"));
    assert!(graph.to_topological_sort().is_err());
}

#[test]
fn set_incoming_edges_replaces_the_whole_set() {
    let mut graph = DirectedGraph::default();
    let (a, b, c) = (r("A1"), r("B1"), r("C1"));
    graph.set_incoming_edges(b, vec![a]);
    let order = graph.to_topological_sort().unwrap();
    assert!(position(&order, a) < position(&order, b));
    // replace {A1} by {C1}: the old edge disappears
    graph.set_incoming_edges(b, vec![c]);
    let order = graph.to_topological_sort().unwrap();
    assert!(position(&order, c) < position(&order, b));
    graph.set_incoming_edges(b, vec![]);
    assert!(!graph.has_edges());
}

#[test]
fn set_incoming_edges_breaks_a_cycle() {
    let mut graph = DirectedGraph::default();
    let (a, b) = (r("A1"), r("B1"));
    graph.set_incoming_edges(a, vec![b]);
    graph.set_incoming_edges(b, vec![a]);
    assert!(graph.to_topological_sort().is_err());
    graph.set_incoming_edges(b, vec![]);
    let order = graph.to_topological_sort().unwrap();
    assert!(position(&order, b) < position(&order, a));
}

#[test]
fn evaluate_is_pure() {
    let mut cells = Sheet::new();
    cells.insert(
        r("A1"),
        Cell {
            raw_text: "2".to_string(),
            content: Content::Literal(Value::Integer(2)),
            value: Ok(Value::Integer(2)),
        },
    );
    let expr = parse_formula("=A1+1").unwrap();
    let first = evaluate(&expr, &cells);
    let second = evaluate(&expr, &cells);
    assert_eq!(first, Ok(Value::Integer(3)));
    assert_eq!(first, second);
    // the sheet is unchanged
    assert_eq!(cells.get(r("A1")).unwrap().value.clone(), Ok(Value::Integer(2)));
}
