use factory_scheduler::analysis::{GraphNode, GraphRow, ResourceGraph};
use factory_scheduler::resources::sum_bundles;
use factory_scheduler::utils::{columns_fit, format_in_columns};
use factory_scheduler::value::{Bundle, Value};

fn shown(rows: &[GraphRow]) -> Vec<(String, Vec<(u32, String)>)> {
    rows.iter().map(|r| (r.name.clone(), r.takes.clone())).collect()
}

#[test]
fn a_node_is_new_once() {
    let mut g = ResourceGraph::new();
    assert_eq!(g.add_node(GraphNode(1), "Iron".to_string()), Some(GraphNode(1)));
    assert_eq!(g.add_node(GraphNode(2), "Ore".to_string()), Some(GraphNode(2)));
    assert_eq!(g.add_node(GraphNode(1), "Steel".to_string()), None);
    assert!(g.rows().is_empty());
    g.add_edge_to(GraphNode(1), GraphNode(2), 7);
    // The node kept the name under which it was added first.
    assert_eq!(
        shown(&g.rows()),
        vec![
            ("Iron".to_string(), vec![(7, "Ore".to_string())]),
            ("Ore".to_string(), vec![]),
        ]
    );
}

#[test]
fn edges_are_listed_in_the_order_in_which_they_were_added() {
    let mut g = ResourceGraph::new();
    for (id, name) in [(10, "Circuit"), (11, "Iron"), (12, "Wire"), (13, "Copper")] {
        assert!(g.add_node(GraphNode(id), name.to_string()).is_some());
    }
    g.add_edge_to(GraphNode(12), GraphNode(13), 1);
    g.add_edge_to(GraphNode(10), GraphNode(12), 3);
    g.add_edge_to(GraphNode(10), GraphNode(11), 2);
    // An edge that is there gets the new weight, in its place.
    g.add_edge_to(GraphNode(10), GraphNode(12), 4);
    assert_eq!(
        shown(&g.rows()),
        vec![
            ("Wire".to_string(), vec![(1, "Copper".to_string())]),
            ("Copper".to_string(), vec![]),
            (
                "Circuit".to_string(),
                vec![(4, "Wire".to_string()), (2, "Iron".to_string())]
            ),
            ("Iron".to_string(), vec![]),
        ]
    );
}

#[test]
fn a_node_can_take_itself() {
    let mut g = ResourceGraph::new();
    assert!(g.add_node(GraphNode(5), "Wire".to_string()).is_some());
    g.add_edge_to(GraphNode(5), GraphNode(5), 9);
    assert_eq!(shown(&g.rows()), vec![("Wire".to_string(), vec![(9, "Wire".to_string())])]);
}

#[test]
fn columns_are_as_wide_as_their_longest_cell() {
    let rows = [
        ["a".to_string(), "bbb".to_string(), "c".to_string()],
        ["dd".to_string(), "e".to_string(), "".to_string()],
    ];
    assert_eq!(format_in_columns(&rows), "a bbbc\ndde   ");
}

#[test]
fn one_row_is_laid_out_as_it_is() {
    let rows = [["iron".to_string(), "12".to_string()]];
    assert_eq!(format_in_columns(&rows), "iron12");
}

#[test]
fn rows_without_cells_are_empty_lines() {
    let rows: [[String; 0]; 3] = [[], [], []];
    assert_eq!(format_in_columns(&rows), "\n\n");
    let none: [[String; 0]; 0] = [];
    assert_eq!(format_in_columns(&none), "");
}

#[test]
fn widths_are_counted_in_bytes_and_filled_in_characters() {
    // Two bytes, one character: the column is two wide, and the cell is
    // filled up with one space.
    let rows = [["é".to_string(), "x".to_string()], ["ab".to_string(), "y".to_string()]];
    assert_eq!(format_in_columns(&rows), "é x\naby");
}

#[test]
fn bundles_of_one_resource_sum_up() {
    let list = Value::List(vec![
        Value::Bundle(Bundle { resource: 3, amount: 2 }),
        Value::Bundle(Bundle { resource: 3, amount: 5 }),
        Value::Bundle(Bundle { resource: 3, amount: 0 }),
    ]);
    let total = sum_bundles(&list, 3).unwrap();
    assert_eq!((total.resource(), total.amount()), (3, 7));
    let empty = sum_bundles(&Value::List(vec![]), 3).unwrap();
    assert_eq!((empty.resource(), empty.amount()), (3, 0));
}

#[test]
fn what_is_not_a_list_of_bundles_of_the_resource_has_no_sum() {
    let list = Value::List(vec![
        Value::Bundle(Bundle { resource: 3, amount: 2 }),
        Value::Bundle(Bundle { resource: 4, amount: 5 }),
    ]);
    assert!(sum_bundles(&list, 3).is_none());
    assert!(sum_bundles(&Value::List(vec![Value::Unit]), 3).is_none());
    assert!(sum_bundles(&Value::Bundle(Bundle { resource: 3, amount: 2 }), 3).is_none());
    let big = Value::List(vec![
        Value::Bundle(Bundle { resource: 3, amount: u32::MAX }),
        Value::Bundle(Bundle { resource: 3, amount: 1 }),
    ]);
    assert!(sum_bundles(&big, 3).is_none());
    let just = Value::List(vec![
        Value::Bundle(Bundle { resource: 3, amount: u32::MAX - 1 }),
        Value::Bundle(Bundle { resource: 3, amount: 1 }),
    ]);
    assert_eq!(sum_bundles(&just, 3).unwrap().amount(), u32::MAX);
}

#[test]
fn a_cell_that_is_too_long_for_the_formatter_is_told() {
    let fine = [["a".repeat(65535), "b".to_string()]];
    assert!(columns_fit(&fine));
    assert_eq!(format_in_columns(&fine).len(), 65536);
    let long = [["a".to_string(), "b".repeat(65536)]];
    assert!(!columns_fit(&long));
    let none: [[String; 2]; 0] = [];
    assert!(columns_fit(&none));
}
