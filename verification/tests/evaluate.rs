use wzrd_node_graph::eval::{render_value, NodeCache};
use wzrd_node_graph::store::{WzrdGraph, WzrdNodeGraph};
use wzrd_node_graph::templates::{WzrdNode, WzrdNodeDataType, WzrdType, WzrdValueType};

fn port(name: &str, value: Option<WzrdValueType>) -> WzrdType {
    WzrdType {
        name: name.to_string(),
        data_type: WzrdNodeDataType::Any,
        initial_value: value,
    }
}

fn template(
    label: &str,
    pattern: Option<&str>,
    inputs: Vec<WzrdType>,
    outputs: Vec<WzrdType>,
) -> WzrdNode {
    WzrdNode {
        template: pattern.map(|p| p.to_string()),
        label: label.to_string(),
        inputs,
        outputs,
    }
}

#[test]
fn integer_constants_render_as_exact_decimal() {
    assert_eq!(
        render_value(&WzrdValueType::Integer { value: -5 }),
        "-5".to_string()
    );
    assert_eq!(render_value(&WzrdValueType::Integer { value: 0 }), "0");
    assert_eq!(render_value(&WzrdValueType::Integer { value: 48 }), "48");
    assert_eq!(
        render_value(&WzrdValueType::Integer { value: i64::MAX }),
        "9223372036854775807"
    );
    assert_eq!(
        render_value(&WzrdValueType::Integer { value: i64::MIN }),
        "-9223372036854775808"
    );
}

#[test]
fn string_constants_render_in_one_pair_of_quotes() {
    assert_eq!(
        render_value(&WzrdValueType::String {
            value: "hello".to_string()
        }),
        "\"hello\""
    );
    assert_eq!(
        render_value(&WzrdValueType::String {
            value: String::new()
        }),
        "\"\""
    );
}

#[test]
fn empty_graph_evaluates_to_sentinel() {
    let mut doc = WzrdNodeGraph::new();
    let mut cache = NodeCache::new();
    assert_eq!(doc.evaluate_graph(&mut cache), "Could not evaluate Graph");
}

#[test]
fn unsatisfiable_placeholder_yields_error_sentinel() {
    // A sink whose pattern references a placeholder with no input to fill it.
    let mut doc = WzrdNodeGraph::new();
    let t = template("broken", Some("($0)"), vec![], vec![]);
    doc.graph.add_node(&t);
    doc.node_positions.push(None);
    doc.node_rects.push(wzrd_node_graph::store::NodeRect {
        width: 0,
        height: 0,
    });
    let mut cache = NodeCache::new();
    assert_eq!(
        doc.evaluate_graph(&mut cache),
        "error while calling evaluate node"
    );
}

fn diamond_graph() -> WzrdNodeGraph {
    // One producer feeding two consumers which both feed the sink.
    let mut doc = WzrdNodeGraph::new();
    let producer = template(
        "Variable",
        None,
        vec![],
        vec![port("x", None)],
    );
    let pass = template(
        "pass",
        None,
        vec![port("in", Some(WzrdValueType::Integer { value: 0 }))],
        vec![port("out", None)],
    );
    let sink = template(
        "+",
        Some("($0+$1)"),
        vec![
            port("value1", Some(WzrdValueType::Integer { value: 0 })),
            port("value2", Some(WzrdValueType::Integer { value: 0 })),
        ],
        vec![],
    );
    let c = doc.graph.add_node(&producer); // node 0, output port 0
    let a = doc.graph.add_node(&pass); // node 1, input 0, output 1
    let b = doc.graph.add_node(&pass); // node 2, input 1, output 2
    let s = doc.graph.add_node(&sink); // node 3, inputs 2 and 3
    assert_eq!((c, a, b, s), (0, 1, 2, 3));
    doc.graph.add_connection(0, 0); // producer -> consumer a
    doc.graph.add_connection(0, 1); // producer -> consumer b
    doc.graph.add_connection(1, 2); // a -> sink
    doc.graph.add_connection(2, 3); // b -> sink
    for _ in 0..4 {
        doc.node_positions.push(None);
        doc.node_rects.push(wzrd_node_graph::store::NodeRect {
            width: 100,
            height: 100,
        });
    }
    doc
}

#[test]
fn diamond_sharing_yields_identical_text_on_both_paths() {
    let mut doc = diamond_graph();
    let mut cache = NodeCache::new();
    // Both consumers pass the producer's text through, so both sink inputs
    // must be the producer's text, whether or not it came from the cache.
    assert_eq!(doc.evaluate_graph(&mut cache), "(x+x)");
    // The second run reuses the now-populated cache.
    assert_eq!(doc.evaluate_graph(&mut cache), "(x+x)");
}

#[test]
fn reevaluation_with_fresh_cache_is_identical() {
    let mut doc = diamond_graph();
    let mut warm = NodeCache::new();
    let first = doc.evaluate_graph(&mut warm);
    let again_warm = doc.evaluate_graph(&mut warm);
    let mut fresh = NodeCache::new();
    let again_fresh = doc.evaluate_graph(&mut fresh);
    assert_eq!(first, again_warm);
    assert_eq!(first, again_fresh);
}

#[test]
fn sink_tie_break_takes_the_last_candidate() {
    // Two disconnected constants: the later node wins the sink scan.
    let mut doc = WzrdNodeGraph::new();
    let first = template(
        "Constant",
        None,
        vec![port("value", Some(WzrdValueType::Integer { value: 7 }))],
        vec![port("out", None)],
    );
    let second = template(
        "Constant",
        None,
        vec![port("value", Some(WzrdValueType::Integer { value: 9 }))],
        vec![port("out", None)],
    );
    doc.graph.add_node(&first);
    doc.graph.add_node(&second);
    for _ in 0..2 {
        doc.node_positions.push(None);
        doc.node_rects.push(wzrd_node_graph::store::NodeRect {
            width: 0,
            height: 0,
        });
    }
    assert_eq!(doc.find_last_node(), Some(1));
    let mut cache = NodeCache::new();
    assert_eq!(doc.evaluate_graph(&mut cache), "9");
}

#[test]
fn variable_node_emits_its_renamed_output() {
    let mut doc = WzrdNodeGraph::new();
    let variable = template("Variable", None, vec![], vec![port("total", None)]);
    doc.graph.add_node(&variable);
    doc.node_positions.push(None);
    doc.node_rects.push(wzrd_node_graph::store::NodeRect {
        width: 0,
        height: 0,
    });
    let mut cache = NodeCache::new();
    assert_eq!(doc.evaluate_graph(&mut cache), "total");
}

#[test]
fn placeholders_substitute_by_first_appearance_order() {
    // The pattern uses $1 before $0: the first distinct placeholder takes
    // the first resolved input.
    let mut doc = WzrdNodeGraph::new();
    let swapped = template(
        "swap",
        Some("[$1|$0|$1]"),
        vec![
            port("a", Some(WzrdValueType::Integer { value: 10 })),
            port("b", Some(WzrdValueType::Integer { value: 20 })),
        ],
        vec![],
    );
    doc.graph.add_node(&swapped);
    doc.node_positions.push(None);
    doc.node_rects.push(wzrd_node_graph::store::NodeRect {
        width: 0,
        height: 0,
    });
    let mut cache = NodeCache::new();
    // $1 appears first, so it takes input 0 ("10"); $0 takes input 1 ("20").
    assert_eq!(doc.evaluate_graph(&mut cache), "[10|20|10]");
}
