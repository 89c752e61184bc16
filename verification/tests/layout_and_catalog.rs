use wzrd_node_graph::eval::NodeCache;
use wzrd_node_graph::import::Ast;
use wzrd_node_graph::store::{NodeRect, WzrdNodeGraph};
use wzrd_node_graph::templates::{
    create_std_nodes, WzrdNode, WzrdNodeDataType, WzrdNodeTemplates, WzrdNodes, WzrdType,
};
use wzrd_node_graph::update::{should_push_update, take_format_request};

fn out_port(name: &str) -> WzrdType {
    WzrdType {
        name: name.to_string(),
        data_type: WzrdNodeDataType::Any,
        initial_value: None,
    }
}

fn in_port(name: &str) -> WzrdType {
    WzrdType {
        name: name.to_string(),
        data_type: WzrdNodeDataType::Any,
        initial_value: None,
    }
}

fn plain(label: &str, inputs: Vec<WzrdType>, outputs: Vec<WzrdType>) -> WzrdNode {
    WzrdNode {
        template: None,
        label: label.to_string(),
        inputs,
        outputs,
    }
}

#[test]
fn three_node_chain_layout_places_ancestors_left_and_centered() {
    // A -> B -> C, with C the sink; all boxes 120 wide and 100 tall.
    let mut doc = WzrdNodeGraph::new();
    let a = plain("A", vec![], vec![out_port("out")]);
    let b = plain("B", vec![in_port("in")], vec![out_port("out")]);
    let c = plain("C", vec![in_port("in")], vec![]);
    doc.graph.add_node(&a); // node 0, output port 0
    doc.graph.add_node(&b); // node 1, input port 0, output port 1
    doc.graph.add_node(&c); // node 2, input port 1
    doc.graph.add_connection(0, 0); // A.out -> B.in
    doc.graph.add_connection(1, 1); // B.out -> C.in
    for _ in 0..3 {
        doc.node_positions.push(None);
        doc.node_rects.push(NodeRect {
            width: 120,
            height: 100,
        });
    }
    doc.format_graph();
    let pa = doc.node_positions[0].expect("A is placed");
    let pb = doc.node_positions[1].expect("B is placed");
    let pc = doc.node_positions[2].expect("C is placed");
    // The sink sits at the origin.
    assert_eq!((pc.x, pc.y), (0, 0));
    // Each node is strictly left of its consumer, a gap and its width apart.
    assert_eq!(pb.x, -170);
    assert_eq!(pa.x, -340);
    assert!(pa.x < pb.x && pb.x < pc.x);
    // With equal heights, A and B are vertically centered on C's midpoint.
    assert_eq!(pb.y + 100 / 2, pc.y + 100 / 2);
    assert_eq!(pa.y + 100 / 2, pc.y + 100 / 2);
}

#[test]
fn layout_stacks_two_ancestors_around_the_midpoint() {
    // Two producers feed the sink; they share a column and stack with the
    // fixed gap between them.
    let mut doc = WzrdNodeGraph::new();
    let p = plain("P", vec![], vec![out_port("out")]);
    let q = plain("Q", vec![], vec![out_port("out")]);
    let sink = plain("S", vec![in_port("l"), in_port("r")], vec![]);
    doc.graph.add_node(&p); // node 0, output 0
    doc.graph.add_node(&q); // node 1, output 1
    doc.graph.add_node(&sink); // node 2, inputs 0 and 1
    doc.graph.add_connection(0, 0);
    doc.graph.add_connection(1, 1);
    for _ in 0..3 {
        doc.node_positions.push(None);
        doc.node_rects.push(NodeRect {
            width: 80,
            height: 60,
        });
    }
    doc.format_graph();
    let pp = doc.node_positions[0].expect("P is placed");
    let pq = doc.node_positions[1].expect("Q is placed");
    let ps = doc.node_positions[2].expect("the sink is placed");
    assert_eq!((ps.x, ps.y), (0, 0));
    // Shared column, left of the sink.
    assert_eq!(pp.x, pq.x);
    assert_eq!(pp.x, -130);
    // Combined height 60 + 50 + 60 = 170, centered on the sink's midpoint 30:
    // the stack starts at 30 - 85 = -55 and the second box follows 110 below.
    assert_eq!(pp.y, -55);
    assert_eq!(pq.y, 55);
}

#[test]
fn layout_of_an_imported_graph_flows_left_to_the_sink() {
    let ast = Ast::Send {
        receiver: Some(Box::new(Ast::Int {
            value: "48".to_string(),
        })),
        method_name: "*".to_string(),
        args: vec![Ast::Int {
            value: "11".to_string(),
        }],
    };
    let mut doc = WzrdNodeGraph::new();
    doc.initialize_graph(&ast);
    for n in 0..doc.graph.nodes.len() {
        doc.set_node_rect(
            n,
            NodeRect {
                width: 150,
                height: 40,
            },
        );
    }
    doc.format_graph();
    let sink = doc.find_last_node().expect("the imported graph has a sink");
    let ps = doc.node_positions[sink].expect("the sink is placed");
    assert_eq!((ps.x, ps.y), (0, 0));
    // Every producer sits strictly left of the node it feeds.
    for (i, conn) in doc.graph.connections.iter().enumerate() {
        if let Some(o) = conn {
            let source = doc.graph.outputs[*o].node;
            let target = doc.graph.inputs[i].node;
            let psrc = doc.node_positions[source].expect("placed producer");
            let ptgt = doc.node_positions[target].expect("placed consumer");
            assert!(psrc.x + 150 + 50 <= ptgt.x);
        }
    }
}

#[test]
fn layout_is_idempotent_while_boxes_are_stable() {
    let ast = Ast::Send {
        receiver: Some(Box::new(Ast::Int {
            value: "48".to_string(),
        })),
        method_name: "*".to_string(),
        args: vec![Ast::Int {
            value: "11".to_string(),
        }],
    };
    let mut doc = WzrdNodeGraph::new();
    doc.initialize_graph(&ast);
    for n in 0..doc.graph.nodes.len() {
        doc.set_node_rect(
            n,
            NodeRect {
                width: 130,
                height: 70,
            },
        );
    }
    doc.format_graph();
    let first_pass = doc.node_positions.clone();
    doc.format_graph();
    assert_eq!(doc.node_positions, first_pass);
}

#[test]
fn graph_without_sink_leaves_every_node_unplaced() {
    let doc = WzrdNodeGraph::new();
    assert_eq!(doc.find_last_node(), None);
    let mut doc = doc;
    doc.format_graph();
    assert!(doc.node_positions.is_empty());
}

#[test]
fn catalog_lookup_finds_each_built_in_label() {
    for label in ["Constant", "Variable", "+", "*", "output", "If"] {
        let found = WzrdNodes::find_node(label).expect("a built-in label");
        assert_eq!(found.label, label);
    }
    assert!(WzrdNodes::find_node("frobnicate").is_none());
}

#[test]
fn catalog_instances_are_independent() {
    let mut first = WzrdNodes::Add.node();
    first.inputs[0].initial_value = Some(
        wzrd_node_graph::templates::WzrdValueType::Integer { value: 7 },
    );
    let second = WzrdNodes::Add.node();
    assert!(second.inputs[0].initial_value.is_none());
    assert_eq!(second.template.as_deref(), Some("($0+$1)"));
}

#[test]
fn standard_nodes_offer_add_multiply_and_if() {
    let stds = create_std_nodes();
    let labels: Vec<&str> = stds.iter().map(|n| n.label.as_str()).collect();
    assert_eq!(labels, vec!["+", "*", "If"]);
}

#[test]
fn created_templates_are_listed_in_order() {
    let mut templates = WzrdNodeTemplates(create_std_nodes());
    let fresh = templates.create_node(
        "negate",
        Some("(-$0)".to_string()),
        vec![in_port("value")],
        vec![out_port("out")],
    );
    assert_eq!(fresh.label, "negate");
    let all = templates.all_kinds();
    assert_eq!(all.len(), 4);
    assert_eq!(all[3].label, "negate");
    assert_eq!(all[3].template.as_deref(), Some("(-$0)"));
}

#[test]
fn port_types_have_display_names() {
    assert_eq!(WzrdNodeDataType::Number.name(), "number");
    assert_eq!(WzrdNodeDataType::Any.name(), "any");
    assert_eq!(WzrdNodeDataType::String.name(), "string");
    assert_eq!(WzrdNodeDataType::Expression.name(), "expression");
    assert_eq!(WzrdNodeDataType::Nothing.name(), "none");
}

#[test]
fn format_request_flag_is_consumed_once() {
    let mut flag = true;
    assert!(take_format_request(&mut flag));
    assert!(!flag);
    assert!(!take_format_request(&mut flag));
}

#[test]
fn push_decision_needs_cooldown_and_an_edit() {
    assert!(should_push_update(1001, true));
    assert!(!should_push_update(1000, true));
    assert!(!should_push_update(5000, false));
}

#[test]
fn if_template_substitutes_three_branches() {
    let mut doc = WzrdNodeGraph::new();
    let ast = Ast::Send {
        receiver: Some(Box::new(Ast::Lvar {
            name: "cond".to_string(),
        })),
        method_name: "If".to_string(),
        args: vec![
            Ast::Int {
                value: "1".to_string(),
            },
            Ast::Int {
                value: "2".to_string(),
            },
        ],
    };
    doc.initialize_graph(&ast);
    let mut cache = NodeCache::new();
    assert_eq!(
        doc.evaluate_graph(&mut cache),
        "if (cond) then\n  1\nelse\n  2\nend"
    );
}
