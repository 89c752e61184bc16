use wzrd_node_graph::eval::NodeCache;
use wzrd_node_graph::import::Ast;
use wzrd_node_graph::store::WzrdNodeGraph;

fn int_lit(text: &str) -> Ast {
    Ast::Int {
        value: text.to_string(),
    }
}

fn call(receiver: Ast, method: &str, args: Vec<Ast>) -> Ast {
    Ast::Send {
        receiver: Some(Box::new(receiver)),
        method_name: method.to_string(),
        args,
    }
}

/// The tree the external parser produces for `(48*(11+20))`.
fn product_of_sum() -> Ast {
    call(int_lit("48"), "*", vec![call(int_lit("11"), "+", vec![int_lit("20")])])
}

#[test]
fn importing_product_of_sum_evaluates_back_to_itself() {
    let mut doc = WzrdNodeGraph::new();
    doc.initialize_graph(&product_of_sum());
    let mut cache = NodeCache::new();
    assert_eq!(doc.evaluate_graph(&mut cache), "(48*(11+20))");
}

/// The tree the external parser produces for
/// `def main(a) return (48*(11+a)) end`.
fn function_definition() -> Ast {
    Ast::Def {
        name: "main".to_string(),
        args: Some(Box::new(Ast::Args {
            args: vec![Ast::Arg {
                name: "a".to_string(),
            }],
        })),
        body: Some(Box::new(Ast::Return {
            args: vec![call(
                int_lit("48"),
                "*",
                vec![call(
                    int_lit("11"),
                    "+",
                    vec![Ast::Lvar {
                        name: "a".to_string(),
                    }],
                )],
            )],
        })),
    }
}

#[test]
fn importing_function_definition_wraps_the_body() {
    let mut doc = WzrdNodeGraph::new();
    doc.initialize_graph(&function_definition());
    assert_eq!(doc.function_stack.len(), 1);
    assert_eq!(doc.function_stack[0].name, "main");
    assert_eq!(doc.function_stack[0].arguments, vec!["a".to_string()]);
    let mut cache = NodeCache::new();
    assert_eq!(doc.evaluate_graph(&mut cache), "def main(a) (48*(11+a)) end");
    // The signature is consumed by the evaluation.
    assert_eq!(doc.function_stack.len(), 0);
}

#[test]
fn parameterless_definition_omits_parentheses() {
    let ast = Ast::Def {
        name: "main".to_string(),
        args: None,
        body: Some(Box::new(Ast::Return {
            args: vec![int_lit("7")],
        })),
    };
    let mut doc = WzrdNodeGraph::new();
    doc.initialize_graph(&ast);
    let mut cache = NodeCache::new();
    assert_eq!(doc.evaluate_graph(&mut cache), "def main 7 end");
}

#[test]
fn malformed_integer_literal_falls_back_to_zero() {
    let mut doc = WzrdNodeGraph::new();
    doc.initialize_graph(&int_lit("4x2"));
    let mut cache = NodeCache::new();
    assert_eq!(doc.evaluate_graph(&mut cache), "0");
}

#[test]
fn out_of_range_integer_literal_falls_back_to_zero() {
    let mut doc = WzrdNodeGraph::new();
    doc.initialize_graph(&int_lit("9223372036854775808"));
    let mut cache = NodeCache::new();
    assert_eq!(doc.evaluate_graph(&mut cache), "0");
}

#[test]
fn in_range_extremes_survive_the_import() {
    let mut doc = WzrdNodeGraph::new();
    doc.initialize_graph(&int_lit("9223372036854775807"));
    let mut cache = NodeCache::new();
    assert_eq!(doc.evaluate_graph(&mut cache), "9223372036854775807");

    let mut doc2 = WzrdNodeGraph::new();
    doc2.initialize_graph(&int_lit("-9223372036854775808"));
    let mut cache2 = NodeCache::new();
    assert_eq!(doc2.evaluate_graph(&mut cache2), "-9223372036854775808");
}

#[test]
fn unknown_method_drops_the_call() {
    let mut doc = WzrdNodeGraph::new();
    doc.initialize_graph(&call(int_lit("1"), "frobnicate", vec![int_lit("2")]));
    // The whole subtree is omitted, so the graph stays empty.
    assert_eq!(doc.graph.nodes.len(), 0);
    let mut cache = NodeCache::new();
    assert_eq!(doc.evaluate_graph(&mut cache), "Could not evaluate Graph");
}

#[test]
fn receiverless_call_is_dropped() {
    let ast = Ast::Send {
        receiver: None,
        method_name: "+".to_string(),
        args: vec![int_lit("1")],
    };
    let mut doc = WzrdNodeGraph::new();
    doc.initialize_graph(&ast);
    assert_eq!(doc.graph.nodes.len(), 0);
}

#[test]
fn unrecognized_construct_is_transparent() {
    let mut doc = WzrdNodeGraph::new();
    doc.initialize_graph(&Ast::Other);
    assert_eq!(doc.graph.nodes.len(), 0);
}

#[test]
fn block_keeps_the_first_statement_value() {
    let ast = Ast::Begin {
        statements: vec![int_lit("15"), int_lit("99")],
    };
    let mut doc = WzrdNodeGraph::new();
    doc.initialize_graph(&ast);
    let mut cache = NodeCache::new();
    // Both statements are imported, but only the first becomes the block's
    // value; the second materialized constant is the later sink candidate.
    // Only the first statement's node is materialized at all.
    assert_eq!(doc.graph.nodes.len(), 1);
    assert_eq!(doc.evaluate_graph(&mut cache), "15");
}

#[test]
fn nested_definitions_stack_outermost_first() {
    let inner = Ast::Def {
        name: "inner".to_string(),
        args: None,
        body: Some(Box::new(Ast::Return {
            args: vec![int_lit("1")],
        })),
    };
    let outer = Ast::Def {
        name: "outer".to_string(),
        args: None,
        body: Some(Box::new(inner)),
    };
    let mut doc = WzrdNodeGraph::new();
    doc.initialize_graph(&outer);
    assert_eq!(doc.function_stack.len(), 2);
    assert_eq!(doc.function_stack[0].name, "outer");
    assert_eq!(doc.function_stack[1].name, "inner");
    // Evaluation pops the most recent signature.
    let mut cache = NodeCache::new();
    assert_eq!(doc.evaluate_graph(&mut cache), "def inner 1 end");
    assert_eq!(doc.function_stack.len(), 1);
}

#[test]
fn import_assigns_initial_positions_and_order() {
    let mut doc = WzrdNodeGraph::new();
    doc.initialize_graph(&product_of_sum());
    assert_eq!(doc.graph.nodes.len(), 5);
    assert_eq!(doc.node_order, vec![0, 1, 2, 3, 4]);
    for p in &doc.node_positions {
        let p = p.expect("every imported node gets an initial position");
        assert_eq!((p.x, p.y), (100, 100));
    }
}
