//! The AST importer: turns a parsed script into graph nodes.
//!
//! The importer walks an abstract syntax tree produced by an external script
//! parser, building a transient tree of parsed nodes while pushing the
//! signature of every function definition it meets onto a stack. It never
//! fails on unexpected input: unrecognized constructs, calls to unknown
//! methods and receiverless calls are dropped, and malformed integer
//! literals fall back to zero. Materialization then turns the transient tree
//! into stored nodes, children before parents, wiring each child's first
//! output to the positionally corresponding input of its parent.

use vstd::prelude::*;
use vstd::string::StringExecFns;
use crate::text::{parse_i64_or_zero, parse_i64_str};
use crate::templates::{
    catalog_template, clone_port, kind_of_label, plain_port, WzrdFunction, WzrdFunctionV, WzrdNode,
    WzrdNodeDataType, WzrdNodes, WzrdNodeV, WzrdType, WzrdTypeV, WzrdValueType, WzrdValueV,
};
use crate::store::{
    conn_source, distinct_inputs, is_forest, lemma_last_node_no_outgoing, materialized_node,
    port_default_value, GraphNodeV, InputPortV, NodePos, NodeRect, OutputPortV, WzrdGraphV,
    WzrdNodeGraph,
};

verus! {

/// The part of a parsed script the importer reads: an abstract syntax tree
/// handed over by an external parser collaborator.
pub enum Ast {
    /// A block of statements.
    Begin { statements: Vec<Ast> },
    /// A method call with an optional receiver.
    Send { receiver: Option<Box<Ast>>, method_name: std::string::String, args: Vec<Ast> },
    /// An integer literal, as its source text.
    Int { value: std::string::String },
    /// A local variable reference.
    Lvar { name: std::string::String },
    /// A function definition.
    Def { name: std::string::String, args: Option<Box<Ast>>, body: Option<Box<Ast>> },
    /// A return statement.
    Return { args: Vec<Ast> },
    /// A formal parameter list.
    Args { args: Vec<Ast> },
    /// One formal parameter.
    Arg { name: std::string::String },
    /// Any construct the importer does not recognize.
    Other,
}

/// A literal remembered on a parsed node, kept for inspection.
pub enum ParsedValueType {
    Int(i64),
    String(std::string::String),
}

/// Mathematical model of a [`ParsedValueType`].
#[verifier::ext_equal]
pub ghost enum ParsedValueV {
    Int { value: int },
    Str { value: Seq<char> },
}

impl View for ParsedValueType {
    type V = ParsedValueV;

    open spec fn view(&self) -> ParsedValueV {
        match self {
            ParsedValueType::Int(v) => ParsedValueV::Int { value: *v as int },
            ParsedValueType::String(s) => ParsedValueV::Str { value: s@ },
        }
    }
}

/// A transient parsed node: a template instance, an optional literal, and
/// the parsed nodes feeding its inputs. Consumed on materialization.
pub struct ParsedWzrdNode {
    pub wzrd_node: WzrdNode,
    pub value: Option<ParsedValueType>,
    pub inputs: Vec<ParsedWzrdNode>,
}

/// Mathematical model of a [`ParsedWzrdNode`].
#[verifier::ext_equal]
pub ghost struct ParsedNodeV {
    pub node: WzrdNodeV,
    pub value: Option<ParsedValueV>,
    pub inputs: Seq<ParsedNodeV>,
}

/// The model of a parsed node.
pub open spec fn parsed_view(p: ParsedWzrdNode) -> ParsedNodeV
    decreases p, 1int,
{
    ParsedNodeV {
        node: p.wzrd_node@,
        value: match p.value {
            Option::Some(v) => Option::Some(v@),
            Option::None => Option::None,
        },
        inputs: parsed_views(p.inputs@),
    }
}

/// The models of a sequence of parsed nodes.
pub open spec fn parsed_views(ps: Seq<ParsedWzrdNode>) -> Seq<ParsedNodeV>
    decreases ps, 0int,
{
    if ps.len() == 0 {
        Seq::empty()
    } else {
        seq![parsed_view(ps[0])] + parsed_views(ps.drop_first())
    }
}

impl View for ParsedWzrdNode {
    type V = ParsedNodeV;

    open spec fn view(&self) -> ParsedNodeV {
        parsed_view(*self)
    }
}

pub proof fn lemma_parsed_views_len(ps: Seq<ParsedWzrdNode>)
    ensures
        parsed_views(ps).len() == ps.len(),
        forall|i: int| 0 <= i < ps.len() ==> parsed_views(ps)[i] == parsed_view(#[trigger] ps[i]),
    decreases ps.len(),
{
    if ps.len() > 0 {
        lemma_parsed_views_len(ps.drop_first());
        assert forall|i: int|
            0 <= i < ps.len() implies parsed_views(ps)[i] == parsed_view(#[trigger] ps[i]) by {
            if i > 0 {
                assert(ps.drop_first()[i - 1] == ps[i]);
                assert(parsed_views(ps)[i] == parsed_views(ps.drop_first())[i - 1]);
            }
        }
    }
}

/// The Constant template carrying an integer literal as the default of its
/// single input.
pub open spec fn constant_node_of(v: int) -> WzrdNodeV {
    let t = catalog_template(WzrdNodes::Constant);
    WzrdNodeV {
        template: t.template,
        label: t.label,
        inputs: seq![
            WzrdTypeV {
                name: "value"@,
                data_type: WzrdNodeDataType::Any,
                initial_value: Option::Some(WzrdValueV::Int { value: v }),
            },
        ],
        outputs: t.outputs,
    }
}

/// The Variable template with its single output renamed to the variable's
/// identifier.
pub open spec fn variable_node_of(name: Seq<char>) -> WzrdNodeV {
    let t = catalog_template(WzrdNodes::Variable);
    WzrdNodeV {
        template: t.template,
        label: t.label,
        inputs: t.inputs,
        outputs: seq![plain_port(name, WzrdNodeDataType::Any)],
    }
}

/// The Output template given one input to hold the returned expression.
pub open spec fn output_node() -> WzrdNodeV {
    let t = catalog_template(WzrdNodes::Output);
    WzrdNodeV {
        template: t.template,
        label: t.label,
        inputs: seq![plain_port("output"@, WzrdNodeDataType::Any)],
        outputs: t.outputs,
    }
}

/// The parameter names a formal parameter subtree declares, in order.
pub open spec fn parse_args_spec(ast: Ast) -> Seq<Seq<char>>
    decreases ast, 0int,
{
    match ast {
        Ast::Args { args } => parse_args_from(args@, 0),
        Ast::Arg { name } => seq![name@],
        _ => Seq::empty(),
    }
}

/// The parameter names of the subtrees from position `k` on, concatenated.
pub open spec fn parse_args_from(asts: Seq<Ast>, k: int) -> Seq<Seq<char>>
    decreases asts, asts.len() - k,
    when 0 <= k <= asts.len()
{
    if k == asts.len() {
        Seq::empty()
    } else {
        parse_args_spec(asts[k]) + parse_args_from(asts, k + 1)
    }
}

/// The parsed node a construct imports to, or nothing when the construct is
/// dropped: an unrecognized construct, a call without a receiver or whose
/// receiver or method name yields nothing, or a definition without a body.
pub open spec fn import_node_spec(ast: Ast) -> Option<ParsedNodeV>
    decreases ast, 0int,
{
    match ast {
        Ast::Begin { statements } => {
            let kept = import_list_from(statements@, 0);
            if kept.len() > 0 {
                Option::Some(kept[0])
            } else {
                Option::None
            }
        },
        Ast::Send { receiver, method_name, args } => match receiver {
            Option::Some(recv) => match (import_node_spec(*recv), kind_of_label(method_name@)) {
                (Option::Some(r), Option::Some(kind)) => Option::Some(
                    ParsedNodeV {
                        node: catalog_template(kind),
                        value: Option::None,
                        inputs: seq![r] + import_list_from(args@, 0),
                    },
                ),
                _ => Option::None,
            },
            Option::None => Option::None,
        },
        Ast::Int { value } => Option::Some(
            ParsedNodeV {
                node: constant_node_of(parse_i64_or_zero(value@)),
                value: Option::Some(ParsedValueV::Int { value: parse_i64_or_zero(value@) }),
                inputs: Seq::empty(),
            },
        ),
        Ast::Lvar { name } => Option::Some(
            ParsedNodeV {
                node: variable_node_of(name@),
                value: Option::None,
                inputs: Seq::empty(),
            },
        ),
        Ast::Def { name, args, body } => match body {
            Option::Some(b) => import_node_spec(*b),
            Option::None => Option::None,
        },
        Ast::Return { args } => {
            let kept = import_list_from(args@, 0);
            Option::Some(
                ParsedNodeV {
                    node: output_node(),
                    value: Option::None,
                    inputs: if kept.len() > 0 {
                        seq![kept[0]]
                    } else {
                        Seq::empty()
                    },
                },
            )
        },
        _ => Option::None,
    }
}

/// The parsed nodes the subtrees from position `k` on import to, dropped
/// subtrees omitted, in order.
pub open spec fn import_list_from(asts: Seq<Ast>, k: int) -> Seq<ParsedNodeV>
    decreases asts, asts.len() - k,
    when 0 <= k <= asts.len()
{
    if k == asts.len() {
        Seq::empty()
    } else {
        match import_node_spec(asts[k]) {
            Option::Some(p) => seq![p] + import_list_from(asts, k + 1),
            Option::None => import_list_from(asts, k + 1),
        }
    }
}

/// The function signatures importing the construct pushes, outermost first:
/// each definition contributes its own signature followed by those of its
/// body.
pub open spec fn import_sigs_spec(ast: Ast) -> Seq<WzrdFunctionV>
    decreases ast, 0int,
{
    match ast {
        Ast::Begin { statements } => import_sigs_from(statements@, 0),
        Ast::Send { receiver, method_name, args } => match receiver {
            Option::Some(recv) => import_sigs_spec(*recv) + import_sigs_from(args@, 0),
            Option::None => Seq::empty(),
        },
        Ast::Def { name, args, body } => {
            let sig = WzrdFunctionV {
                name: name@,
                arguments: match args {
                    Option::Some(a) => parse_args_spec(*a),
                    Option::None => Seq::empty(),
                },
            };
            seq![sig] + (match body {
                Option::Some(b) => import_sigs_spec(*b),
                Option::None => Seq::empty(),
            })
        },
        Ast::Return { args } => import_sigs_from(args@, 0),
        _ => Seq::empty(),
    }
}

/// The signatures the subtrees from position `k` on push, concatenated.
pub open spec fn import_sigs_from(asts: Seq<Ast>, k: int) -> Seq<WzrdFunctionV>
    decreases asts, asts.len() - k,
    when 0 <= k <= asts.len()
{
    if k == asts.len() {
        Seq::empty()
    } else {
        import_sigs_spec(asts[k]) + import_sigs_from(asts, k + 1)
    }
}

/// The graph after appending a node materialized from template `t`.
pub open spec fn graph_with_node(g: WzrdGraphV, t: WzrdNodeV) -> WzrdGraphV {
    WzrdGraphV {
        nodes: g.nodes.push(
            materialized_node(t, g.inputs.len() as int, g.outputs.len() as int),
        ),
        inputs: g.inputs + Seq::new(
            t.inputs.len(),
            |k: int|
                InputPortV {
                    node: g.nodes.len() as int,
                    name: t.inputs[k].name,
                    data_type: t.inputs[k].data_type,
                    value: port_default_value(t.inputs[k].initial_value),
                },
        ),
        outputs: g.outputs + Seq::new(
            t.outputs.len(),
            |k: int|
                OutputPortV {
                    node: g.nodes.len() as int,
                    name: t.outputs[k].name,
                    data_type: t.outputs[k].data_type,
                },
        ),
        connections: g.connections + Seq::new(t.inputs.len(), |k: int| Option::<int>::None),
    }
}

/// The graph after wiring freshly built children to node `id`, from input
/// position `k` on: each child's first output feeds the input at the child's
/// own position; a child with no output ports leaves its input dangling.
pub open spec fn wired_from(g: WzrdGraphV, id: int, child_ids: Seq<int>, k: int) -> WzrdGraphV
    decreases g.nodes[id].inputs.len() - k,
    when 0 <= id < g.nodes.len() && 0 <= k <= g.nodes[id].inputs.len()
{
    if k == g.nodes[id].inputs.len() {
        g
    } else {
        let g2 = if k < child_ids.len() && 0 <= child_ids[k] < g.nodes.len()
            && g.nodes[child_ids[k]].outputs.len() > 0 {
            WzrdGraphV {
                nodes: g.nodes,
                inputs: g.inputs,
                outputs: g.outputs,
                connections: g.connections.update(
                    g.nodes[id].inputs[k],
                    Option::Some(g.nodes[child_ids[k]].outputs[0]),
                ),
            }
        } else {
            g
        };
        wired_from(g2, id, child_ids, k + 1)
    }
}

/// The graph a parsed node materializes into, and the index of the node it
/// became: children first, then the node itself, then the wiring.
pub open spec fn materialize(g: WzrdGraphV, p: ParsedNodeV) -> (WzrdGraphV, int)
    decreases p, 1int,
{
    let gi = materialize_list(g, p.inputs);
    let id = gi.0.nodes.len() as int;
    let g2 = graph_with_node(gi.0, p.node);
    (wired_from(g2, id, gi.1, 0), id)
}

/// The graph after materializing each parsed node in order, and the indices
/// of the nodes they became.
pub open spec fn materialize_list(g: WzrdGraphV, ps: Seq<ParsedNodeV>) -> (WzrdGraphV, Seq<int>)
    decreases ps, 0int,
{
    if ps.len() == 0 {
        (g, Seq::empty())
    } else {
        let gi = materialize(g, ps[0]);
        let gr = materialize_list(gi.0, ps.drop_first());
        (gr.0, seq![gi.1] + gr.1)
    }
}

impl DeepView for ParsedWzrdNode {
    type V = ParsedNodeV;

    open spec fn deep_view(&self) -> ParsedNodeV {
        parsed_view(*self)
    }
}

impl WzrdNodeGraph {
    /// Collects the parameter names a formal parameter subtree declares.
    #[verifier::loop_isolation(false)]
    fn parse_arguments(&self, node: &Ast) -> (r: Vec<String>)
        ensures
            r.deep_view() == parse_args_spec(*node),
        decreases node,
    {
        match node {
            Ast::Args { args } => {
                let mut r: Vec<String> = Vec::new();
                let mut k: usize = 0;
                proof {
                    assert(r.deep_view() =~= Seq::<Seq<char>>::empty());
                    assert(r.deep_view() + parse_args_from(args@, 0) =~= parse_args_from(
                        args@,
                        0,
                    ));
                }
                while k < args.len()
                    invariant
                        k <= args@.len(),
                        r.deep_view() + parse_args_from(args@, k as int) == parse_args_from(
                            args@,
                            0,
                        ),
                    decreases args@.len() - k,
                {
                    let ghost pre = r.deep_view();
                    let mut sub = self.parse_arguments(&args[k]);
                    let ghost subv = sub.deep_view();
                    r.append(&mut sub);
                    proof {
                        assert(r.deep_view() =~= pre + subv);
                        assert(parse_args_from(args@, k as int) == parse_args_spec(args@[k as int])
                            + parse_args_from(args@, k as int + 1));
                        assert((pre + subv) + parse_args_from(args@, k as int + 1) =~= pre + (subv
                            + parse_args_from(args@, k as int + 1)));
                    }
                    k = k + 1;
                }
                proof {
                    assert(parse_args_from(args@, k as int) =~= Seq::<Seq<char>>::empty());
                    assert(r.deep_view() + parse_args_from(args@, k as int) =~= r.deep_view());
                    assert(parse_args_spec(*node) == parse_args_from(args@, 0));
                }
                r
            },
            Ast::Arg { name } => {
                let mut r: Vec<String> = Vec::new();
                r.push(name.clone());
                proof {
                    assert(r.deep_view() =~= seq![name@]);
                }
                r
            },
            _ => {
                let r: Vec<String> = Vec::new();
                proof {
                    assert(r.deep_view() =~= Seq::<Seq<char>>::empty());
                }
                r
            },
        }
    }

    /// Imports one construct into a transient parsed-node tree, pushing the
    /// signature of every function definition met along the way.
    #[verifier::loop_isolation(false)]
    pub fn transform_ast(&mut self, node: &Ast) -> (r: Option<ParsedWzrdNode>)
        ensures
            final(self).graph == old(self).graph,
            final(self).node_order == old(self).node_order,
            final(self).node_positions == old(self).node_positions,
            final(self).node_rects == old(self).node_rects,
            final(self).node_templates == old(self).node_templates,
            final(self).user_state == old(self).user_state,
            final(self).function_stack.deep_view() == old(self).function_stack.deep_view()
                + import_sigs_spec(*node),
            match r {
                Option::Some(p) => import_node_spec(*node) == Option::Some(p@),
                Option::None => import_node_spec(*node) is None,
            },
        decreases node,
    {
        let ghost base = self.function_stack.deep_view();
        match node {
            Ast::Begin { statements } => {
                let mut kept: Vec<ParsedWzrdNode> = Vec::new();
                let mut k: usize = 0;
                proof {
                    assert(kept.deep_view() =~= Seq::<ParsedNodeV>::empty());
                    assert(kept.deep_view() + import_list_from(statements@, 0) =~= import_list_from(
                        statements@,
                        0,
                    ));
                    assert(base + import_sigs_from(statements@, 0) =~= base + import_sigs_from(
                        statements@,
                        0,
                    ));
                }
                while k < statements.len()
                    invariant
                        k <= statements@.len(),
                        self.graph == old(self).graph,
                        self.node_order == old(self).node_order,
                        self.node_positions == old(self).node_positions,
                        self.node_rects == old(self).node_rects,
                        self.node_templates == old(self).node_templates,
                        self.user_state == old(self).user_state,
                        self.function_stack.deep_view() + import_sigs_from(statements@, k as int)
                            == base + import_sigs_from(statements@, 0),
                        kept.deep_view() + import_list_from(statements@, k as int)
                            == import_list_from(statements@, 0),
                    decreases statements@.len() - k,
                {
                    let ghost stack_pre = self.function_stack.deep_view();
                    let ghost kept_pre = kept.deep_view();
                    let sub = self.transform_ast(&statements[k]);
                    proof {
                        assert(import_sigs_from(statements@, k as int) == import_sigs_spec(
                            statements@[k as int],
                        ) + import_sigs_from(statements@, k as int + 1));
                        assert((stack_pre + import_sigs_spec(statements@[k as int]))
                            + import_sigs_from(statements@, k as int + 1) =~= stack_pre + (
                        import_sigs_spec(statements@[k as int]) + import_sigs_from(
                            statements@,
                            k as int + 1,
                        )));
                        assert(import_list_from(statements@, k as int) == (match import_node_spec(
                            statements@[k as int],
                        ) {
                            Option::Some(p) => seq![p] + import_list_from(
                                statements@,
                                k as int + 1,
                            ),
                            Option::None => import_list_from(statements@, k as int + 1),
                        }));
                    }
                    match sub {
                        Option::Some(p) => {
                            let ghost pv = p@;
                            kept.push(p);
                            proof {
                                assert(kept.deep_view() =~= kept_pre.push(pv));
                                assert(kept_pre.push(pv) =~= kept_pre + seq![pv]);
                                assert((kept_pre + seq![pv]) + import_list_from(
                                    statements@,
                                    k as int + 1,
                                ) =~= kept_pre + (seq![pv] + import_list_from(
                                    statements@,
                                    k as int + 1,
                                )));
                            }
                        },
                        Option::None => {},
                    }
                    k = k + 1;
                }
                proof {
                    assert(import_sigs_from(statements@, k as int)
                        =~= Seq::<WzrdFunctionV>::empty());
                    assert(self.function_stack.deep_view() + import_sigs_from(
                        statements@,
                        k as int,
                    ) =~= self.function_stack.deep_view());
                    assert(import_list_from(statements@, k as int) =~= Seq::<ParsedNodeV>::empty());
                    assert(kept.deep_view() + import_list_from(statements@, k as int)
                        =~= kept.deep_view());
                }
                if kept.len() > 0 {
                    let ghost kv = kept.deep_view();
                    let first = kept.remove(0);
                    proof {
                        assert(first@ == kv.first());
                    }
                    Option::Some(first)
                } else {
                    Option::None
                }
            },
            Ast::Send { receiver, method_name, args } => {
                match receiver {
                    Option::Some(recv) => {
                        let receiver_result = self.transform_ast(&**recv);
                        let ghost stack_mid = self.function_stack.deep_view();
                        let mut arg_results: Vec<ParsedWzrdNode> = Vec::new();
                        let mut k: usize = 0;
                        proof {
                            assert(arg_results.deep_view() =~= Seq::<ParsedNodeV>::empty());
                            assert(arg_results.deep_view() + import_list_from(args@, 0)
                                =~= import_list_from(args@, 0));
                        }
                        while k < args.len()
                            invariant
                                k <= args@.len(),
                                self.graph == old(self).graph,
                                self.node_order == old(self).node_order,
                                self.node_positions == old(self).node_positions,
                                self.node_rects == old(self).node_rects,
                                self.node_templates == old(self).node_templates,
                                self.user_state == old(self).user_state,
                                self.function_stack.deep_view() + import_sigs_from(args@, k as int)
                                    == stack_mid + import_sigs_from(args@, 0),
                                arg_results.deep_view() + import_list_from(args@, k as int)
                                    == import_list_from(args@, 0),
                            decreases args@.len() - k,
                        {
                            let ghost stack_pre = self.function_stack.deep_view();
                            let ghost res_pre = arg_results.deep_view();
                            let sub = self.transform_ast(&args[k]);
                            proof {
                                assert(import_sigs_from(args@, k as int) == import_sigs_spec(
                                    args@[k as int],
                                ) + import_sigs_from(args@, k as int + 1));
                                assert((stack_pre + import_sigs_spec(args@[k as int]))
                                    + import_sigs_from(args@, k as int + 1) =~= stack_pre + (
                                import_sigs_spec(args@[k as int]) + import_sigs_from(
                                    args@,
                                    k as int + 1,
                                )));
                                assert(import_list_from(args@, k as int) == (
                                match import_node_spec(args@[k as int]) {
                                    Option::Some(p) => seq![p] + import_list_from(
                                        args@,
                                        k as int + 1,
                                    ),
                                    Option::None => import_list_from(args@, k as int + 1),
                                }));
                            }
                            match sub {
                                Option::Some(p) => {
                                    let ghost pv = p@;
                                    arg_results.push(p);
                                    proof {
                                        assert(arg_results.deep_view() =~= res_pre.push(pv));
                                        assert(res_pre.push(pv) =~= res_pre + seq![pv]);
                                        assert((res_pre + seq![pv]) + import_list_from(
                                            args@,
                                            k as int + 1,
                                        ) =~= res_pre + (seq![pv] + import_list_from(
                                            args@,
                                            k as int + 1,
                                        )));
                                    }
                                },
                                Option::None => {},
                            }
                            k = k + 1;
                        }
                        proof {
                            assert(import_sigs_from(args@, k as int)
                                =~= Seq::<WzrdFunctionV>::empty());
                            assert(self.function_stack.deep_view() + import_sigs_from(
                                args@,
                                k as int,
                            ) =~= self.function_stack.deep_view());
                            assert(import_list_from(args@, k as int)
                                =~= Seq::<ParsedNodeV>::empty());
                            assert(arg_results.deep_view() + import_list_from(args@, k as int)
                                =~= arg_results.deep_view());
                            assert(base + (import_sigs_spec(**recv) + import_sigs_from(args@, 0))
                                =~= (base + import_sigs_spec(**recv)) + import_sigs_from(args@, 0));
                        }
                        let found = WzrdNodes::find_node(method_name.as_str());
                        match (receiver_result, found) {
                            (Option::Some(receiver_node), Option::Some(wzrd_node)) => {
                                let ghost rv = receiver_node@;
                                let ghost argsv = arg_results.deep_view();
                                let mut inputs: Vec<ParsedWzrdNode> = Vec::new();
                                inputs.push(receiver_node);
                                inputs.append(&mut arg_results);
                                let built = ParsedWzrdNode {
                                    wzrd_node,
                                    value: Option::None,
                                    inputs,
                                };
                                proof {
                                    assert(built.inputs.deep_view() =~= seq![rv] + argsv);
                                    lemma_parsed_views_len(built.inputs@);
                                    assert(parsed_views(built.inputs@) =~= built.inputs.deep_view());
                                    assert(built@ =~= (ParsedNodeV {
                                        node: built.wzrd_node@,
                                        value: Option::None,
                                        inputs: seq![rv] + argsv,
                                    }));
                                }
                                Option::Some(built)
                            },
                            _ => Option::None,
                        }
                    },
                    Option::None => Option::None,
                }
            },
            Ast::Int { value } => {
                let parsed: i64 = parse_i64_str(value.as_str());
                let mut template = WzrdNodes::Constant.node();
                if template.inputs.len() > 0 {
                    let mut cloned = clone_port(&template.inputs[0]);
                    cloned.initial_value = Option::Some(WzrdValueType::Integer { value: parsed });
                    proof {
                        assert(template@ == catalog_template(WzrdNodes::Constant));
                        assert(template@.inputs[0] == plain_port("value"@, WzrdNodeDataType::Any));
                        assert(template@.inputs[0] == template.inputs@[0]@);
                        assert(cloned@.name == "value"@);
                        assert(cloned@.data_type == WzrdNodeDataType::Any);
                        assert(parsed as int == parse_i64_or_zero(value@));
                        assert(cloned@.initial_value == Option::Some(
                            WzrdValueV::Int { value: parse_i64_or_zero(value@) },
                        ));
                        assert(cloned@ =~= (WzrdTypeV {
                            name: "value"@,
                            data_type: WzrdNodeDataType::Any,
                            initial_value: Option::Some(
                                WzrdValueV::Int { value: parse_i64_or_zero(value@) },
                            ),
                        }));
                    }
                    let mut new_inputs: Vec<WzrdType> = Vec::new();
                    new_inputs.push(cloned);
                    template.inputs = new_inputs;
                }
                let built = ParsedWzrdNode {
                    wzrd_node: template,
                    value: Option::Some(ParsedValueType::Int(parsed)),
                    inputs: Vec::new(),
                };
                proof {
                    assert(built.wzrd_node@.inputs.len() == 1);
                    assert(built.wzrd_node@.inputs[0].name == "value"@);
                    assert(built.wzrd_node@.inputs[0].initial_value == Option::Some(
                        WzrdValueV::Int { value: parse_i64_or_zero(value@) },
                    ));
                    assert(built.wzrd_node@ =~~= constant_node_of(parse_i64_or_zero(value@)));
                    assert(parsed_views(built.inputs@) =~= Seq::<ParsedNodeV>::empty());
                    assert(built@ =~= (ParsedNodeV {
                        node: constant_node_of(parse_i64_or_zero(value@)),
                        value: Option::Some(
                            ParsedValueV::Int { value: parse_i64_or_zero(value@) },
                        ),
                        inputs: Seq::empty(),
                    }));
                    assert(base + import_sigs_spec(*node) =~= base);
                }
                Option::Some(built)
            },
            Ast::Lvar { name } => {
                let mut template = WzrdNodes::Variable.node();
                let mut new_outputs: Vec<WzrdType> = Vec::new();
                new_outputs.push(
                    WzrdType {
                        name: name.clone(),
                        data_type: WzrdNodeDataType::Any,
                        initial_value: Option::None,
                    },
                );
                template.outputs = new_outputs;
                let built = ParsedWzrdNode {
                    wzrd_node: template,
                    value: Option::None,
                    inputs: Vec::new(),
                };
                proof {
                    assert(built.wzrd_node@ =~= variable_node_of(name@));
                    assert(parsed_views(built.inputs@) =~= Seq::<ParsedNodeV>::empty());
                    assert(built@ =~= (ParsedNodeV {
                        node: variable_node_of(name@),
                        value: Option::None,
                        inputs: Seq::empty(),
                    }));
                    assert(base + import_sigs_spec(*node) =~= base);
                }
                Option::Some(built)
            },
            Ast::Def { name, args, body } => {
                let arguments: Vec<String> = match args {
                    Option::Some(a) => self.parse_arguments(&**a),
                    Option::None => Vec::new(),
                };
                proof {
                    if args is None {
                        assert(arguments.deep_view() =~= Seq::<Seq<char>>::empty());
                    }
                }
                let sig = WzrdFunction { name: name.clone(), arguments };
                let ghost sigv = sig@;
                self.function_stack.push(sig);
                proof {
                    assert(self.function_stack.deep_view() =~= base.push(sigv));
                    assert(base.push(sigv) =~= base + seq![sigv]);
                }
                let ghost stack_mid = self.function_stack.deep_view();
                let result = match body {
                    Option::Some(b) => self.transform_ast(&**b),
                    Option::None => Option::None,
                };
                proof {
                    let body_sigs = match body {
                        Option::Some(b) => import_sigs_spec(**b),
                        Option::None => Seq::<WzrdFunctionV>::empty(),
                    };
                    if *body is None {
                        assert(self.function_stack.deep_view() =~= stack_mid + body_sigs);
                    }
                    assert((base + seq![sigv]) + body_sigs =~= base + (seq![sigv] + body_sigs));
                }
                result
            },
            Ast::Return { args } => {
                let mut kept: Vec<ParsedWzrdNode> = Vec::new();
                let mut k: usize = 0;
                proof {
                    assert(kept.deep_view() =~= Seq::<ParsedNodeV>::empty());
                    assert(kept.deep_view() + import_list_from(args@, 0) =~= import_list_from(
                        args@,
                        0,
                    ));
                }
                while k < args.len()
                    invariant
                        k <= args@.len(),
                        self.graph == old(self).graph,
                        self.node_order == old(self).node_order,
                        self.node_positions == old(self).node_positions,
                        self.node_rects == old(self).node_rects,
                        self.node_templates == old(self).node_templates,
                        self.user_state == old(self).user_state,
                        self.function_stack.deep_view() + import_sigs_from(args@, k as int) == base
                            + import_sigs_from(args@, 0),
                        kept.deep_view() + import_list_from(args@, k as int) == import_list_from(
                            args@,
                            0,
                        ),
                    decreases args@.len() - k,
                {
                    let ghost stack_pre = self.function_stack.deep_view();
                    let ghost kept_pre = kept.deep_view();
                    let sub = self.transform_ast(&args[k]);
                    proof {
                        assert(import_sigs_from(args@, k as int) == import_sigs_spec(
                            args@[k as int],
                        ) + import_sigs_from(args@, k as int + 1));
                        assert((stack_pre + import_sigs_spec(args@[k as int])) + import_sigs_from(
                            args@,
                            k as int + 1,
                        ) =~= stack_pre + (import_sigs_spec(args@[k as int]) + import_sigs_from(
                            args@,
                            k as int + 1,
                        )));
                        assert(import_list_from(args@, k as int) == (match import_node_spec(
                            args@[k as int],
                        ) {
                            Option::Some(p) => seq![p] + import_list_from(args@, k as int + 1),
                            Option::None => import_list_from(args@, k as int + 1),
                        }));
                    }
                    match sub {
                        Option::Some(p) => {
                            let ghost pv = p@;
                            kept.push(p);
                            proof {
                                assert(kept.deep_view() =~= kept_pre.push(pv));
                                assert(kept_pre.push(pv) =~= kept_pre + seq![pv]);
                                assert((kept_pre + seq![pv]) + import_list_from(
                                    args@,
                                    k as int + 1,
                                ) =~= kept_pre + (seq![pv] + import_list_from(args@, k as int + 1)));
                            }
                        },
                        Option::None => {},
                    }
                    k = k + 1;
                }
                proof {
                    assert(import_sigs_from(args@, k as int) =~= Seq::<WzrdFunctionV>::empty());
                    assert(self.function_stack.deep_view() + import_sigs_from(args@, k as int)
                        =~= self.function_stack.deep_view());
                    assert(import_list_from(args@, k as int) =~= Seq::<ParsedNodeV>::empty());
                    assert(kept.deep_view() + import_list_from(args@, k as int)
                        =~= kept.deep_view());
                }
                let mut template = WzrdNodes::Output.node();
                let mut new_inputs: Vec<WzrdType> = Vec::new();
                new_inputs.push(
                    WzrdType {
                        name: String::from_str("output"),
                        data_type: WzrdNodeDataType::Any,
                        initial_value: Option::None,
                    },
                );
                template.inputs = new_inputs;
                let inputs: Vec<ParsedWzrdNode> = if kept.len() > 0 {
                    let ghost kv = kept.deep_view();
                    let first = kept.remove(0);
                    let mut v: Vec<ParsedWzrdNode> = Vec::new();
                    v.push(first);
                    proof {
                        assert(v.deep_view() =~= seq![kv.first()]);
                    }
                    v
                } else {
                    Vec::new()
                };
                let built = ParsedWzrdNode { wzrd_node: template, value: Option::None, inputs };
                proof {
                    assert(built.wzrd_node@ =~= output_node());
                    lemma_parsed_views_len(built.inputs@);
                    assert(parsed_views(built.inputs@) =~= built.inputs.deep_view());
                    let kept_full = import_list_from(args@, 0);
                    assert(built@ =~= (ParsedNodeV {
                        node: output_node(),
                        value: Option::None,
                        inputs: if kept_full.len() > 0 {
                            seq![kept_full[0]]
                        } else {
                            Seq::empty()
                        },
                    }));
                }
                Option::Some(built)
            },
            _ => {
                proof {
                    assert(base + import_sigs_spec(*node) =~= base);
                }
                Option::None
            },
        }
    }
}

impl WzrdNodeGraph {
    /// Materializes a parsed-node tree into the store: children before
    /// parents, each new node appended to the deterministic node order and
    /// given an initial display position, then each child's first output
    /// wired to the positionally corresponding input of its parent.
    #[verifier::loop_isolation(false)]
    #[verifier::rlimit(100)]
    fn build_graph(&mut self, parsed_node: &ParsedWzrdNode) -> (id: usize)
        requires
            old(self).wf(),
        ensures
            final(self).wf(),
            final(self).function_stack == old(self).function_stack,
            final(self).node_templates == old(self).node_templates,
            final(self).user_state == old(self).user_state,
            final(self).graph@ == materialize(old(self).graph@, parsed_node@).0,
            id as int == materialize(old(self).graph@, parsed_node@).1,
            final(self).graph@.nodes.len() > old(self).graph@.nodes.len(),
            id < final(self).graph@.nodes.len(),
            old(self).graph@.nodes.len() <= id,
            id as int == final(self).graph@.nodes.len() - 1,
            forall|j: int|
                0 <= j < old(self).graph@.nodes.len() ==> final(self).graph@.nodes[j] == old(self).graph@.nodes[j],
            forall|j: int|
                0 <= j < old(self).graph@.inputs.len() ==> final(self).graph@.inputs[j] == old(self).graph@.inputs[j],
            forall|j: int|
                0 <= j < old(self).graph@.outputs.len() ==> final(self).graph@.outputs[j] == old(self).graph@.outputs[j],
            old(self).graph@.inputs.len() <= final(self).graph@.inputs.len(),
            old(self).graph@.outputs.len() <= final(self).graph@.outputs.len(),
            old(self).graph@.connections.len() <= final(self).graph@.connections.len(),
            forall|j: int|
                0 <= j < old(self).graph@.connections.len() ==> final(self).graph@.connections[j]
                    == old(self).graph@.connections[j],
            forall|j: int|
                old(self).graph@.connections.len() <= j < final(self).graph@.connections.len()
                    ==> ((#[trigger] final(self).graph@.connections[j]) matches Option::Some(o)
                    ==> 0 <= o < final(self).graph@.outputs.len() && old(self).graph@.nodes.len()
                        <= final(self).graph@.outputs[o].node),
            !final(self).graph@.has_outgoing(id as int),
            is_forest(old(self).graph@) ==> is_forest(final(self).graph@),
            distinct_inputs(old(self).graph@) ==> distinct_inputs(final(self).graph@),
            final(self).node_order@.len() == old(self).node_order@.len() + final(self).graph@.nodes.len() - old(self).graph@.nodes.len(),
            forall|j: int|
                0 <= j < old(self).node_order@.len() ==> final(self).node_order@[j] == old(self).node_order@[j],
            forall|j: int|
                old(self).node_order@.len() <= j < final(self).node_order@.len() ==> final(self).node_order@[j] == old(self).graph@.nodes.len() + j - old(self).node_order@.len(),
            forall|j: int|
                0 <= j < old(self).graph@.nodes.len() ==> final(self).node_positions@[j] == old(self).node_positions@[j],
            forall|j: int|
                old(self).graph@.nodes.len() <= j < final(self).graph@.nodes.len() ==> final(self).node_positions@[j] == Option::Some(NodePos { x: 100, y: 100 }),
            forall|j: int|
                0 <= j < old(self).graph@.nodes.len() ==> final(self).node_rects@[j] == old(self).node_rects@[j],
            forall|j: int|
                old(self).graph@.nodes.len() <= j < final(self).graph@.nodes.len() ==> final(self).node_rects@[j] == (NodeRect { width: 0, height: 0 }),
        decreases parsed_node, 2int,
    {
        let ghost g0 = self.graph@;
        let ghost order0 = self.node_order@;
        let ghost pv = parsed_views(parsed_node.inputs@);
        proof {
            lemma_parsed_views_len(parsed_node.inputs@);
        }
        let mut child_ids: Vec<usize> = Vec::new();
        let mut k: usize = 0;
        proof {
            assert(pv.skip(0) =~= pv);
            assert(child_ids@.map_values(|u: usize| u as int) =~= Seq::<int>::empty());
            assert(child_ids@.map_values(|u: usize| u as int) + materialize_list(
                self.graph@,
                pv.skip(0),
            ).1 =~= materialize_list(g0, pv).1);
        }
        while k < parsed_node.inputs.len()
            invariant
                k <= parsed_node.inputs@.len(),
                self.wf(),
                self.function_stack == old(self).function_stack,
                self.node_templates == old(self).node_templates,
                self.user_state == old(self).user_state,
                self.graph@.nodes.len() >= g0.nodes.len(),
                materialize_list(g0, pv).0 == materialize_list(self.graph@, pv.skip(k as int)).0,
                materialize_list(g0, pv).1 == child_ids@.map_values(|u: usize| u as int)
                    + materialize_list(self.graph@, pv.skip(k as int)).1,
                child_ids@.len() == k,
                forall|t: int|
                    0 <= t < k ==> #[trigger] child_ids@[t] < self.graph@.nodes.len(),
                forall|j: int| 0 <= j < g0.nodes.len() ==> self.graph@.nodes[j] == g0.nodes[j],
                forall|j: int| 0 <= j < g0.inputs.len() ==> self.graph@.inputs[j] == g0.inputs[j],
                forall|j: int|
                    0 <= j < g0.outputs.len() ==> self.graph@.outputs[j] == g0.outputs[j],
                g0.inputs.len() <= self.graph@.inputs.len(),
                g0.outputs.len() <= self.graph@.outputs.len(),
                g0.connections.len() <= self.graph@.connections.len(),
                forall|j: int|
                    0 <= j < g0.connections.len() ==> self.graph@.connections[j]
                        == g0.connections[j],
                forall|j: int|
                    g0.connections.len() <= j < self.graph@.connections.len() ==> (
                    (#[trigger] self.graph@.connections[j]) matches Option::Some(o) ==> 0 <= o
                        < self.graph@.outputs.len() && g0.nodes.len()
                        <= self.graph@.outputs[o].node),
                is_forest(g0) ==> is_forest(self.graph@),
                distinct_inputs(g0) ==> distinct_inputs(self.graph@),
                forall|t: int| 0 <= t < k ==> g0.nodes.len() <= #[trigger] child_ids@[t],
                forall|t1: int, t2: int|
                    #![trigger child_ids@[t1], child_ids@[t2]]
                    0 <= t1 < t2 < k ==> child_ids@[t1] < child_ids@[t2],
                forall|t: int|
                    0 <= t < k ==> !self.graph@.has_outgoing((#[trigger] child_ids@[t]) as int),
                self.node_order@.len() == order0.len() + self.graph@.nodes.len() - g0.nodes.len(),
                forall|j: int| 0 <= j < order0.len() ==> self.node_order@[j] == order0[j],
                forall|j: int|
                    order0.len() <= j < self.node_order@.len() ==> self.node_order@[j]
                        == g0.nodes.len() + j - order0.len(),
                forall|j: int|
                    0 <= j < g0.nodes.len() ==> self.node_positions@[j] == old(self).node_positions@[j],
                forall|j: int|
                    g0.nodes.len() <= j < self.graph@.nodes.len() ==> self.node_positions@[j]
                        == Option::Some(NodePos { x: 100, y: 100 }),
                forall|j: int|
                    0 <= j < g0.nodes.len() ==> self.node_rects@[j] == old(self).node_rects@[j],
                forall|j: int|
                    g0.nodes.len() <= j < self.graph@.nodes.len() ==> self.node_rects@[j] == (
                    NodeRect { width: 0, height: 0 }),
            decreases parsed_node, 1int, parsed_node.inputs@.len() - k,
        {
            let ghost g_pre = self.graph@;
            let ghost ids_pre = child_ids@.map_values(|u: usize| u as int);
            let child = self.build_graph(&parsed_node.inputs[k]);
            proof {
                assert(pv.skip(k as int)[0] == pv[k as int]);
                assert(pv[k as int] == parsed_node.inputs@[k as int]@);
                assert(materialize_list(g_pre, pv.skip(k as int)).0 == materialize_list(
                    self.graph@,
                    pv.skip(k as int).drop_first(),
                ).0);
                assert(pv.skip(k as int).drop_first() =~= pv.skip(k as int + 1));
            }
            child_ids.push(child);
            proof {
                assert forall|t: int|
                    0 <= t < k + 1 implies !self.graph@.has_outgoing(
                    (#[trigger] child_ids@[t]) as int,
                ) by {
                    let c = child_ids@[t] as int;
                    if t < k {
                        if self.graph@.has_outgoing(c) {
                            let i = choose|i: int|
                                0 <= i < self.graph@.connections.len() && ((
                                #[trigger] self.graph@.connections[i]) matches Option::Some(o)
                                    && self.graph@.outputs[o].node == c);
                            if i < g_pre.connections.len() {
                                assert(self.graph@.connections[i] == g_pre.connections[i]);
                                assert(g_pre.connections[i] matches Option::Some(o) ==> 0 <= o
                                    < g_pre.outputs.len());
                                assert(g_pre.has_outgoing(c)) by {
                                    match g_pre.connections[i] {
                                        Option::Some(o) => {
                                            assert(self.graph@.outputs[o] == g_pre.outputs[o]);
                                        },
                                        Option::None => {},
                                    }
                                }
                                assert(false);
                            } else {
                                assert(false);
                            }
                        }
                    }
                }
                assert(child_ids@.map_values(|u: usize| u as int) =~= ids_pre.push(child as int));
                assert(ids_pre.push(child as int) =~= ids_pre + seq![child as int]);
                assert(materialize_list(g_pre, pv.skip(k as int)).1 == seq![child as int]
                    + materialize_list(self.graph@, pv.skip(k as int + 1)).1);
                assert(ids_pre + (seq![child as int] + materialize_list(
                    self.graph@,
                    pv.skip(k as int + 1),
                ).1) =~= (ids_pre + seq![child as int]) + materialize_list(
                    self.graph@,
                    pv.skip(k as int + 1),
                ).1);
            }
            k = k + 1;
        }
        proof {
            assert(pv.skip(k as int) =~= Seq::<ParsedNodeV>::empty());
            assert(materialize_list(self.graph@, pv.skip(k as int)).0 == self.graph@);
            assert(materialize_list(self.graph@, pv.skip(k as int)).1
                =~= Seq::<int>::empty());
            assert(child_ids@.map_values(|u: usize| u as int) + materialize_list(
                self.graph@,
                pv.skip(k as int),
            ).1 =~= child_ids@.map_values(|u: usize| u as int));
        }
        let ghost g1 = self.graph@;
        let id = self.graph.add_node(&parsed_node.wzrd_node);
        self.node_order.push(id);
        self.node_positions.push(Option::Some(NodePos { x: 100, y: 100 }));
        self.node_rects.push(NodeRect { width: 0, height: 0 });
        proof {
            assert(parsed_node@.node == parsed_node.wzrd_node@);
            assert(self.graph@ =~= graph_with_node(g1, parsed_node@.node)) by {
                assert(self.graph@.nodes =~= graph_with_node(g1, parsed_node@.node).nodes);
                assert(self.graph@.inputs =~= graph_with_node(g1, parsed_node@.node).inputs);
                assert(self.graph@.outputs =~= graph_with_node(g1, parsed_node@.node).outputs);
                assert(self.graph@.connections =~= graph_with_node(
                    g1,
                    parsed_node@.node,
                ).connections);
            }
        }
        proof {
            let g2p = self.graph@;
            assert(is_forest(g1) ==> is_forest(g2p)) by {
                if is_forest(g1) {
                    assert forall|i1: int, i2: int|
                        (0 <= i1 < g2p.connections.len() && 0 <= i2 < g2p.connections.len()
                            && g2p.connections[i1] is Some && g2p.connections[i2] is Some && #[trigger] conn_source(
                            g2p,
                            i1,
                        ) == #[trigger] conn_source(g2p, i2)) implies i1 == i2 by {
                        assert(i1 < g1.connections.len() && i2 < g1.connections.len());
                        assert(g2p.connections[i1] == g1.connections[i1]);
                        assert(g2p.connections[i2] == g1.connections[i2]);
                        assert(conn_source(g1, i1) == conn_source(g2p, i1)) by {
                            match g1.connections[i1] {
                                Option::Some(o) => {
                                    assert(0 <= o < g1.outputs.len());
                                    assert(g2p.outputs[o] == g1.outputs[o]);
                                },
                                Option::None => {},
                            }
                        }
                        assert(conn_source(g1, i2) == conn_source(g2p, i2)) by {
                            match g1.connections[i2] {
                                Option::Some(o) => {
                                    assert(0 <= o < g1.outputs.len());
                                    assert(g2p.outputs[o] == g1.outputs[o]);
                                },
                                Option::None => {},
                            }
                        }
                    }
                }
            }
            assert(distinct_inputs(g1) ==> distinct_inputs(g2p)) by {
                if distinct_inputs(g1) {
                    assert forall|n2: int, j1: int, j2: int|
                        (0 <= n2 < g2p.nodes.len() && 0 <= j1 < g2p.nodes[n2].inputs.len() && 0
                            <= j2 < g2p.nodes[n2].inputs.len() && j1 != j2) implies #[trigger] g2p.nodes[n2].inputs[j1]
                        != #[trigger] g2p.nodes[n2].inputs[j2] by {
                        if n2 < g1.nodes.len() {
                            assert(g2p.nodes[n2] == g1.nodes[n2]);
                            assert(g1.nodes[n2].inputs[j1] != g1.nodes[n2].inputs[j2]);
                        } else {
                            assert(g2p.nodes[n2].inputs[j1] == g1.inputs.len() + j1);
                            assert(g2p.nodes[n2].inputs[j2] == g1.inputs.len() + j2);
                        }
                    }
                }
            }
            assert forall|t: int|
                0 <= t < child_ids@.len() implies !self.graph@.has_outgoing(
                (#[trigger] child_ids@[t]) as int,
            ) by {
                let c = child_ids@[t] as int;
                if self.graph@.has_outgoing(c) {
                    let i = choose|i: int|
                        0 <= i < self.graph@.connections.len() && ((
                        #[trigger] self.graph@.connections[i]) matches Option::Some(o)
                            && self.graph@.outputs[o].node == c);
                    if i < g1.connections.len() {
                        assert(self.graph@.connections[i] == g1.connections[i]);
                        assert(g1.has_outgoing(c)) by {
                            match g1.connections[i] {
                                Option::Some(o) => {
                                    assert(0 <= o < g1.outputs.len());
                                    assert(self.graph@.outputs[o] == g1.outputs[o]);
                                },
                                Option::None => {},
                            }
                        }
                        assert(false);
                    } else {
                        assert(self.graph@.connections[i] is None);
                        assert(false);
                    }
                }
            }
        }
        proof {
            assert forall|j: int|
                0 <= j < g0.connections.len() implies self.graph@.connections[j]
                == g0.connections[j] by {
                assert(self.graph@.connections[j] == g1.connections[j]);
            }
            assert forall|j: int|
                g0.connections.len() <= j < self.graph@.connections.len() implies ((
            #[trigger] self.graph@.connections[j]) matches Option::Some(o) ==> 0 <= o
                < self.graph@.outputs.len() && g0.nodes.len() <= self.graph@.outputs[o].node) by {
                if j < g1.connections.len() {
                    assert(self.graph@.connections[j] == g1.connections[j]);
                    match g1.connections[j] {
                        Option::Some(o) => {
                            assert(0 <= o < g1.outputs.len());
                            assert(self.graph@.outputs[o] == g1.outputs[o]);
                        },
                        Option::None => {},
                    }
                } else {
                    assert(self.graph@.connections[j] is None);
                }
            }
        }
        let ghost g2 = self.graph@;
        let ghost idsv = child_ids@.map_values(|u: usize| u as int);
        let ghost order1 = self.node_order@;
        let ghost pos1 = self.node_positions@;
        let ghost rects1 = self.node_rects@;
        let arity = self.graph.nodes[id].inputs.len();
        proof {
            assert(self.graph@.nodes[id as int] == self.graph.nodes@[id as int]@);
            assert(arity as int == self.graph@.nodes[id as int].inputs.len());
        }
        let mut k2: usize = 0;
        while k2 < arity
            invariant
                k2 <= arity,
                self.graph@.wf(),
                self.graph@.nodes == g2.nodes,
                self.graph@.inputs == g2.inputs,
                self.graph@.outputs == g2.outputs,
                self.graph@.connections.len() == g2.connections.len(),
                self.node_order@ == order1,
                self.node_positions@ == pos1,
                self.node_rects@ == rects1,
                self.function_stack == old(self).function_stack,
                self.node_templates == old(self).node_templates,
                self.user_state == old(self).user_state,
                forall|j: int|
                    0 <= j < g0.connections.len() ==> self.graph@.connections[j]
                        == g0.connections[j],
                forall|j: int|
                    g0.connections.len() <= j < self.graph@.connections.len() ==> (
                    (#[trigger] self.graph@.connections[j]) matches Option::Some(o) ==> 0 <= o
                        < self.graph@.outputs.len() && g0.nodes.len()
                        <= self.graph@.outputs[o].node),
                is_forest(g0) ==> is_forest(self.graph@),
                distinct_inputs(g0) ==> distinct_inputs(self.graph@),
                forall|t: int|
                    k2 <= t < child_ids@.len() ==> !self.graph@.has_outgoing(
                        (#[trigger] child_ids@[t]) as int,
                    ),
                wired_from(g2, id as int, idsv, 0) == wired_from(self.graph@, id as int, idsv, k2 as int),
            decreases arity - k2,
        {
            let i = self.graph.nodes[id].inputs[k2];
            proof {
                assert(self.graph@.nodes[id as int].inputs[k2 as int] == i as int);
                assert(0 <= self.graph@.nodes[id as int].inputs[k2 as int]
                    < self.graph@.inputs.len());
                assert(self.graph@.inputs[i as int].node == id as int);
            }
            let ghost g_cur = self.graph@;
            if k2 < child_ids.len() {
                let c = child_ids[k2];
                proof {
                    assert(idsv[k2 as int] == c as int);
                    assert((c as int) < g1.nodes.len());
                    assert(self.graph@.nodes[c as int] == g1.nodes[c as int]);
                }
                let outs_len = self.graph.nodes[c].outputs.len();
                if outs_len > 0 {
                    let o = self.graph.nodes[c].outputs[0];
                    proof {
                        assert(self.graph@.nodes[c as int].outputs[0] == o as int);
                        assert(0 <= self.graph@.nodes[c as int].outputs[0]
                            < self.graph@.outputs.len());
                        assert(self.graph@.outputs[o as int].node == c as int);
                    }
                    self.graph.add_connection(o, i);
                    proof {
                        assert(self.graph@ =~= (WzrdGraphV {
                            nodes: g_cur.nodes,
                            inputs: g_cur.inputs,
                            outputs: g_cur.outputs,
                            connections: g_cur.connections.update(
                                g_cur.nodes[id as int].inputs[k2 as int],
                                Option::Some(g_cur.nodes[idsv[k2 as int]].outputs[0]),
                            ),
                        }));
                        assert(wired_from(g_cur, id as int, idsv, k2 as int) == wired_from(
                            self.graph@,
                            id as int,
                            idsv,
                            k2 as int + 1,
                        ));
                        let islot = i as int;
                        let cnew = self.graph@;
                        assert(g2.nodes[id as int] == materialized_node(
                            parsed_node@.node,
                            g1.inputs.len() as int,
                            g1.outputs.len() as int,
                        ));
                        assert(islot == g1.inputs.len() + k2);
                        assert(g0.connections.len() == g0.inputs.len());
                        assert(g0.connections.len() <= islot);
                        assert(cnew.connections[islot] == Option::Some(o as int));
                        assert(cnew.outputs[o as int].node == c as int);
                        assert(g0.nodes.len() <= c as int);
                        assert(is_forest(g0) ==> is_forest(cnew)) by {
                            if is_forest(g0) {
                                assert(is_forest(g_cur));
                                assert(!g_cur.has_outgoing(c as int));
                                assert forall|i1: int, i2: int|
                                    (0 <= i1 < cnew.connections.len() && 0 <= i2
                                        < cnew.connections.len() && cnew.connections[i1] is Some
                                        && cnew.connections[i2] is Some && #[trigger] conn_source(
                                        cnew,
                                        i1,
                                    ) == #[trigger] conn_source(cnew, i2)) implies i1 == i2 by {
                                    if i1 != islot && i2 != islot {
                                        assert(cnew.connections[i1] == g_cur.connections[i1]);
                                        assert(cnew.connections[i2] == g_cur.connections[i2]);
                                        assert(conn_source(cnew, i1) == conn_source(g_cur, i1));
                                        assert(conn_source(cnew, i2) == conn_source(g_cur, i2));
                                    } else if i1 == islot && i2 != islot {
                                        assert(conn_source(cnew, i1) == c as int);
                                        assert(cnew.connections[i2] == g_cur.connections[i2]);
                                        assert(conn_source(g_cur, i2) == c as int);
                                        assert(g_cur.has_outgoing(c as int));
                                        assert(false);
                                    } else if i2 == islot && i1 != islot {
                                        assert(conn_source(cnew, i2) == c as int);
                                        assert(cnew.connections[i1] == g_cur.connections[i1]);
                                        assert(conn_source(g_cur, i1) == c as int);
                                        assert(g_cur.has_outgoing(c as int));
                                        assert(false);
                                    }
                                }
                            }
                        }
                        assert(distinct_inputs(g0) ==> distinct_inputs(cnew)) by {
                            if distinct_inputs(g0) {
                                assert(distinct_inputs(g_cur));
                                assert(cnew.nodes == g_cur.nodes);
                            }
                        }
                        assert forall|t: int|
                            k2 + 1 <= t < child_ids@.len() implies !self.graph@.has_outgoing(
                            (#[trigger] child_ids@[t]) as int,
                        ) by {
                            let ct = child_ids@[t] as int;
                            assert(!g_cur.has_outgoing(ct));
                            assert((c as int) < ct);
                            if self.graph@.has_outgoing(ct) {
                                let i3 = choose|i3: int|
                                    0 <= i3 < cnew.connections.len() && ((
                                    #[trigger] cnew.connections[i3]) matches Option::Some(o3)
                                        && cnew.outputs[o3].node == ct);
                                if i3 == islot {
                                    assert(cnew.outputs[o as int].node == c as int);
                                    assert(false);
                                } else {
                                    assert(cnew.connections[i3] == g_cur.connections[i3]);
                                    assert(g_cur.has_outgoing(ct));
                                    assert(false);
                                }
                            }
                        }
                    }
                } else {
                    proof {
                        assert(wired_from(g_cur, id as int, idsv, k2 as int) == wired_from(
                            self.graph@,
                            id as int,
                            idsv,
                            k2 as int + 1,
                        ));
                    }
                }
            } else {
                proof {
                    assert(wired_from(g_cur, id as int, idsv, k2 as int) == wired_from(
                        self.graph@,
                        id as int,
                        idsv,
                        k2 as int + 1,
                    ));
                }
            }
            k2 = k2 + 1;
        }
        proof {
            assert(wired_from(self.graph@, id as int, idsv, k2 as int) == self.graph@);
            assert(self.graph@ == materialize(g0, parsed_node@).0);
            assert(id as int == materialize(g0, parsed_node@).1);
            assert(self.graph@.nodes.len() == g1.nodes.len() + 1);
            lemma_last_node_no_outgoing(self.graph@);
            assert forall|j: int|
                0 <= j < g0.nodes.len() implies self.graph@.nodes[j] == g0.nodes[j] by {
                assert(self.graph@.nodes[j] == g2.nodes[j]);
                assert(g2.nodes[j] == g1.nodes[j]);
            }
            assert forall|j: int|
                0 <= j < g0.inputs.len() implies self.graph@.inputs[j] == g0.inputs[j] by {
                assert(self.graph@.inputs[j] == g2.inputs[j]);
                assert(g2.inputs[j] == g1.inputs[j]);
            }
            assert forall|j: int|
                0 <= j < g0.outputs.len() implies self.graph@.outputs[j] == g0.outputs[j] by {
                assert(self.graph@.outputs[j] == g2.outputs[j]);
                assert(g2.outputs[j] == g1.outputs[j]);
            }
        }
        id
    }

    /// Imports a parsed script into the store: the AST becomes a transient
    /// parsed-node tree (pushing the signatures of the function definitions
    /// met along the way), which is materialized into nodes, positions and
    /// connections; an AST that imports to nothing leaves the store alone.
    pub fn initialize_graph(&mut self, ast: &Ast)
        requires
            old(self).wf(),
        ensures
            final(self).wf(),
            final(self).node_templates == old(self).node_templates,
            final(self).function_stack.deep_view() == old(self).function_stack.deep_view()
                + import_sigs_spec(*ast),
            match import_node_spec(*ast) {
                Option::Some(p) => final(self).graph@ == materialize(old(self).graph@, p).0,
                Option::None => final(self).graph@ == old(self).graph@ && final(self).node_order
                    == old(self).node_order && final(self).node_positions == old(self).node_positions && final(self).node_rects == old(self).node_rects,
            },
            is_forest(old(self).graph@) ==> is_forest(final(self).graph@),
            distinct_inputs(old(self).graph@) ==> distinct_inputs(final(self).graph@),
            final(self).node_order@.len() == old(self).node_order@.len() + final(self).graph@.nodes.len() - old(self).graph@.nodes.len(),
            forall|j: int|
                0 <= j < old(self).node_order@.len() ==> final(self).node_order@[j] == old(self).node_order@[j],
            forall|j: int|
                old(self).node_order@.len() <= j < final(self).node_order@.len() ==> final(self).node_order@[j] == old(self).graph@.nodes.len() + j - old(self).node_order@.len(),
            forall|j: int|
                0 <= j < old(self).graph@.nodes.len() ==> final(self).node_positions@[j] == old(self).node_positions@[j],
            forall|j: int|
                old(self).graph@.nodes.len() <= j < final(self).graph@.nodes.len() ==> final(self).node_positions@[j] == Option::Some(NodePos { x: 100, y: 100 }),
            forall|j: int|
                0 <= j < old(self).graph@.nodes.len() ==> final(self).node_rects@[j] == old(self).node_rects@[j],
            forall|j: int|
                old(self).graph@.nodes.len() <= j < final(self).graph@.nodes.len() ==> final(self).node_rects@[j] == (NodeRect { width: 0, height: 0 }),
    {
        match self.transform_ast(ast) {
            Option::Some(parsed) => {
                let _ = self.build_graph(&parsed);
            },
            Option::None => {},
        }
    }
}

} // verus!
