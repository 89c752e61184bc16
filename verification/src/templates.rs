//! The data model of nodes and the catalog of built-in node templates.
//!
//! A template pairs a label with ordered, typed input and output ports and an
//! optional code pattern holding positional placeholders (`$0`, `$1`, ...).
//! The built-in templates are constructed on demand from an enumerated kind;
//! every construction yields an independent value, so mutating one instance
//! can never affect another.

use vstd::prelude::*;
use vstd::string::StringExecFns;
use crate::text::str_eq_str;

verus! {

/// The declared type of a port.
#[derive(Clone, Copy, Debug, PartialEq, Eq, Structural)]
pub enum WzrdNodeDataType {
    Number,
    Any,
    String,
    Expression,
    Nothing,
}

/// The display name of each port type.
pub open spec fn data_type_name(d: WzrdNodeDataType) -> Seq<char> {
    match d {
        WzrdNodeDataType::Number => "number"@,
        WzrdNodeDataType::Any => "any"@,
        WzrdNodeDataType::String => "string"@,
        WzrdNodeDataType::Expression => "expression"@,
        WzrdNodeDataType::Nothing => "none"@,
    }
}

impl WzrdNodeDataType {
    /// The name shown for the port type.
    pub fn name(&self) -> (r: String)
        ensures
            r@ == data_type_name(*self),
    {
        match self {
            WzrdNodeDataType::Number => String::from_str("number"),
            WzrdNodeDataType::Any => String::from_str("any"),
            WzrdNodeDataType::String => String::from_str("string"),
            WzrdNodeDataType::Expression => String::from_str("expression"),
            WzrdNodeDataType::Nothing => String::from_str("none"),
        }
    }
}

/// A literal value carried by an unconnected input port.
#[derive(Clone, Debug)]
pub enum WzrdValueType {
    String { value: std::string::String },
    Integer { value: i64 },
}

/// Mathematical model of a [`WzrdValueType`].
#[verifier::ext_equal]
pub ghost enum WzrdValueV {
    Str { value: Seq<char> },
    Int { value: int },
}

impl View for WzrdValueType {
    type V = WzrdValueV;

    open spec fn view(&self) -> WzrdValueV {
        match self {
            WzrdValueType::String { value } => WzrdValueV::Str { value: value@ },
            WzrdValueType::Integer { value } => WzrdValueV::Int { value: *value as int },
        }
    }
}

impl DeepView for WzrdValueType {
    type V = WzrdValueV;

    open spec fn deep_view(&self) -> WzrdValueV {
        self.view()
    }
}

/// A port: a name, a declared type, and an optional default value.
///
/// The position of a port among its siblings is its index in the owning
/// template's port list; that index maps it to a placeholder.
#[derive(Clone, Debug)]
pub struct WzrdType {
    pub name: std::string::String,
    pub data_type: WzrdNodeDataType,
    pub initial_value: Option<WzrdValueType>,
}

/// Mathematical model of a [`WzrdType`].
#[verifier::ext_equal]
pub ghost struct WzrdTypeV {
    pub name: Seq<char>,
    pub data_type: WzrdNodeDataType,
    pub initial_value: Option<WzrdValueV>,
}

impl View for WzrdType {
    type V = WzrdTypeV;

    open spec fn view(&self) -> WzrdTypeV {
        WzrdTypeV {
            name: self.name@,
            data_type: self.data_type,
            initial_value: match self.initial_value {
                Option::Some(v) => Option::Some(v@),
                Option::None => Option::None,
            },
        }
    }
}

impl DeepView for WzrdType {
    type V = WzrdTypeV;

    open spec fn deep_view(&self) -> WzrdTypeV {
        self.view()
    }
}

/// A node template: a label, an optional code pattern, and ordered ports.
#[derive(Clone, Debug)]
pub struct WzrdNode {
    pub template: Option<std::string::String>,
    pub label: std::string::String,
    pub inputs: Vec<WzrdType>,
    pub outputs: Vec<WzrdType>,
}

/// Mathematical model of a [`WzrdNode`].
#[verifier::ext_equal]
pub ghost struct WzrdNodeV {
    pub template: Option<Seq<char>>,
    pub label: Seq<char>,
    pub inputs: Seq<WzrdTypeV>,
    pub outputs: Seq<WzrdTypeV>,
}

impl View for WzrdNode {
    type V = WzrdNodeV;

    open spec fn view(&self) -> WzrdNodeV {
        WzrdNodeV {
            template: match self.template {
                Option::Some(t) => Option::Some(t@),
                Option::None => Option::None,
            },
            label: self.label@,
            inputs: self.inputs@.map_values(|t: WzrdType| t@),
            outputs: self.outputs@.map_values(|t: WzrdType| t@),
        }
    }
}

impl DeepView for WzrdNode {
    type V = WzrdNodeV;

    open spec fn deep_view(&self) -> WzrdNodeV {
        self.view()
    }
}

/// Per-node user data: the template instance the node was built from.
#[derive(Clone, Debug)]
pub struct WzrdNodeData {
    pub template: WzrdNode,
}

impl View for WzrdNodeData {
    type V = WzrdNodeV;

    open spec fn view(&self) -> WzrdNodeV {
        self.template@
    }
}

/// User-level editor state; the graph model itself needs none.
#[derive(Default, Clone)]
pub struct WzrdGraphState {}

/// A captured function signature: a name and ordered parameter names.
#[derive(Clone, Debug)]
pub struct WzrdFunction {
    pub name: std::string::String,
    pub arguments: Vec<std::string::String>,
}

/// Mathematical model of a [`WzrdFunction`].
#[verifier::ext_equal]
pub ghost struct WzrdFunctionV {
    pub name: Seq<char>,
    pub arguments: Seq<Seq<char>>,
}

impl View for WzrdFunction {
    type V = WzrdFunctionV;

    open spec fn view(&self) -> WzrdFunctionV {
        WzrdFunctionV { name: self.name@, arguments: self.arguments.deep_view() }
    }
}

impl DeepView for WzrdFunction {
    type V = WzrdFunctionV;

    open spec fn deep_view(&self) -> WzrdFunctionV {
        self.view()
    }
}

/// The kinds of built-in node templates.
#[derive(Clone, Copy, Debug, PartialEq, Eq, Hash, Structural)]
pub enum WzrdNodes {
    Constant,
    Add,
    Multiply,
    Output,
    Variable,
    If,
}

/// A port model without a default value.
pub open spec fn plain_port(name: Seq<char>, data_type: WzrdNodeDataType) -> WzrdTypeV {
    WzrdTypeV { name: name, data_type: data_type, initial_value: Option::None }
}

/// The model of the built-in template of each kind.
pub open spec fn catalog_template(kind: WzrdNodes) -> WzrdNodeV {
    match kind {
        WzrdNodes::Constant => WzrdNodeV {
            template: Option::None,
            label: "Constant"@,
            inputs: seq![plain_port("value"@, WzrdNodeDataType::Any)],
            outputs: seq![plain_port("out"@, WzrdNodeDataType::Any)],
        },
        WzrdNodes::Variable => WzrdNodeV {
            template: Option::None,
            label: "Variable"@,
            inputs: Seq::empty(),
            outputs: Seq::empty(),
        },
        WzrdNodes::Add => WzrdNodeV {
            template: Option::Some("($0+$1)"@),
            label: "+"@,
            inputs: seq![
                plain_port("value1"@, WzrdNodeDataType::Number),
                plain_port("value2"@, WzrdNodeDataType::Number),
            ],
            outputs: seq![plain_port("out"@, WzrdNodeDataType::Any)],
        },
        WzrdNodes::Multiply => WzrdNodeV {
            template: Option::Some("($0*$1)"@),
            label: "*"@,
            inputs: seq![
                plain_port("value1"@, WzrdNodeDataType::Number),
                plain_port("value2"@, WzrdNodeDataType::Number),
            ],
            outputs: seq![plain_port("out"@, WzrdNodeDataType::Any)],
        },
        WzrdNodes::Output => WzrdNodeV {
            template: Option::None,
            label: "output"@,
            inputs: Seq::empty(),
            outputs: Seq::empty(),
        },
        WzrdNodes::If => WzrdNodeV {
            template: Option::Some("if ($0) then\n  $1\nelse\n  $2\nend"@),
            label: "If"@,
            inputs: seq![
                plain_port("condition"@, WzrdNodeDataType::Expression),
                plain_port("then"@, WzrdNodeDataType::Any),
                plain_port("else"@, WzrdNodeDataType::Any),
            ],
            outputs: seq![plain_port(""@, WzrdNodeDataType::Any)],
        },
    }
}

/// The kind whose built-in template carries the label, if any.
pub open spec fn kind_of_label(label: Seq<char>) -> Option<WzrdNodes> {
    if label == "Constant"@ {
        Option::Some(WzrdNodes::Constant)
    } else if label == "Variable"@ {
        Option::Some(WzrdNodes::Variable)
    } else if label == "+"@ {
        Option::Some(WzrdNodes::Add)
    } else if label == "*"@ {
        Option::Some(WzrdNodes::Multiply)
    } else if label == "output"@ {
        Option::Some(WzrdNodes::Output)
    } else if label == "If"@ {
        Option::Some(WzrdNodes::If)
    } else {
        Option::None
    }
}

fn plain_port_exec(name: &str, data_type: WzrdNodeDataType) -> (r: WzrdType)
    ensures
        r@ == plain_port(name@, data_type),
{
    WzrdType { name: String::from_str(name), data_type, initial_value: Option::None }
}

impl WzrdNodes {
    /// Builds an independent instance of the kind's built-in template.
    pub fn node(&self) -> (r: WzrdNode)
        ensures
            r@ == catalog_template(*self),
    {
        let r = match self {
            WzrdNodes::Constant => WzrdNode {
                template: Option::None,
                label: String::from_str("Constant"),
                inputs: vec![plain_port_exec("value", WzrdNodeDataType::Any)],
                outputs: vec![plain_port_exec("out", WzrdNodeDataType::Any)],
            },
            WzrdNodes::Variable => WzrdNode {
                template: Option::None,
                label: String::from_str("Variable"),
                inputs: Vec::new(),
                outputs: Vec::new(),
            },
            WzrdNodes::Add => WzrdNode {
                template: Option::Some(String::from_str("($0+$1)")),
                label: String::from_str("+"),
                inputs: vec![
                    plain_port_exec("value1", WzrdNodeDataType::Number),
                    plain_port_exec("value2", WzrdNodeDataType::Number),
                ],
                outputs: vec![plain_port_exec("out", WzrdNodeDataType::Any)],
            },
            WzrdNodes::Multiply => WzrdNode {
                template: Option::Some(String::from_str("($0*$1)")),
                label: String::from_str("*"),
                inputs: vec![
                    plain_port_exec("value1", WzrdNodeDataType::Number),
                    plain_port_exec("value2", WzrdNodeDataType::Number),
                ],
                outputs: vec![plain_port_exec("out", WzrdNodeDataType::Any)],
            },
            WzrdNodes::Output => WzrdNode {
                template: Option::None,
                label: String::from_str("output"),
                inputs: Vec::new(),
                outputs: Vec::new(),
            },
            WzrdNodes::If => WzrdNode {
                template: Option::Some(String::from_str("if ($0) then\n  $1\nelse\n  $2\nend")),
                label: String::from_str("If"),
                inputs: vec![
                    plain_port_exec("condition", WzrdNodeDataType::Expression),
                    plain_port_exec("then", WzrdNodeDataType::Any),
                    plain_port_exec("else", WzrdNodeDataType::Any),
                ],
                outputs: vec![plain_port_exec("", WzrdNodeDataType::Any)],
            },
        };
        proof {
            assert(r@ =~= catalog_template(*self));
        }
        r
    }

    /// Looks a built-in template up by its label.
    pub fn find_node(label: &str) -> (r: Option<WzrdNode>)
        ensures
            match kind_of_label(label@) {
                Option::Some(kind) => r matches Option::Some(n) && n@ == catalog_template(kind),
                Option::None => r is None,
            },
    {
        if str_eq_str(label, "Constant") {
            Option::Some(WzrdNodes::Constant.node())
        } else if str_eq_str(label, "Variable") {
            Option::Some(WzrdNodes::Variable.node())
        } else if str_eq_str(label, "+") {
            Option::Some(WzrdNodes::Add.node())
        } else if str_eq_str(label, "*") {
            Option::Some(WzrdNodes::Multiply.node())
        } else if str_eq_str(label, "output") {
            Option::Some(WzrdNodes::Output.node())
        } else if str_eq_str(label, "If") {
            Option::Some(WzrdNodes::If.node())
        } else {
            Option::None
        }
    }
}

/// The standard templates offered to an external node picker.
pub fn create_std_nodes() -> (r: Vec<WzrdNode>)
    ensures
        r.deep_view() =~= seq![
            catalog_template(WzrdNodes::Add),
            catalog_template(WzrdNodes::Multiply),
            catalog_template(WzrdNodes::If),
        ],
{
    let mut stds: Vec<WzrdNode> = Vec::new();
    stds.push(WzrdNodes::Add.node());
    stds.push(WzrdNodes::Multiply.node());
    stds.push(WzrdNodes::If.node());
    stds
}

/// An ordered list of templates registered at run time for presentation to
/// an external editing collaborator.
#[derive(Default, Clone)]
pub struct WzrdNodeTemplates(pub Vec<WzrdNode>);

impl View for WzrdNodeTemplates {
    type V = Seq<WzrdNodeV>;

    open spec fn view(&self) -> Seq<WzrdNodeV> {
        self.0.deep_view()
    }
}

/// Copies a value, preserving its model exactly.
pub fn clone_value(v: &WzrdValueType) -> (r: WzrdValueType)
    ensures
        r@ == v@,
{
    match v {
        WzrdValueType::String { value } => WzrdValueType::String { value: value.clone() },
        WzrdValueType::Integer { value } => WzrdValueType::Integer { value: *value },
    }
}

/// Copies a port, preserving its model exactly.
pub fn clone_port(t: &WzrdType) -> (r: WzrdType)
    ensures
        r@ == t@,
{
    WzrdType {
        name: t.name.clone(),
        data_type: t.data_type,
        initial_value: match &t.initial_value {
            Option::Some(v) => Option::Some(clone_value(v)),
            Option::None => Option::None,
        },
    }
}

fn clone_ports(ts: &Vec<WzrdType>) -> (r: Vec<WzrdType>)
    ensures
        r@.map_values(|t: WzrdType| t@) =~= ts@.map_values(|t: WzrdType| t@),
{
    let mut r: Vec<WzrdType> = Vec::new();
    let mut i: usize = 0;
    while i < ts.len()
        invariant
            i <= ts@.len(),
            r@.len() == i,
            forall|j: int| 0 <= j < i ==> (#[trigger] r@[j])@ == ts@[j]@,
        decreases ts@.len() - i,
    {
        r.push(clone_port(&ts[i]));
        i = i + 1;
    }
    r
}

/// Copies a template, preserving its model exactly.
pub fn clone_template(n: &WzrdNode) -> (r: WzrdNode)
    ensures
        r@ == n@,
{
    let r = WzrdNode {
        template: match &n.template {
            Option::Some(t) => Option::Some(t.clone()),
            Option::None => Option::None,
        },
        label: n.label.clone(),
        inputs: clone_ports(&n.inputs),
        outputs: clone_ports(&n.outputs),
    };
    proof {
        assert(r@ =~= n@);
    }
    r
}

impl WzrdNodeTemplates {
    /// Appends an ad-hoc template built from the given parts.
    pub fn create_node(
        &mut self,
        label: &str,
        template: Option<std::string::String>,
        inputs: Vec<WzrdType>,
        outputs: Vec<WzrdType>,
    ) -> (r: &WzrdNode)
        ensures
            final(self)@.len() == old(self)@.len() + 1,
            forall|j: int| 0 <= j < old(self)@.len() ==> final(self)@[j] == old(self)@[j],
            final(self)@.last() == (WzrdNodeV {
                template: match template {
                    Option::Some(t) => Option::Some(t@),
                    Option::None => Option::None,
                },
                label: label@,
                inputs: inputs@.map_values(|t: WzrdType| t@),
                outputs: outputs@.map_values(|t: WzrdType| t@),
            }),
            r@ == final(self)@.last(),
    {
        let new_node = WzrdNode { template, label: String::from_str(label), inputs, outputs };
        self.0.push(new_node);
        proof {
            assert(self@.last() =~= self.0@.last()@);
        }
        &self.0[self.0.len() - 1]
    }

    /// All registered templates, as independent copies.
    pub fn all_kinds(&self) -> (r: Vec<WzrdNode>)
        ensures
            r.deep_view() == self@,
    {
        let mut r: Vec<WzrdNode> = Vec::new();
        let mut i: usize = 0;
        while i < self.0.len()
            invariant
                i <= self.0@.len(),
                r@.len() == i,
                forall|j: int| 0 <= j < i ==> (#[trigger] r@[j])@ == self.0@[j]@,
            decreases self.0@.len() - i,
        {
            r.push(clone_template(&self.0[i]));
            i = i + 1;
        }
        proof {
            assert(r.deep_view() =~= self@);
        }
        r
    }
}

} // verus!
