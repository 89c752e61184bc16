//! The graph evaluator: regenerates script text from the graph.
//!
//! Evaluation walks backward from the sink node. Each input port resolves to
//! text: through its connection to the feeding node's text, or, unconnected,
//! to the rendering of its constant value. A template with a code pattern has
//! the k-th distinct placeholder (`$` followed by digits, in first-appearance
//! order) replaced by the k-th resolved input text. A pattern-less Variable
//! node emits its renamed output identifier; any other pattern-less node
//! passes its first resolved input through. Results are memoized per node as
//! they are computed.

use vstd::prelude::*;
use vstd::string::StrSliceExecFns;
use vstd::string::StringExecFns;
use crate::text::{int_to_dec, i64_to_string, is_dec_digit, join_with, join_strings, str_eq_str};
use crate::templates::{WzrdFunctionV, WzrdValueType, WzrdValueV};
use crate::store::{WzrdGraph, WzrdGraphV, WzrdNodeGraph};

verus! {

/// The text of a constant value: strings wrapped in exactly one pair of
/// double quotes, integers in exact signed decimal form.
pub open spec fn rendered_value(v: WzrdValueV) -> Seq<char> {
    match v {
        WzrdValueV::Str { value } => seq!['"'] + value + seq!['"'],
        WzrdValueV::Int { value } => int_to_dec(value),
    }
}

/// Renders a constant value as text.
pub fn render_value(v: &WzrdValueType) -> (r: String)
    ensures
        r@ == rendered_value(v@),
{
    match v {
        WzrdValueType::String { value } => {
            proof {
                reveal_strlit("\"");
            }
            let mut s = String::from_str("\"");
            s.append(value.as_str());
            s.append("\"");
            proof {
                assert(s@ =~= rendered_value(v@));
            }
            s
        },
        WzrdValueType::Integer { value } => i64_to_string(*value),
    }
}

/// The first position at or after `j` that does not hold a decimal digit.
pub open spec fn digit_run_end(pat: Seq<char>, j: int) -> int
    decreases pat.len() - j,
    when 0 <= j <= pat.len()
{
    if j == pat.len() {
        j
    } else if is_dec_digit(pat[j]) {
        digit_run_end(pat, j + 1)
    } else {
        j
    }
}

pub proof fn lemma_digit_run_end_bounds(pat: Seq<char>, j: int)
    requires
        0 <= j <= pat.len(),
    ensures
        j <= digit_run_end(pat, j) <= pat.len(),
    decreases pat.len() - j,
{
    if j < pat.len() && is_dec_digit(pat[j]) {
        lemma_digit_run_end_bounds(pat, j + 1);
    }
}

/// Characterizes the run end: every position in `s .. e` holds a digit and
/// `e` is the pattern's end or holds no digit.
pub proof fn lemma_digit_run_end_is(pat: Seq<char>, s: int, e: int)
    requires
        0 <= s <= e <= pat.len(),
        forall|i: int| s <= i < e ==> is_dec_digit(#[trigger] pat[i]),
        e == pat.len() || !is_dec_digit(pat[e]),
    ensures
        digit_run_end(pat, s) == e,
    decreases e - s,
{
    if s < e {
        lemma_digit_run_end_is(pat, s + 1, e);
    }
}

/// The position of the first occurrence of `tok` in `seen`, or `seen.len()`
/// when it does not occur.
pub open spec fn token_index(seen: Seq<Seq<char>>, tok: Seq<char>) -> int
    decreases seen.len(),
{
    if seen.len() == 0 {
        0
    } else if seen[0] == tok {
        0
    } else {
        1 + token_index(seen.drop_first(), tok)
    }
}

pub proof fn lemma_token_index_at(seen: Seq<Seq<char>>, tok: Seq<char>, i: int)
    requires
        0 <= i <= seen.len(),
        forall|j: int| 0 <= j < i ==> seen[j] != tok,
        i == seen.len() || seen[i] == tok,
    ensures
        token_index(seen, tok) == i,
    decreases seen.len(),
{
    if seen.len() > 0 && i > 0 {
        assert(seen[0] != tok);
        assert forall|j: int| 0 <= j < i - 1 implies seen.drop_first()[j] != tok by {
            assert(seen.drop_first()[j] == seen[j + 1]);
        }
        assert(i - 1 == seen.drop_first().len() || seen.drop_first()[i - 1] == tok);
        lemma_token_index_at(seen.drop_first(), tok, i - 1);
    }
}

/// The result of substituting resolved input texts into the pattern from
/// position `j` on, with `seen` holding the distinct placeholder tokens met
/// so far, in first-appearance order. `None` when a placeholder's position
/// among the distinct tokens has no corresponding input text.
pub open spec fn subst_from(
    pat: Seq<char>,
    vals: Seq<Seq<char>>,
    j: int,
    seen: Seq<Seq<char>>,
) -> Option<Seq<char>>
    decreases pat.len() - j,
    when 0 <= j <= pat.len()
{
    if j == pat.len() {
        Option::Some(Seq::empty())
    } else if pat[j] == '$' && j + 1 < pat.len() && is_dec_digit(pat[j + 1]) {
        let e = digit_run_end(pat, j + 1);
        let tok = pat.subrange(j + 1, e);
        let k = token_index(seen, tok);
        let seen2 = if k < seen.len() {
            seen
        } else {
            seen.push(tok)
        };
        proof {
            lemma_digit_run_end_bounds(pat, j + 1);
        }
        if k >= vals.len() {
            Option::None
        } else {
            match subst_from(pat, vals, e, seen2) {
                Option::Some(rest) => Option::Some(vals[k] + rest),
                Option::None => Option::None,
            }
        }
    } else {
        match subst_from(pat, vals, j + 1, seen) {
            Option::Some(rest) => Option::Some(seq![pat[j]] + rest),
            Option::None => Option::None,
        }
    }
}

/// The pattern with its k-th distinct placeholder (in first-appearance
/// order) replaced, at every occurrence, by the k-th input text.
pub open spec fn subst_pattern(pat: Seq<char>, vals: Seq<Seq<char>>) -> Option<Seq<char>> {
    subst_from(pat, vals, 0, Seq::empty())
}

/// The text node `n` evaluates to, or `None` when a template references more
/// placeholders than there are resolvable inputs (or a pattern-less,
/// non-Variable node has none).
pub open spec fn eval_node(g: WzrdGraphV, n: int) -> Option<Seq<char>>
    decreases n, 2int, 0int,
    when g.wf() && 0 <= n < g.nodes.len()
{
    match resolve_inputs(g, n, g.nodes[n].inputs.len() as int) {
        Option::None => Option::None,
        Option::Some(texts) => {
            let t = g.nodes[n].template;
            match t.template {
                Option::Some(pat) => subst_pattern(pat, texts),
                Option::None => {
                    if t.label == "Variable"@ {
                        if t.outputs.len() > 0 {
                            Option::Some(t.outputs[0].name)
                        } else {
                            Option::Some(Seq::empty())
                        }
                    } else {
                        if texts.len() > 0 {
                            Option::Some(texts[0])
                        } else {
                            Option::None
                        }
                    }
                },
            }
        },
    }
}

/// The text input port `i` resolves to: the feeding node's text through a
/// connection, or the rendering of the port's own constant value.
pub open spec fn resolve_input(g: WzrdGraphV, i: int) -> Option<Seq<char>>
    decreases g.inputs[i].node, 0int, 0int,
    when g.wf() && 0 <= i < g.inputs.len()
{
    match g.connections[i] {
        Option::Some(o) => eval_node(g, g.outputs[o].node),
        Option::None => Option::Some(rendered_value(g.inputs[i].value)),
    }
}

/// The texts of the first `k` input ports of node `n`, in declared order, or
/// `None` when any of them fails to resolve.
pub open spec fn resolve_inputs(g: WzrdGraphV, n: int, k: int) -> Option<Seq<Seq<char>>>
    decreases n, 1int, k,
    when g.wf() && 0 <= n < g.nodes.len() && 0 <= k <= g.nodes[n].inputs.len()
{
    if k == 0 {
        Option::Some(Seq::empty())
    } else {
        match resolve_inputs(g, n, k - 1) {
            Option::None => Option::None,
            Option::Some(texts) => match resolve_input(g, g.nodes[n].inputs[k - 1]) {
                Option::Some(t) => Option::Some(texts.push(t)),
                Option::None => Option::None,
            },
        }
    }
}

/// Once any prefix of a node's inputs fails to resolve, every longer prefix
/// fails as well.
proof fn lemma_resolve_inputs_none(g: WzrdGraphV, n: int, k: int, k2: int)
    requires
        g.wf(),
        0 <= n < g.nodes.len(),
        0 <= k <= k2 <= g.nodes[n].inputs.len(),
        resolve_inputs(g, n, k) is None,
    ensures
        resolve_inputs(g, n, k2) is None,
    decreases k2 - k,
{
    if k < k2 {
        lemma_resolve_inputs_none(g, n, k, k2 - 1);
    }
}

/// The body text wrapped in the captured function definition, parentheses
/// omitted entirely when the function has no parameters.
pub open spec fn wrap_function(body: Seq<char>, f: WzrdFunctionV) -> Seq<char> {
    "def "@ + f.name + (if f.arguments.len() == 0 {
        Seq::<char>::empty()
    } else {
        "("@ + join_with(f.arguments, ", "@) + ")"@
    }) + " "@ + body + " end"@
}

/// The text the whole graph evaluates to: the sink's text (or its fall-back
/// sentinel), wrapped in the most recently captured function signature when
/// one is present; a sentinel when the graph has no sink at all.
pub open spec fn graph_output(g: WzrdGraphV, stack: Seq<WzrdFunctionV>) -> Seq<char> {
    match g.sink() {
        Option::None => "Could not evaluate Graph"@,
        Option::Some(n) => {
            let body = match eval_node(g, n) {
                Option::Some(t) => t,
                Option::None => "error while calling evaluate node"@,
            };
            if stack.len() > 0 {
                wrap_function(body, stack.last())
            } else {
                body
            }
        },
    }
}

/// The per-node memo cache: computed text by node index.
pub struct NodeCache {
    entries: Vec<Option<String>>,
}

impl View for NodeCache {
    type V = Seq<Option<Seq<char>>>;

    closed spec fn view(&self) -> Seq<Option<Seq<char>>> {
        self.entries@.map_values(
            |e: Option<String>|
                match e {
                    Option::Some(s) => Option::Some(s@),
                    Option::None => Option::<Seq<char>>::None,
                },
        )
    }
}

/// Every cached text is the text its node evaluates to.
pub open spec fn cache_ok(c: Seq<Option<Seq<char>>>, g: WzrdGraphV) -> bool {
    &&& c.len() <= g.nodes.len()
    &&& forall|n: int|
        0 <= n < c.len() ==> ((#[trigger] c[n]) matches Option::Some(t) ==> eval_node(g, n)
            == Option::Some(t))
}

impl NodeCache {
    /// A fresh, empty cache. It is valid for any well-formed graph.
    pub fn new() -> (r: NodeCache)
        ensures
            r@.len() == 0,
            forall|g: WzrdGraphV| cache_ok(r@, g),
    {
        let r = NodeCache { entries: Vec::new() };
        proof {
            assert(r@ =~= Seq::<Option<Seq<char>>>::empty());
        }
        r
    }

    /// Grows the cache with empty slots up to `n` entries.
    fn grow(&mut self, n: usize)
        requires
            old(self)@.len() <= n,
        ensures
            final(self)@.len() == n,
            forall|j: int| 0 <= j < old(self)@.len() ==> final(self)@[j] == old(self)@[j],
            forall|j: int| old(self)@.len() <= j < n ==> final(self)@[j] is None,
    {
        while self.entries.len() < n
            invariant
                self@.len() <= n,
                forall|j: int| 0 <= j < old(self)@.len() ==> self@[j] == old(self)@[j],
                forall|j: int| old(self)@.len() <= j < self@.len() ==> self@[j] is None,
                self@.len() == self.entries@.len(),
                old(self)@.len() <= self@.len(),
            decreases n - self.entries@.len(),
        {
            let ghost pre = self@;
            self.entries.push(Option::None);
            proof {
                assert(self@ =~= pre.push(Option::None));
            }
        }
    }

    /// The cached text of node `n`, if any.
    fn get(&self, n: usize) -> (r: Option<&String>)
        requires
            n < self@.len(),
        ensures
            match r {
                Option::Some(s) => self@[n as int] == Option::Some(s@),
                Option::None => self@[n as int] is None,
            },
    {
        match &self.entries[n] {
            Option::Some(s) => Option::Some(s),
            Option::None => Option::None,
        }
    }

    /// Records the computed text of node `n`.
    fn set(&mut self, n: usize, s: String)
        requires
            n < old(self)@.len(),
        ensures
            final(self)@ == old(self)@.update(n as int, Option::Some(s@)),
    {
        self.entries[n] = Option::Some(s);
        proof {
            assert(self@ =~= old(self)@.update(n as int, Option::Some(s@)));
        }
    }
}

fn is_digit_char(c: char) -> (r: bool)
    ensures
        r == is_dec_digit(c),
{
    let u = c as u32;
    48 <= u && u <= 57
}

/// The position of the first entry equal to `tok`, or the number of entries.
fn find_token(seen: &Vec<String>, tok: &str) -> (k: usize)
    ensures
        k as int == token_index(seen.deep_view(), tok@),
        k <= seen@.len(),
{
    let mut i: usize = 0;
    while i < seen.len()
        invariant
            i <= seen@.len(),
            forall|j: int| 0 <= j < i ==> seen.deep_view()[j] != tok@,
        decreases seen@.len() - i,
    {
        if str_eq_str(seen[i].as_str(), tok) {
            proof {
                assert(seen.deep_view()[i as int] == tok@);
                lemma_token_index_at(seen.deep_view(), tok@, i as int);
            }
            return i;
        }
        proof {
            assert(seen.deep_view()[i as int] != tok@);
        }
        i = i + 1;
    }
    proof {
        lemma_token_index_at(seen.deep_view(), tok@, i as int);
    }
    i
}

/// Scans to the end of the run of decimal digits starting at `s`.
fn digit_run_end_exec(pat: &str, s: usize, len: usize) -> (e: usize)
    requires
        len == pat@.len(),
        s <= len,
    ensures
        s <= e <= len,
        e as int == digit_run_end(pat@, s as int),
{
    let mut e = s;
    while e < len
        invariant
            s <= e <= len,
            len == pat@.len(),
            forall|i: int| s <= i < e ==> is_dec_digit(#[trigger] pat@[i]),
        decreases len - e,
    {
        if !is_digit_char(pat.get_char(e)) {
            proof {
                lemma_digit_run_end_is(pat@, s as int, e as int);
            }
            return e;
        }
        e = e + 1;
    }
    proof {
        lemma_digit_run_end_is(pat@, s as int, e as int);
    }
    e
}

/// Substitutes the resolved input texts into a code pattern: the k-th
/// distinct placeholder, in first-appearance order, is replaced by the k-th
/// text at each of its occurrences. Yields nothing when the pattern holds
/// more distinct placeholders than there are texts.
#[verifier::loop_isolation(false)]
fn subst_exec(pat: &str, vals: &Vec<String>) -> (r: Option<String>)
    ensures
        match r {
            Option::Some(s) => subst_pattern(pat@, vals.deep_view()) == Option::Some(s@),
            Option::None => subst_pattern(pat@, vals.deep_view()) is None,
        },
{
    let ghost dv = vals.deep_view();
    let len = pat.unicode_len();
    let mut out = String::new();
    let mut seen: Vec<String> = Vec::new();
    let mut j: usize = 0;
    proof {
        assert(out@ =~= Seq::<char>::empty());
        assert(seen.deep_view() =~= Seq::<Seq<char>>::empty());
        assert(subst_pattern(pat@, dv) == (match subst_from(pat@, dv, 0, seen.deep_view()) {
            Option::Some(rest) => Option::Some(out@ + rest),
            Option::None => Option::<Seq<char>>::None,
        })) by {
            match subst_from(pat@, dv, 0, Seq::empty()) {
                Option::Some(rest) => {
                    assert(out@ + rest =~= rest);
                },
                Option::None => {},
            }
        }
    }
    while j < len
        invariant
            j <= len,
            subst_pattern(pat@, dv) == (match subst_from(pat@, dv, j as int, seen.deep_view()) {
                Option::Some(rest) => Option::Some(out@ + rest),
                Option::None => Option::<Seq<char>>::None,
            }),
        decreases len - j,
    {
        let ghost seenv = seen.deep_view();
        let ghost out_pre = out@;
        let c = pat.get_char(j);
        let mut is_ph = false;
        if c == '$' && j + 1 < len {
            if is_digit_char(pat.get_char(j + 1)) {
                is_ph = true;
            }
        }
        if is_ph {
            let e = digit_run_end_exec(pat, j + 1, len);
            let tok = pat.substring_char(j + 1, e);
            proof {
                assert(tok@ == pat@.subrange(j as int + 1, e as int));
            }
            let k = find_token(&seen, tok);
            if k >= vals.len() {
                proof {
                    assert(subst_from(pat@, dv, j as int, seenv) is None);
                }
                return Option::None;
            }
            out.append(vals[k].as_str());
            if k == seen.len() {
                let ghost pre_seen = seen.deep_view();
                seen.push(tok.to_owned());
                proof {
                    assert(seen.deep_view() =~= pre_seen.push(tok@));
                }
            }
            proof {
                let e0 = digit_run_end(pat@, j as int + 1);
                let tok0 = pat@.subrange(j as int + 1, e0);
                let k0 = token_index(seenv, tok0);
                assert(e0 == e as int);
                assert(tok0 == tok@);
                assert(k0 == k as int);
                let seen2 = if k0 < seenv.len() {
                    seenv
                } else {
                    seenv.push(tok0)
                };
                assert(seen.deep_view() == seen2);
                match subst_from(pat@, dv, e as int, seen2) {
                    Option::Some(rest) => {
                        assert(subst_from(pat@, dv, j as int, seenv) == Option::Some(
                            dv[k as int] + rest,
                        ));
                        assert(out_pre + (dv[k as int] + rest) =~= out@ + rest);
                    },
                    Option::None => {
                        assert(subst_from(pat@, dv, j as int, seenv) is None);
                    },
                }
            }
            j = e;
        } else {
            let piece = pat.substring_char(j, j + 1);
            out.append(piece);
            proof {
                assert(piece@ =~= seq![pat@[j as int]]);
                match subst_from(pat@, dv, j as int + 1, seenv) {
                    Option::Some(rest) => {
                        assert(subst_from(pat@, dv, j as int, seenv) == Option::Some(
                            seq![pat@[j as int]] + rest,
                        ));
                        assert(out_pre + (seq![pat@[j as int]] + rest) =~= out@ + rest);
                    },
                    Option::None => {
                        assert(subst_from(pat@, dv, j as int, seenv) is None);
                    },
                }
            }
            j = j + 1;
        }
    }
    proof {
        assert(subst_from(pat@, dv, j as int, seen.deep_view()) == Option::Some(
            Seq::<char>::empty(),
        ));
        assert(out@ + Seq::<char>::empty() =~= out@);
    }
    Option::Some(out)
}

/// Evaluates one node, memoizing the result: inputs are resolved in declared
/// order (through the cache where the feeding node's text is already known),
/// then substituted into the node's code pattern, or passed through for a
/// pattern-less node.
#[verifier::loop_isolation(false)]
fn evaluate_node(g: &WzrdGraph, cache: &mut NodeCache, n: usize) -> (r: Option<String>)
    requires
        g@.wf(),
        n < g@.nodes.len(),
        cache_ok(old(cache)@, g@),
        old(cache)@.len() == g@.nodes.len(),
    ensures
        cache_ok(final(cache)@, g@),
        final(cache)@.len() == g@.nodes.len(),
        forall|j: int|
            0 <= j < old(cache)@.len() && (#[trigger] old(cache)@[j]) is Some ==> final(cache)@[j] == old(cache)@[j],
        match r {
            Option::Some(s) => eval_node(g@, n as int) == Option::Some(s@),
            Option::None => eval_node(g@, n as int) is None,
        },
    decreases n,
{
    let node = &g.nodes[n];
    proof {
        assert(node@ == g@.nodes[n as int]);
    }
    let mut texts: Vec<String> = Vec::new();
    let mut k: usize = 0;
    proof {
        assert(texts.deep_view() =~= Seq::<Seq<char>>::empty());
    }
    while k < node.inputs.len()
        invariant
            k <= node.inputs@.len(),
            cache_ok(cache@, g@),
            cache@.len() == g@.nodes.len(),
            forall|j: int|
                0 <= j < old(cache)@.len() && (#[trigger] old(cache)@[j]) is Some ==> cache@[j]
                    == old(cache)@[j],
            resolve_inputs(g@, n as int, k as int) == Option::Some(texts.deep_view()),
        decreases node.inputs@.len() - k,
    {
        let ghost pre_dv = texts.deep_view();
        let i = node.inputs[k];
        proof {
            assert(g@.nodes[n as int].inputs[k as int] == i as int);
            assert(0 <= g@.nodes[n as int].inputs[k as int] < g@.inputs.len());
            assert(g@.inputs[i as int].node == n as int);
        }
        let resolved_opt: Option<String> = match g.connections[i] {
            Option::Some(o) => {
                proof {
                    assert(g@.connections[i as int] == Option::Some(o as int));
                    assert(g@.outputs[o as int].node < g@.inputs[i as int].node);
                }
                let m = g.outputs[o].node;
                let mut from_cache: Option<String> = Option::None;
                match cache.get(m) {
                    Option::Some(s) => {
                        from_cache = Option::Some(s.clone());
                    },
                    Option::None => {},
                }
                match from_cache {
                    Option::Some(s) => {
                        proof {
                            assert(eval_node(g@, m as int) == Option::Some(s@));
                        }
                        Option::Some(s)
                    },
                    Option::None => evaluate_node(g, cache, m),
                }
            },
            Option::None => {
                proof {
                    assert(g@.connections[i as int] is None);
                }
                Option::Some(render_value(&g.inputs[i].value))
            },
        };
        proof {
            assert(g@.inputs[i as int].value == g.inputs@[i as int]@.value);
        }
        match resolved_opt {
            Option::Some(t) => {
                proof {
                    assert(resolve_input(g@, i as int) == Option::Some(t@));
                }
                texts.push(t);
                proof {
                    assert(texts.deep_view() =~= pre_dv.push(texts@.last()@));
                    assert(resolve_inputs(g@, n as int, k as int + 1) == Option::Some(
                        texts.deep_view(),
                    ));
                }
            },
            Option::None => {
                proof {
                    assert(resolve_input(g@, i as int) is None);
                    assert(resolve_inputs(g@, n as int, k as int + 1) is None);
                    lemma_resolve_inputs_none(
                        g@,
                        n as int,
                        k as int + 1,
                        g@.nodes[n as int].inputs.len() as int,
                    );
                    assert(eval_node(g@, n as int) is None);
                }
                return Option::None;
            },
        }
        k = k + 1;
    }
    let tmpl = &node.user_data.template;
    proof {
        assert(tmpl@ == g@.nodes[n as int].template);
    }
    let result: Option<String> = match &tmpl.template {
        Option::Some(pat) => {
            proof {
                assert(g@.nodes[n as int].template.template == Option::Some(pat@));
            }
            subst_exec(pat.as_str(), &texts)
        },
        Option::None => {
            if str_eq_str(tmpl.label.as_str(), "Variable") {
                if tmpl.outputs.len() > 0 {
                    proof {
                        assert(tmpl@.outputs[0] == tmpl.outputs@[0]@);
                    }
                    Option::Some(tmpl.outputs[0].name.clone())
                } else {
                    Option::Some(String::new())
                }
            } else {
                if texts.len() > 0 {
                    proof {
                        assert(texts.deep_view()[0] == texts@[0]@);
                    }
                    Option::Some(texts[0].clone())
                } else {
                    Option::None
                }
            }
        },
    };
    match result {
        Option::Some(s) => {
            proof {
                assert(eval_node(g@, n as int) == Option::Some(s@));
            }
            let stored = s.clone();
            let ghost pre_cache = cache@;
            cache.set(n, stored);
            proof {
                // An entry already present for this node held the same text,
                // so overwriting it changes nothing.
                assert forall|j: int|
                    0 <= j < old(cache)@.len() && (#[trigger] old(cache)@[j]) is Some implies cache@[j]
                    == old(cache)@[j] by {
                    if j == n as int {
                        match old(cache)@[j] {
                            Option::Some(t) => {
                                assert(pre_cache[j] == old(cache)@[j]);
                                assert(eval_node(g@, n as int) == Option::Some(t));
                            },
                            Option::None => {},
                        }
                    } else {
                        assert(cache@[j] == pre_cache[j]);
                    }
                }
                assert(cache_ok(cache@, g@)) by {
                    assert forall|n2: int|
                        0 <= n2 < cache@.len() implies ((#[trigger] cache@[n2]) matches Option::Some(t)
                            ==> eval_node(g@, n2) == Option::Some(t)) by {
                        if n2 != n as int {
                            assert(cache@[n2] == pre_cache[n2]);
                        }
                    }
                }
            }
            Option::Some(s)
        },
        Option::None => {
            proof {
                assert(eval_node(g@, n as int) is None);
            }
            Option::None
        },
    }
}

impl WzrdNodeGraph {
    /// Evaluates the graph into generated script text.
    ///
    /// The sink node's text is computed with the given memo cache (which must
    /// only hold texts this graph's nodes evaluate to; a fresh cache always
    /// qualifies). When a function signature was captured during import, the
    /// most recent one is popped and the body is wrapped as
    /// `def <name>(<params>) <body> end`, the parentheses omitted entirely
    /// for a parameterless function. A graph with no sink yields the
    /// sentinel text instead, and a node whose evaluation fails yields a
    /// sentinel body.
    pub fn evaluate_graph(&mut self, cache: &mut NodeCache) -> (r: String)
        requires
            old(self).graph@.wf(),
            cache_ok(old(cache)@, old(self).graph@),
        ensures
            r@ == graph_output(old(self).graph@, old(self).function_stack.deep_view()),
            old(self).graph@.nodes.len() == 0 ==> r@ == "Could not evaluate Graph"@,
            cache_ok(final(cache)@, old(self).graph@),
            old(cache)@.len() <= final(cache)@.len(),
            forall|j: int|
                0 <= j < old(cache)@.len() && (#[trigger] old(cache)@[j]) is Some ==> final(cache)@[j] == old(cache)@[j],
            final(self).graph == old(self).graph,
            final(self).node_order == old(self).node_order,
            final(self).node_positions == old(self).node_positions,
            final(self).node_rects == old(self).node_rects,
            final(self).node_templates == old(self).node_templates,
            final(self).function_stack@ == (if old(self).graph@.sink() is Some && old(
                self,
            ).function_stack@.len() > 0 {
                old(self).function_stack@.drop_last()
            } else {
                old(self).function_stack@
            }),
    {
        let ghost gv = self.graph@;
        let ghost stackv = self.function_stack.deep_view();
        match self.find_last_node() {
            Option::Some(id) => {
                cache.grow(self.graph.nodes.len());
                let code_body: String = match evaluate_node(&self.graph, cache, id) {
                    Option::Some(s) => s,
                    Option::None => String::from_str("error while calling evaluate node"),
                };
                match self.function_stack.pop() {
                    Option::Some(f) => {
                        proof {
                            assert(f@ == stackv.last());
                            assert(self.function_stack.deep_view() =~= stackv.drop_last());
                        }
                        let arguments = join_strings(&f.arguments, ", ");
                        let mut out = String::from_str("def ");
                        out.append(f.name.as_str());
                        if f.arguments.len() > 0 {
                            out.append("(");
                            out.append(arguments.as_str());
                            out.append(")");
                        }
                        out.append(" ");
                        out.append(code_body.as_str());
                        out.append(" end");
                        proof {
                            assert(out@ =~= wrap_function(code_body@, f@));
                        }
                        out
                    },
                    Option::None => {
                        proof {
                            assert(stackv.len() == 0);
                        }
                        code_body
                    },
                }
            },
            Option::None => {
                proof {
                    assert(gv.sink() is None);
                }
                String::from_str("Could not evaluate Graph")
            },
        }
    }
}

/// Diamond sharing: when one producer node feeds an input of each of two
/// consumer nodes, both inputs resolve to the producer's text, so the two
/// paths see identical text — the memo cache, which only ever holds a node's
/// own text, cannot change that.
pub proof fn lemma_diamond_sharing(g: WzrdGraphV, a: int, ka: int, b: int, kb: int, c: int)
    requires
        g.wf(),
        0 <= a < g.nodes.len(),
        0 <= ka < g.nodes[a].inputs.len(),
        0 <= b < g.nodes.len(),
        0 <= kb < g.nodes[b].inputs.len(),
        (g.connections[g.nodes[a].inputs[ka]] matches Option::Some(o) && g.outputs[o].node == c),
        (g.connections[g.nodes[b].inputs[kb]] matches Option::Some(o) && g.outputs[o].node == c),
    ensures
        resolve_input(g, g.nodes[a].inputs[ka]) == eval_node(g, c),
        resolve_input(g, g.nodes[b].inputs[kb]) == eval_node(g, c),
        resolve_input(g, g.nodes[a].inputs[ka]) == resolve_input(g, g.nodes[b].inputs[kb]),
{
}

/// Round trip: evaluating an unmodified graph again — with a fresh empty
/// cache or any other valid one — yields output identical to the prior run,
/// because [`WzrdNodeGraph::evaluate_graph`] returns exactly
/// [`graph_output`] of the graph and the captured signatures, whatever the
/// cache held.
pub proof fn lemma_round_trip(
    g: WzrdGraphV,
    stack: Seq<WzrdFunctionV>,
    r1: Seq<char>,
    r2: Seq<char>,
)
    requires
        r1 == graph_output(g, stack),
        r2 == graph_output(g, stack),
    ensures
        r1 == r2,
{
}

} // verus!
