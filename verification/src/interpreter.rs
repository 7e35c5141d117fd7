//! The tree-walking evaluator: a single recursive traversal over the tree,
//! threading a function table and a call stack of frames.
//!
//! The meaning of evaluation is pinned down by the specification function
//! [`eval`]: a mathematical interpreter over [`NodeM`] with a fuel parameter
//! that bounds call depth. `Interpreter::exec` is proved to return exactly
//! what `eval` says, and to leave the table and the stack exactly as `eval`
//! says.

use vstd::prelude::*;

use crate::parser::Node;
use crate::parser::NodeM;
use crate::parser::MathOp;
use crate::parser::node_views;
use crate::parser::lemma_node_views_len;
use crate::parser::lemma_node_views_index;
use crate::parser::lemma_node_view_variant;

verus! {

/// A runtime value: the language has plain scalars only.
#[derive(Debug, PartialEq)]
pub enum Value {
    String(String),
    Number(i32),
    Bool(bool),
}

/// The mathematical mirror of `Value`.
pub enum ValueM {
    String(Seq<char>),
    Number(int),
    Bool(bool),
}

impl View for Value {
    type V = ValueM;

    open spec fn view(&self) -> ValueM {
        match self {
            Value::String(s) => ValueM::String(s@),
            Value::Number(n) => ValueM::Number(*n as int),
            Value::Bool(b) => ValueM::Bool(*b),
        }
    }
}

impl Clone for Value {
    fn clone(&self) -> (r: Value)
        ensures
            r@ == self@,
    {
        match self {
            Value::String(s) => Value::String(s.clone()),
            Value::Number(n) => Value::Number(*n),
            Value::Bool(b) => Value::Bool(*b),
        }
    }
}

/// The evaluation error taxonomy. A name lookup that fails is split by
/// kind: `UndefinedFunction` for the function table, `UndefinedVariable`
/// for the current frame. Everything else is a structural or validation
/// failure, or the explicit resource guard `DepthLimitExceeded`.
#[derive(Clone, Copy, Debug, PartialEq, Eq, Structural)]
pub enum AsaErrorKind {
    /// A called name is not in the function table.
    UndefinedFunction,
    /// An identifier is not bound in the top-of-stack frame.
    UndefinedVariable,
    /// A call's argument count differs from the definition's parameter count.
    ArityMismatch { expected: usize, actual: usize },
    /// A math operand evaluated to something other than a `Number`.
    NonNumericOperand,
    /// Division by zero.
    DivideByZero,
    /// A math result does not fit in a signed 32-bit integer.
    NumberOverflow,
    /// A node has the wrong child count or child kind.
    InvalidStructure,
    /// A `Statement` node whose child is neither a variable definition nor
    /// a function return.
    InvalidStatement,
    /// The configured call-depth bound was reached.
    DepthLimitExceeded,
    /// A node kind that evaluation does not support reached the evaluator.
    UnsupportedNode,
}

/// The evaluator's whole mutable state: the function table (name to
/// parameter group and body) and the call stack (innermost frame last).
#[verifier::ext_equal]
pub struct StateM {
    pub funcs: Map<Seq<char>, (NodeM, NodeM)>,
    pub frames: Seq<Map<Seq<char>, ValueM>>,
}

pub open spec fn frames_pop(frames: Seq<Map<Seq<char>, ValueM>>) -> Seq<Map<Seq<char>, ValueM>> {
    if frames.len() > 0 {
        frames.drop_last()
    } else {
        frames
    }
}

pub open spec fn abs_int(a: int) -> int {
    if a < 0 {
        -a
    } else {
        a
    }
}

/// Truncating (round-toward-zero) division, as the host language's `/`
/// computes it on machine integers.
pub open spec fn trunc_div(a: int, b: int) -> int {
    if (a < 0) == (b < 0) {
        abs_int(a) / abs_int(b)
    } else {
        -(abs_int(a) / abs_int(b))
    }
}

pub open spec fn in_i32(v: int) -> bool {
    i32::MIN <= v <= i32::MAX
}

/// The result of one binary math operation on two evaluated operands.
/// Both must be numbers; the result must fit in a signed 32-bit integer;
/// division by zero is an explicit error.
pub open spec fn math_result(op: MathOp, a: ValueM, b: ValueM) -> Result<ValueM, AsaErrorKind> {
    match (a, b) {
        (ValueM::Number(x), ValueM::Number(y)) => match op {
            MathOp::Add => if in_i32(x + y) {
                Ok(ValueM::Number(x + y))
            } else {
                Err(AsaErrorKind::NumberOverflow)
            },
            MathOp::Sub => if in_i32(x - y) {
                Ok(ValueM::Number(x - y))
            } else {
                Err(AsaErrorKind::NumberOverflow)
            },
            MathOp::Mul => if in_i32(x * y) {
                Ok(ValueM::Number(x * y))
            } else {
                Err(AsaErrorKind::NumberOverflow)
            },
            MathOp::Div => if y == 0 {
                Err(AsaErrorKind::DivideByZero)
            } else if in_i32(trunc_div(x, y)) {
                Ok(ValueM::Number(trunc_div(x, y)))
            } else {
                Err(AsaErrorKind::NumberOverflow)
            },
        },
        _ => Err(AsaErrorKind::NonNumericOperand),
    }
}

/// What evaluating `n` in state `st` returns, and the state it leaves.
/// `fuel` bounds the depth of function calls: each call into a body burns
/// one unit, and a call at zero fuel reports `DepthLimitExceeded`.
pub open spec fn eval(n: NodeM, st: StateM, fuel: nat) -> (Result<ValueM, AsaErrorKind>, StateM)
    decreases fuel, n, 3nat,
{
    match n {
        // Children are evaluated in declaration order; the result is the
        // LAST child's result (earlier results, errors included, are
        // discarded, but their side effects persist).
        NodeM::Program { children } => eval_program_items(
            children,
            0,
            st,
            fuel,
            Ok(ValueM::Bool(true)),
        ),
        NodeM::Statement { children } => {
            if children.len() == 0 {
                (Err(AsaErrorKind::InvalidStructure), st)
            } else if children[0] is VariableDefine || children[0] is FunctionReturn {
                eval(children[0], st, fuel)
            } else {
                (Err(AsaErrorKind::InvalidStatement), st)
            }
        },
        NodeM::FunctionDefine { name, children } => {
            if children.len() != 2 {
                (Err(AsaErrorKind::InvalidStructure), st)
            } else if !(children[0] is FunctionArguments) {
                (Err(AsaErrorKind::InvalidStructure), st)
            } else if !(children[1] is FunctionStatements) {
                (Err(AsaErrorKind::InvalidStructure), st)
            } else {
                (
                    Ok(ValueM::Bool(true)),
                    StateM {
                        funcs: st.funcs.insert(name, (children[0], children[1])),
                        ..st
                    },
                )
            }
        },
        NodeM::Expression { children } => {
            if children.len() == 0 {
                (Err(AsaErrorKind::InvalidStructure), st)
            } else {
                eval(children[0], st, fuel)
            }
        },
        NodeM::MathExpression { op, children } => {
            if children.len() != 2 {
                (Err(AsaErrorKind::InvalidStructure), st)
            } else {
                let (r1, st1) = eval(children[0], st, fuel);
                match r1 {
                    Err(e) => (Err(e), st1),
                    Ok(a) => {
                        let (r2, st2) = eval(children[1], st1, fuel);
                        match r2 {
                            Err(e) => (Err(e), st2),
                            Ok(b) => (math_result(op, a, b), st2),
                        }
                    },
                }
            }
        },
        NodeM::FunctionCall { name, children } => eval_call(name, children, st, fuel),
        NodeM::FunctionReturn { children } => {
            if children.len() == 0 {
                (Err(AsaErrorKind::InvalidStructure), st)
            } else {
                eval(children[0], st, fuel)
            }
        },
        // Lookup inspects ONLY the top-of-stack frame: no parent-frame
        // fallback, no lexical nesting.
        NodeM::Identifier { value } => {
            if st.frames.len() == 0 {
                (Err(AsaErrorKind::UndefinedVariable), st)
            } else if st.frames.last().contains_key(value) {
                (Ok(st.frames.last()[value]), st)
            } else {
                (Err(AsaErrorKind::UndefinedVariable), st)
            }
        },
        NodeM::VariableDefine { children } => {
            if children.len() != 2 {
                (Err(AsaErrorKind::InvalidStructure), st)
            } else {
                match children[0] {
                    NodeM::Identifier { value: name } => {
                        let (r, st1) = eval(children[1], st, fuel);
                        match r {
                            Err(e) => (Err(e), st1),
                            Ok(v) => {
                                if st1.frames.len() == 0 {
                                    (Err(AsaErrorKind::InvalidStructure), st1)
                                } else {
                                    (
                                        Ok(v),
                                        StateM {
                                            frames: st1.frames.update(
                                                st1.frames.len() - 1,
                                                st1.frames.last().insert(name, v),
                                            ),
                                            ..st1
                                        },
                                    )
                                }
                            },
                        }
                    },
                    _ => (Err(AsaErrorKind::InvalidStructure), st),
                }
            }
        },
        NodeM::Number { value } => (Ok(ValueM::Number(value)), st),
        NodeM::Bool { value } => (Ok(ValueM::Bool(value)), st),
        NodeM::String { value } => (Ok(ValueM::String(value)), st),
        _ => (Err(AsaErrorKind::UnsupportedNode), st),
    }
}

/// Top-level program items, evaluated left to right. An item of an
/// unexpected kind is a fatal internal-consistency error; otherwise the
/// accumulator is overwritten with each item's result and the last one
/// stands.
pub open spec fn eval_program_items(
    items: Seq<NodeM>,
    i: int,
    st: StateM,
    fuel: nat,
    acc: Result<ValueM, AsaErrorKind>,
) -> (Result<ValueM, AsaErrorKind>, StateM)
    decreases fuel, items, (if i <= items.len() { (items.len() - i) as nat } else { 0nat }),
{
    if i < 0 || i >= items.len() {
        (acc, st)
    } else {
        let child = items[i];
        if child is FunctionDefine || child is Expression || child is VariableDefine || child
            is String || child is Number || child is Bool {
            let (r, st1) = eval(child, st, fuel);
            eval_program_items(items, i + 1, st1, fuel, r)
        } else {
            (Err(AsaErrorKind::UnsupportedNode), st)
        }
    }
}

/// A function body's statements, evaluated in order; the first error aborts
/// the body, otherwise the last statement's result stands. An empty body is
/// a structural error.
pub open spec fn eval_stmts(stmts: Seq<NodeM>, i: int, st: StateM, fuel: nat) -> (Result<
    ValueM,
    AsaErrorKind,
>, StateM)
    decreases fuel, stmts, (if i <= stmts.len() { (stmts.len() - i) as nat } else { 0nat }),
{
    if i < 0 || i >= stmts.len() {
        (Err(AsaErrorKind::InvalidStructure), st)
    } else {
        let (r, st1) = eval(stmts[i], st, fuel);
        if r is Err || i == stmts.len() - 1 {
            (r, st1)
        } else {
            eval_stmts(stmts, i + 1, st1, fuel)
        }
    }
}

/// A function call: resolve the name, check the shape of the stored
/// parameter group and of the call's argument group, then bind and run.
pub open spec fn eval_call(name: Seq<char>, children: Seq<NodeM>, st: StateM, fuel: nat) -> (Result<
    ValueM,
    AsaErrorKind,
>, StateM)
    decreases fuel, children, 2nat,
{
    if fuel == 0 {
        (Err(AsaErrorKind::DepthLimitExceeded), st)
    } else if !st.funcs.contains_key(name) {
        (Err(AsaErrorKind::UndefinedFunction), st)
    } else {
        let (params_node, body) = st.funcs[name];
        match params_node {
            NodeM::FunctionArguments { children: params } => {
                if children.len() == 0 {
                    eval_call_with(params, children, body, st, fuel)
                } else if children.len() == 1 {
                    match children[0] {
                        NodeM::FunctionArguments { children: args } => eval_call_with(
                            params,
                            args,
                            body,
                            st,
                            fuel,
                        ),
                        _ => (Err(AsaErrorKind::InvalidStructure), st),
                    }
                } else {
                    (Err(AsaErrorKind::InvalidStructure), st)
                }
            },
            _ => (Err(AsaErrorKind::InvalidStructure), st),
        }
    }
}

/// Arity check, argument binding in the caller's state, then the body in a
/// fresh frame, which is popped again whatever the outcome.
pub open spec fn eval_call_with(
    params: Seq<NodeM>,
    args: Seq<NodeM>,
    body: NodeM,
    st: StateM,
    fuel: nat,
) -> (Result<ValueM, AsaErrorKind>, StateM)
    decreases fuel, args, (args.len() + 1) as nat,
{
    if fuel == 0 {
        (Err(AsaErrorKind::DepthLimitExceeded), st)
    } else if params.len() != args.len() {
        (
            Err(
                AsaErrorKind::ArityMismatch {
                    expected: params.len() as usize,
                    actual: args.len() as usize,
                },
            ),
            st,
        )
    } else {
        let (bound, st1) = eval_bind_args(params, args, 0, st, fuel, Map::empty());
        match bound {
            Err(e) => (Err(e), st1),
            Ok(frame) => {
                let st2 = StateM { frames: st1.frames.push(frame), ..st1 };
                let (r, st3) = eval_body(body, st2, (fuel - 1) as nat);
                (r, StateM { frames: frames_pop(st3.frames), ..st3 })
            },
        }
    }
}

/// Each parameter must be an identifier; each argument expression is
/// evaluated in the CALLER's current frame, before the new frame is pushed,
/// and binds by position.
pub open spec fn eval_bind_args(
    params: Seq<NodeM>,
    args: Seq<NodeM>,
    i: int,
    st: StateM,
    fuel: nat,
    frame: Map<Seq<char>, ValueM>,
) -> (Result<Map<Seq<char>, ValueM>, AsaErrorKind>, StateM)
    decreases fuel, args, (if i <= args.len() { (args.len() - i) as nat } else { 0nat }),
{
    if i < 0 || i >= args.len() || params.len() != args.len() {
        (Ok(frame), st)
    } else {
        match params[i] {
            NodeM::Identifier { value: pname } => {
                let (r, st1) = eval(args[i], st, fuel);
                match r {
                    Err(e) => (Err(e), st1),
                    Ok(v) => eval_bind_args(params, args, i + 1, st1, fuel, frame.insert(pname, v)),
                }
            },
            _ => (Err(AsaErrorKind::InvalidStructure), st),
        }
    }
}

/// A registered body must be a `FunctionStatements` node; anything else is
/// the generic unsupported-node error, as for any stray node kind.
pub open spec fn eval_body(body: NodeM, st: StateM, fuel: nat) -> (Result<ValueM, AsaErrorKind>, StateM)
    decreases fuel, body, 4nat,
{
    match body {
        NodeM::FunctionStatements { children } => eval_stmts(children, 0, st, fuel),
        _ => (Err(AsaErrorKind::UnsupportedNode), st),
    }
}

} // verus!

verus! {

/// One call-stack frame: a mapping from variable name to value, stored as
/// an insertion log. Later entries shadow earlier ones, which models the
/// overwrite-on-insert of a mapping.
pub struct Frame {
    entries: Vec<(String, Value)>,
}

pub open spec fn frame_map(s: Seq<(String, Value)>) -> Map<Seq<char>, ValueM>
    decreases s.len(),
{
    if s.len() == 0 {
        Map::empty()
    } else {
        frame_map(s.drop_last()).insert(s.last().0@, s.last().1@)
    }
}

impl View for Frame {
    type V = Map<Seq<char>, ValueM>;

    closed spec fn view(&self) -> Map<Seq<char>, ValueM> {
        frame_map(self.entries@)
    }
}

proof fn lemma_frame_map_prefix(s: Seq<(String, Value)>, k: Seq<char>, j: int)
    requires
        0 <= j <= s.len(),
        forall|m: int| j <= m < s.len() ==> (#[trigger] s[m]).0@ != k,
    ensures
        frame_map(s).contains_key(k) == frame_map(s.take(j)).contains_key(k),
        frame_map(s).contains_key(k) ==> frame_map(s)[k] == frame_map(s.take(j))[k],
    decreases s.len() - j,
{
    if j == s.len() {
        assert(s.take(j) =~= s);
    } else {
        lemma_frame_map_prefix(s, k, j + 1);
        assert(s.take(j + 1).drop_last() =~= s.take(j));
        assert(s.take(j + 1).last() == s[j]);
    }
}

impl Frame {
    /// A fresh, empty frame.
    pub fn new() -> (r: Frame)
        ensures
            r@ == Map::<Seq<char>, ValueM>::empty(),
    {
        Frame { entries: Vec::new() }
    }

    /// The value bound to `name`, if any: the most recent insertion wins.
    pub fn get(&self, name: &String) -> (r: Option<&Value>)
        ensures
            r is Some <==> self@.contains_key(name@),
            r matches Some(v) ==> v@ == self@[name@],
    {
        let n = self.entries.len();
        let mut j: usize = n;
        while j > 0
            invariant
                0 <= j <= self.entries@.len(),
                forall|m: int| j <= m < self.entries@.len() ==> (#[trigger] self.entries@[m]).0@
                    != name@,
            decreases j,
        {
            j = j - 1;
            if self.entries[j].0.eq(name) {
                proof {
                    lemma_frame_map_prefix(self.entries@, name@, j + 1);
                    assert(self.entries@.take(j + 1).last() == self.entries@[j as int]);
                    assert(self.entries@.take(j + 1).drop_last() =~= self.entries@.take(j as int));
                }
                return Some(&self.entries[j].1);
            }
        }
        proof {
            lemma_frame_map_prefix(self.entries@, name@, 0);
            assert(self.entries@.take(0) =~= Seq::<(String, Value)>::empty());
        }
        None
    }

    /// Bind `name` to `value`, shadowing any earlier binding.
    pub fn insert(&mut self, name: String, value: Value)
        ensures
            final(self)@ == old(self)@.insert(name@, value@),
    {
        let ghost olds = self.entries@;
        self.entries.push((name, value));
        proof {
            assert(self.entries@.drop_last() =~= olds);
        }
    }
}

/// The function table, stored as an insertion log like a frame:
/// a redefinition silently overwrites the earlier entry.
pub open spec fn table_map(s: Seq<(String, (Node, Node))>) -> Map<Seq<char>, (NodeM, NodeM)>
    decreases s.len(),
{
    if s.len() == 0 {
        Map::empty()
    } else {
        table_map(s.drop_last()).insert(s.last().0@, (s.last().1.0@, s.last().1.1@))
    }
}

proof fn lemma_table_map_prefix(s: Seq<(String, (Node, Node))>, k: Seq<char>, j: int)
    requires
        0 <= j <= s.len(),
        forall|m: int| j <= m < s.len() ==> (#[trigger] s[m]).0@ != k,
    ensures
        table_map(s).contains_key(k) == table_map(s.take(j)).contains_key(k),
        table_map(s).contains_key(k) ==> table_map(s)[k] == table_map(s.take(j))[k],
    decreases s.len() - j,
{
    if j == s.len() {
        assert(s.take(j) =~= s);
    } else {
        lemma_table_map_prefix(s, k, j + 1);
        assert(s.take(j + 1).drop_last() =~= s.take(j));
        assert(s.take(j + 1).last() == s[j]);
    }
}

/// The table entry under `name`, if any: the most recent insertion wins.
fn table_get<'a>(entries: &'a Vec<(String, (Node, Node))>, name: &String) -> (r: Option<
    &'a (Node, Node),
>)
    ensures
        r is Some <==> table_map(entries@).contains_key(name@),
        r matches Some(p) ==> (p.0@, p.1@) == table_map(entries@)[name@],
{
    let n = entries.len();
    let mut j: usize = n;
    while j > 0
        invariant
            0 <= j <= entries@.len(),
            forall|m: int| j <= m < entries@.len() ==> (#[trigger] entries@[m]).0@ != name@,
        decreases j,
    {
        j = j - 1;
        if entries[j].0.eq(name) {
            proof {
                lemma_table_map_prefix(entries@, name@, j + 1);
                assert(entries@.take(j + 1).last() == entries@[j as int]);
                assert(entries@.take(j + 1).drop_last() =~= entries@.take(j as int));
            }
            return Some(&entries[j].1);
        }
    }
    proof {
        lemma_table_map_prefix(entries@, name@, 0);
        assert(entries@.take(0) =~= Seq::<(String, (Node, Node))>::empty());
    }
    None
}

/// A deep copy of a node vector, preserving the view of every element.
fn clone_nodes(v: &Vec<Node>) -> (r: Vec<Node>)
    ensures
        node_views(r@) == node_views(v@),
        r@.len() == v@.len(),
    decreases v@, 0nat,
{
    broadcast use lemma_node_views_len, lemma_node_views_index, lemma_node_view_variant;

    let mut out: Vec<Node> = Vec::new();
    let mut j: usize = 0;
    while j < v.len()
        invariant
            0 <= j <= v@.len(),
            out@.len() == j,
            forall|m: int| 0 <= m < j ==> (#[trigger] out@[m])@ == v@[m]@,
        decreases v@.len() - j,
    {
        proof {
            assert(decreases_to!(v@ => v@[j as int]));
        }
        let c = v[j].clone();
        out.push(c);
        j = j + 1;
    }
    proof {
        assert(node_views(out@) =~= node_views(v@)) by {
            lemma_node_views_congruent(out@, v@);
        }
    }
    out
}

proof fn lemma_node_views_congruent(a: Seq<Node>, b: Seq<Node>)
    requires
        a.len() == b.len(),
        forall|m: int| 0 <= m < a.len() ==> (#[trigger] a[m])@ == b[m]@,
    ensures
        node_views(a) == node_views(b),
    decreases a,
{
    if a.len() > 0 {
        lemma_node_views_congruent(a.drop_last(), b.drop_last());
        assert(node_views(a) =~= node_views(b));
    } else {
        assert(node_views(a) =~= node_views(b));
    }
}

impl Clone for Node {
    /// A deep copy whose view is the original's view.
    fn clone(&self) -> (r: Node)
        ensures
            r@ == self@,
        decreases self, 1nat,
    {
        match self {
            Node::Program { children } => Node::Program { children: clone_nodes(children) },
            Node::Statement { children } => Node::Statement { children: clone_nodes(children) },
            Node::FunctionDefine { name, children } => Node::FunctionDefine {
                name: name.clone(),
                children: clone_nodes(children),
            },
            Node::FunctionArguments { children } => Node::FunctionArguments {
                children: clone_nodes(children),
            },
            Node::FunctionStatements { children } => Node::FunctionStatements {
                children: clone_nodes(children),
            },
            Node::Expression { children } => Node::Expression { children: clone_nodes(children) },
            Node::MathExpression { op, children } => Node::MathExpression {
                op: *op,
                children: clone_nodes(children),
            },
            Node::FunctionCall { name, children } => Node::FunctionCall {
                name: name.clone(),
                children: clone_nodes(children),
            },
            Node::VariableDefine { children } => Node::VariableDefine {
                children: clone_nodes(children),
            },
            Node::FunctionReturn { children } => Node::FunctionReturn {
                children: clone_nodes(children),
            },
            Node::Number { value } => Node::Number { value: *value },
            Node::Bool { value } => Node::Bool { value: *value },
            Node::Identifier { value } => Node::Identifier { value: value.clone() },
            Node::String { value } => Node::String { value: value.clone() },
            Node::Comment { value } => Node::Comment { value: value.clone() },
            Node::Null => Node::Null,
        }
    }
}

} // verus!

verus! {

/// The view of an evaluation outcome, for contracts.
pub open spec fn res_view(r: Result<Value, AsaErrorKind>) -> Result<ValueM, AsaErrorKind> {
    match r {
        Ok(v) => Ok(v@),
        Err(e) => Err(e),
    }
}

/// One binary math operation on two runtime values, exactly as
/// [`math_result`] states it.
fn math_exec(op: MathOp, a: &Value, b: &Value) -> (r: Result<Value, AsaErrorKind>)
    ensures
        res_view(r) == math_result(op, a@, b@),
{
    let x: i32;
    let y: i32;
    match a {
        Value::Number(n) => {
            x = *n;
        },
        _ => {
            return Err(AsaErrorKind::NonNumericOperand);
        },
    }
    match b {
        Value::Number(n) => {
            y = *n;
        },
        _ => {
            return Err(AsaErrorKind::NonNumericOperand);
        },
    }
    match op {
        MathOp::Add => {
            let s: i64 = x as i64 + y as i64;
            if s >= i32::MIN as i64 && s <= i32::MAX as i64 {
                Ok(Value::Number(s as i32))
            } else {
                Err(AsaErrorKind::NumberOverflow)
            }
        },
        MathOp::Sub => {
            let s: i64 = x as i64 - y as i64;
            if s >= i32::MIN as i64 && s <= i32::MAX as i64 {
                Ok(Value::Number(s as i32))
            } else {
                Err(AsaErrorKind::NumberOverflow)
            }
        },
        MathOp::Mul => {
            proof {
                assert(-0x4000000000000000 <= (x as int) * (y as int) <= 0x4000000000000000)
                    by (nonlinear_arith)
                    requires
                        -0x80000000 <= x as int <= 0x7fffffff,
                        -0x80000000 <= y as int <= 0x7fffffff,
                ;
            }
            let s: i64 = (x as i64) * (y as i64);
            if s >= i32::MIN as i64 && s <= i32::MAX as i64 {
                Ok(Value::Number(s as i32))
            } else {
                Err(AsaErrorKind::NumberOverflow)
            }
        },
        MathOp::Div => {
            if y == 0 {
                return Err(AsaErrorKind::DivideByZero);
            }
            if x == i32::MIN && y == -1 {
                proof {
                    assert(abs_int(x as int) == 0x80000000int);
                    assert(abs_int(y as int) == 1int);
                    assert(0x80000000int / 1int == 0x80000000int) by (nonlinear_arith);
                }
                return Err(AsaErrorKind::NumberOverflow);
            }
            let ua: u32 = if x < 0 {
                (-(x as i64)) as u32
            } else {
                x as u32
            };
            let ub: u32 = if y < 0 {
                (-(y as i64)) as u32
            } else {
                y as u32
            };
            let q: u32 = ua / ub;
            proof {
                assert(q <= ua) by (nonlinear_arith)
                    requires
                        q == ua as int / ub as int,
                        ub >= 1,
                        ua >= 0,
                ;
            }
            if (x < 0) == (y < 0) {
                proof {
                    if x < 0 {
                        if y == -1 {
                            assert(ua <= 0x7fffffff);
                        } else {
                            assert(ub >= 2);
                            assert(q < 0x80000000) by (nonlinear_arith)
                                requires
                                    q == ua as int / ub as int,
                                    ub >= 2,
                                    0 <= ua <= 0x80000000,
                            ;
                        }
                    }
                }
                Ok(Value::Number(q as i32))
            } else {
                Ok(Value::Number((-(q as i64)) as i32))
            }
        },
    }
}

/// The default bound on function-call depth: deep enough for ordinary
/// programs, and it turns runaway recursion into `DepthLimitExceeded`
/// instead of exhausting the host stack.
pub const DEFAULT_DEPTH_LIMIT: usize = 64;

/// One evaluator instance: its function table and call stack, owned
/// exclusively, so independent interpreters never share state. One global
/// frame exists from construction on.
pub struct Interpreter {
    functions: Vec<(String, (Node, Node))>,
    stack: Vec<Frame>,
    depth_limit: usize,
}

impl Interpreter {
    /// The mathematical state this interpreter is in.
    pub closed spec fn state(&self) -> StateM {
        StateM {
            funcs: table_map(self.functions@),
            frames: self.stack@.map_values(|f: Frame| f@),
        }
    }

    /// The configured call-depth bound.
    pub closed spec fn depth(&self) -> nat {
        self.depth_limit as nat
    }

    /// A fresh interpreter: empty function table, one empty global frame,
    /// the default depth bound.
    pub fn new() -> (r: Interpreter)
        ensures
            r.state() == (StateM {
                funcs: Map::<Seq<char>, (NodeM, NodeM)>::empty(),
                frames: seq![Map::<Seq<char>, ValueM>::empty()],
            }),
            r.depth() == DEFAULT_DEPTH_LIMIT,
    {
        Interpreter::with_depth_limit(DEFAULT_DEPTH_LIMIT)
    }

    /// A fresh interpreter with a caller-chosen call-depth bound.
    pub fn with_depth_limit(limit: usize) -> (r: Interpreter)
        ensures
            r.state() == (StateM {
                funcs: Map::<Seq<char>, (NodeM, NodeM)>::empty(),
                frames: seq![Map::<Seq<char>, ValueM>::empty()],
            }),
            r.depth() == limit,
    {
        let mut stack: Vec<Frame> = Vec::new();
        stack.push(Frame::new());
        let r = Interpreter { functions: Vec::new(), stack, depth_limit: limit };
        proof {
            assert(r.state().frames =~= seq![Map::<Seq<char>, ValueM>::empty()]);
            assert(r.state() =~~= (StateM {
                funcs: Map::<Seq<char>, (NodeM, NodeM)>::empty(),
                frames: seq![Map::<Seq<char>, ValueM>::empty()],
            }));
        }
        r
    }

    /// Evaluate one node: returns what [`eval`] says and leaves the state
    /// [`eval`] says, at this interpreter's depth bound.
    pub fn exec(&mut self, node: &Node) -> (r: Result<Value, AsaErrorKind>)
        ensures
            ({
                let (r2, st2) = eval(node@, old(self).state(), old(self).depth());
                &&& res_view(r) == r2
                &&& final(self).state() == st2
                &&& final(self).depth() == old(self).depth()
            }),
    {
        let d = self.depth_limit;
        self.exec_node(node, d)
    }

    /// Call `main` with the given argument nodes: evaluates a synthesized
    /// zero-or-more-argument `FunctionCall` to the name `main`.
    pub fn start_main(&mut self, arguments: Vec<Node>) -> (r: Result<Value, AsaErrorKind>)
        ensures
            ({
                let call = NodeM::FunctionCall { name: "main"@, children: node_views(arguments@) };
                let (r2, st2) = eval(call, old(self).state(), old(self).depth());
                &&& res_view(r) == r2
                &&& final(self).state() == st2
                &&& final(self).depth() == old(self).depth()
            }),
    {
        let name = String::from_str("main");
        let call = Node::FunctionCall { name, children: arguments };
        let d = self.depth_limit;
        self.exec_node(&call, d)
    }

    #[verifier::loop_isolation(false)]
    fn exec_node(&mut self, node: &Node, fuel: usize) -> (r: Result<Value, AsaErrorKind>)
        ensures
            ({
                let (r2, st2) = eval(node@, old(self).state(), fuel as nat);
                &&& res_view(r) == r2
                &&& final(self).state() == st2
                &&& final(self).depth() == old(self).depth()
            }),
        decreases fuel, node, 3nat,
    {
        broadcast use lemma_node_views_len, lemma_node_views_index, lemma_node_view_variant;

        match node {
            Node::Program { children } => {
                proof {
                    assert(decreases_to!(*node => node->Program_children));
                    assert(decreases_to!(node->Program_children => node->Program_children@));
                }
                self.exec_program_items(children, fuel)
            },
            Node::Statement { children } => {
                proof {
                    lemma_node_views_len(children@);
                    if children@.len() > 0 {
                        lemma_node_views_index(children@, 0);
                        lemma_node_view_variant(children@[0]);
                    }
                }
                if children.len() == 0 {
                    Err(AsaErrorKind::InvalidStructure)
                } else {
                    match &children[0] {
                        Node::VariableDefine { .. } | Node::FunctionReturn { .. } => {
                            proof {
                                assert(decreases_to!(*node => node->Statement_children));
                                assert(decreases_to!(node->Statement_children
                                    => node->Statement_children@));
                                assert(decreases_to!(node->Statement_children@
                                    => node->Statement_children@[0]));
                            }
                            self.exec_node(&children[0], fuel)
                        },
                        _ => Err(AsaErrorKind::InvalidStatement),
                    }
                }
            },
            Node::FunctionDefine { name, children } => {
                if children.len() != 2 {
                    return Err(AsaErrorKind::InvalidStructure);
                }
                let args_ok = match &children[0] {
                    Node::FunctionArguments { .. } => true,
                    _ => false,
                };
                if !args_ok {
                    return Err(AsaErrorKind::InvalidStructure);
                }
                let stmts_ok = match &children[1] {
                    Node::FunctionStatements { .. } => true,
                    _ => false,
                };
                if !stmts_ok {
                    return Err(AsaErrorKind::InvalidStructure);
                }
                proof {
                    assert(decreases_to!(*node => node->FunctionDefine_children));
                    assert(decreases_to!(node->FunctionDefine_children
                        => node->FunctionDefine_children@));
                    assert(decreases_to!(node->FunctionDefine_children@
                        => node->FunctionDefine_children@[0]));
                    assert(decreases_to!(node->FunctionDefine_children@
                        => node->FunctionDefine_children@[1]));
                }
                let fn_args = children[0].clone();
                let fn_stmts = children[1].clone();
                let ghost old_entries = self.functions@;
                self.functions.push((name.clone(), (fn_args, fn_stmts)));
                proof {
                    assert(self.functions@.drop_last() =~= old_entries);
                    assert(self.state().frames =~= old(self).state().frames);
                    assert(self.state() =~~= (StateM {
                        funcs: old(self).state().funcs.insert(
                            name@,
                            (node_views(children@)[0], node_views(children@)[1]),
                        ),
                        ..old(self).state()
                    }));
                }
                Ok(Value::Bool(true))
            },
            Node::Expression { children } => {
                if children.len() == 0 {
                    Err(AsaErrorKind::InvalidStructure)
                } else {
                    proof {
                        assert(decreases_to!(*node => node->Expression_children));
                        assert(decreases_to!(node->Expression_children
                            => node->Expression_children@));
                        assert(decreases_to!(node->Expression_children@
                            => node->Expression_children@[0]));
                        lemma_node_views_len(children@);
                        lemma_node_views_index(children@, 0);
                    }
                    self.exec_node(&children[0], fuel)
                }
            },
            Node::MathExpression { op, children } => {
                if children.len() != 2 {
                    proof {
                        lemma_node_views_len(children@);
                        assert(node@ == NodeM::MathExpression {
                            op: *op,
                            children: node_views(children@),
                        });
                        assert(node_views(children@).len() != 2);
                        assert(eval(node@, old(self).state(), fuel as nat) == (Err::<
                            ValueM,
                            AsaErrorKind,
                        >(AsaErrorKind::InvalidStructure), old(self).state()));
                    }
                    return Err(AsaErrorKind::InvalidStructure);
                }
                proof {
                    assert(decreases_to!(*node => node->MathExpression_children));
                    assert(decreases_to!(node->MathExpression_children
                        => node->MathExpression_children@));
                    assert(decreases_to!(node->MathExpression_children@
                        => node->MathExpression_children@[0]));
                    assert(decreases_to!(node->MathExpression_children@
                        => node->MathExpression_children@[1]));
                }
                let a = match self.exec_node(&children[0], fuel) {
                    Ok(v) => v,
                    Err(e) => {
                        return Err(e);
                    },
                };
                let b = match self.exec_node(&children[1], fuel) {
                    Ok(v) => v,
                    Err(e) => {
                        return Err(e);
                    },
                };
                math_exec(*op, &a, &b)
            },
            Node::FunctionCall { name, children } => {
                proof {
                    assert(decreases_to!(*node => node->FunctionCall_children));
                    assert(decreases_to!(node->FunctionCall_children
                        => node->FunctionCall_children@));
                }
                self.exec_call(name, children, fuel)
            },
            Node::FunctionReturn { children } => {
                if children.len() == 0 {
                    Err(AsaErrorKind::InvalidStructure)
                } else {
                    proof {
                        assert(decreases_to!(*node => node->FunctionReturn_children));
                        assert(decreases_to!(node->FunctionReturn_children
                            => node->FunctionReturn_children@));
                        assert(decreases_to!(node->FunctionReturn_children@
                            => node->FunctionReturn_children@[0]));
                        lemma_node_views_len(children@);
                        lemma_node_views_index(children@, 0);
                    }
                    self.exec_node(&children[0], fuel)
                }
            },
            Node::Identifier { value } => {
                proof {
                    assert(node@ == NodeM::Identifier { value: value@ });
                    assert(self.state().frames.len() == self.stack@.len());
                }
                if self.stack.len() == 0 {
                    return Err(AsaErrorKind::UndefinedVariable);
                }
                let top = self.stack.len() - 1;
                proof {
                    assert(self.state().frames.last() == self.stack@[top as int]@);
                }
                match self.stack[top].get(value) {
                    Some(v) => Ok(v.clone()),
                    None => Err(AsaErrorKind::UndefinedVariable),
                }
            },
            Node::VariableDefine { children } => {
                proof {
                    lemma_node_views_len(children@);
                    assert(node@ == NodeM::VariableDefine { children: node_views(children@) });
                    if children@.len() > 0 {
                        lemma_node_views_index(children@, 0);
                        lemma_node_view_variant(children@[0]);
                    }
                    if children@.len() > 1 {
                        lemma_node_views_index(children@, 1);
                    }
                }
                if children.len() != 2 {
                    return Err(AsaErrorKind::InvalidStructure);
                }
                let is_ident = match &children[0] {
                    Node::Identifier { .. } => true,
                    _ => false,
                };
                if !is_ident {
                    return Err(AsaErrorKind::InvalidStructure);
                }
                proof {
                    assert(decreases_to!(*node => node->VariableDefine_children));
                    assert(decreases_to!(node->VariableDefine_children
                        => node->VariableDefine_children@));
                    assert(decreases_to!(node->VariableDefine_children@
                        => node->VariableDefine_children@[1]));
                }
                let v = match self.exec_node(&children[1], fuel) {
                    Ok(v) => v,
                    Err(e) => {
                        return Err(e);
                    },
                };
                if self.stack.len() == 0 {
                    return Err(AsaErrorKind::InvalidStructure);
                }
                let name = match &children[0] {
                    Node::Identifier { value } => value.clone(),
                    _ => unreached(),
                };
                let ghost st1 = self.state();
                let ghost frames_before = self.state().frames;
                let mut top = match self.stack.pop() {
                    Some(f) => f,
                    None => unreached(),
                };
                top.insert(name, v.clone());
                self.stack.push(top);
                proof {
                    assert(frames_before.last() == frames_before[frames_before.len() - 1]);
                    assert(self.state().frames =~= frames_before.update(
                        frames_before.len() - 1,
                        frames_before.last().insert(children@[0]@->Identifier_value, v@),
                    ));
                    assert(self.state() =~~= (StateM {
                        frames: st1.frames.update(
                            st1.frames.len() - 1,
                            st1.frames.last().insert(children@[0]@->Identifier_value, v@),
                        ),
                        ..st1
                    }));
                }
                Ok(v)
            },
            Node::Number { value } => {
                Ok(Value::Number(*value))
            },
            Node::Bool { value } => {
                Ok(Value::Bool(*value))
            },
            Node::String { value } => {
                Ok(Value::String(value.clone()))
            },
            _ => Err(AsaErrorKind::UnsupportedNode),
        }
    }

    #[verifier::loop_isolation(false)]
    fn exec_program_items(&mut self, items: &Vec<Node>, fuel: usize) -> (r: Result<
        Value,
        AsaErrorKind,
    >)
        ensures
            ({
                let (r2, st2) = eval_program_items(
                    node_views(items@),
                    0,
                    old(self).state(),
                    fuel as nat,
                    Ok(ValueM::Bool(true)),
                );
                &&& res_view(r) == r2
                &&& final(self).state() == st2
                &&& final(self).depth() == old(self).depth()
            }),
        decreases fuel, items@, 0nat,
    {
        broadcast use lemma_node_views_len, lemma_node_views_index, lemma_node_view_variant;

        let ghost items_m = node_views(items@);
        let ghost st0 = self.state();
        let mut acc: Result<Value, AsaErrorKind> = Ok(Value::Bool(true));
        let mut i: usize = 0;
        while i < items.len()
            invariant
                0 <= i <= items@.len(),
                eval_program_items(items_m, i as int, self.state(), fuel as nat, res_view(acc))
                    == eval_program_items(items_m, 0, st0, fuel as nat, Ok(ValueM::Bool(true))),
                self.depth() == old(self).depth(),
            decreases items@.len() - i,
        {
            proof {
                lemma_node_views_len(items@);
                lemma_node_views_index(items@, i as int);
                lemma_node_view_variant(items@[i as int]);
            }
            let allowed = match &items[i] {
                Node::FunctionDefine { .. } | Node::Expression { .. } | Node::VariableDefine {
                    ..
                } | Node::String { .. } | Node::Number { .. } | Node::Bool { .. } => true,
                _ => false,
            };
            if !allowed {
                proof {
                    assert(eval_program_items(items_m, i as int, self.state(), fuel as nat,
                        res_view(acc)) == (Err::<ValueM, AsaErrorKind>(
                        AsaErrorKind::UnsupportedNode,
                    ), self.state()));
                }
                return Err(AsaErrorKind::UnsupportedNode);
            }
            proof {
                assert(decreases_to!(items@ => items@[i as int]));
            }
            let ghost st_pre = self.state();
            let ghost acc_pre = res_view(acc);
            acc = self.exec_node(&items[i], fuel);
            proof {
                assert(eval_program_items(items_m, i as int, st_pre, fuel as nat, acc_pre)
                    == eval_program_items(items_m, i as int + 1, self.state(), fuel as nat,
                    res_view(acc)));
            }
            i = i + 1;
        }
        acc
    }

    #[verifier::loop_isolation(false)]
    fn exec_call(&mut self, name: &String, children: &Vec<Node>, fuel: usize) -> (r: Result<
        Value,
        AsaErrorKind,
    >)
        ensures
            ({
                let (r2, st2) = eval_call(
                    name@,
                    node_views(children@),
                    old(self).state(),
                    fuel as nat,
                );
                &&& res_view(r) == r2
                &&& final(self).state() == st2
                &&& final(self).depth() == old(self).depth()
            }),
        decreases fuel, children@, 2nat,
    {
        broadcast use lemma_node_views_len, lemma_node_views_index, lemma_node_view_variant;

        if fuel == 0 {
            return Err(AsaErrorKind::DepthLimitExceeded);
        }
        let pair = match table_get(&self.functions, name) {
            Some(p) => p,
            None => {
                return Err(AsaErrorKind::UndefinedFunction);
            },
        };
        let params_node = pair.0.clone();
        let body = pair.1.clone();
        let params = match params_node {
            Node::FunctionArguments { children } => children,
            _ => {
                return Err(AsaErrorKind::InvalidStructure);
            },
        };
        if children.len() == 0 {
            let empty_args: Vec<Node> = Vec::new();
            proof {
                assert(children@ =~= empty_args@);
            }
            self.exec_call_with(&params, &empty_args, body, fuel)
        } else if children.len() == 1 {
            match &children[0] {
                Node::FunctionArguments { children: args } => {
                    proof {
                        assert(decreases_to!(children@ => children@[0]));
                        assert(decreases_to!(children@[0]
                            => children@[0]->FunctionArguments_children));
                        assert(decreases_to!(children@[0]->FunctionArguments_children
                            => children@[0]->FunctionArguments_children@));
                    }
                    self.exec_call_with(&params, args, body, fuel)
                },
                _ => Err(AsaErrorKind::InvalidStructure),
            }
        } else {
            Err(AsaErrorKind::InvalidStructure)
        }
    }

    #[verifier::loop_isolation(false)]
    fn exec_call_with(
        &mut self,
        params: &Vec<Node>,
        args: &Vec<Node>,
        body: Node,
        fuel: usize,
    ) -> (r: Result<Value, AsaErrorKind>)
        ensures
            ({
                let (r2, st2) = eval_call_with(
                    node_views(params@),
                    node_views(args@),
                    body@,
                    old(self).state(),
                    fuel as nat,
                );
                &&& res_view(r) == r2
                &&& final(self).state() == st2
                &&& final(self).depth() == old(self).depth()
            }),
        decreases fuel, args@, args@.len() + 1,
    {
        broadcast use lemma_node_views_len, lemma_node_views_index, lemma_node_view_variant;

        let ghost params_m = node_views(params@);
        let ghost args_m = node_views(args@);
        if fuel == 0 {
            return Err(AsaErrorKind::DepthLimitExceeded);
        }
        if params.len() != args.len() {
            return Err(
                AsaErrorKind::ArityMismatch { expected: params.len(), actual: args.len() },
            );
        }
        let ghost st0 = self.state();
        let mut new_frame = Frame::new();
        let mut i: usize = 0;
        while i < args.len()
            invariant
                0 <= i <= args@.len(),
                params@.len() == args@.len(),
                eval_bind_args(params_m, args_m, i as int, self.state(), fuel as nat, new_frame@)
                    == eval_bind_args(params_m, args_m, 0, st0, fuel as nat, Map::empty()),
                self.depth() == old(self).depth(),
                fuel >= 1,
            decreases args@.len() - i,
        {
            proof {
                lemma_node_views_len(params@);
                lemma_node_views_len(args@);
                lemma_node_views_index(params@, i as int);
                lemma_node_views_index(args@, i as int);
                lemma_node_view_variant(params@[i as int]);
            }
            let ghost st_pre = self.state();
            let ghost frame_pre = new_frame@;
            let pname = match &params[i] {
                Node::Identifier { value } => value,
                _ => {
                    proof {
                        assert(eval_bind_args(params_m, args_m, i as int, st_pre, fuel as nat,
                            frame_pre) == (Err::<Map<Seq<char>, ValueM>, AsaErrorKind>(
                            AsaErrorKind::InvalidStructure,
                        ), st_pre));
                    }
                    return Err(AsaErrorKind::InvalidStructure);
                },
            };
            proof {
                assert(decreases_to!(args@ => args@[i as int]));
            }
            let v = match self.exec_node(&args[i], fuel) {
                Ok(v) => v,
                Err(e) => {
                    proof {
                        assert(eval_bind_args(params_m, args_m, i as int, st_pre, fuel as nat,
                            frame_pre) == (Err::<Map<Seq<char>, ValueM>, AsaErrorKind>(e),
                        self.state()));
                    }
                    return Err(e);
                },
            };
            new_frame.insert(pname.clone(), v);
            proof {
                assert(eval_bind_args(params_m, args_m, i as int, st_pre, fuel as nat, frame_pre)
                    == eval_bind_args(params_m, args_m, i as int + 1, self.state(), fuel as nat,
                    new_frame@));
            }
            i = i + 1;
        }
        let ghost st1 = self.state();
        let ghost frame_m = new_frame@;
        self.stack.push(new_frame);
        proof {
            assert(self.state().frames =~= st1.frames.push(frame_m));
            assert(self.state() =~~= (StateM { frames: st1.frames.push(frame_m), ..st1 }));
        }
        let r = self.exec_body(&body, fuel - 1);
        let ghost st3 = self.state();
        if self.stack.len() > 0 {
            self.stack.pop();
        }
        proof {
            if st3.frames.len() > 0 {
                assert(self.state().frames =~= st3.frames.drop_last());
            } else {
                assert(self.state().frames =~= st3.frames);
            }
            assert(self.state() =~~= (StateM { frames: frames_pop(st3.frames), ..st3 }));
        }
        r
    }

    #[verifier::loop_isolation(false)]
    fn exec_body(&mut self, body: &Node, fuel: usize) -> (r: Result<Value, AsaErrorKind>)
        ensures
            ({
                let (r2, st2) = eval_body(body@, old(self).state(), fuel as nat);
                &&& res_view(r) == r2
                &&& final(self).state() == st2
                &&& final(self).depth() == old(self).depth()
            }),
        decreases fuel, body, 4nat,
    {
        match body {
            Node::FunctionStatements { children } => {
                proof {
                    assert(decreases_to!(*body => body->FunctionStatements_children));
                    assert(decreases_to!(body->FunctionStatements_children
                        => body->FunctionStatements_children@));
                }
                self.exec_stmts(children, fuel)
            },
            _ => Err(AsaErrorKind::UnsupportedNode),
        }
    }

    #[verifier::loop_isolation(false)]
    fn exec_stmts(&mut self, stmts: &Vec<Node>, fuel: usize) -> (r: Result<Value, AsaErrorKind>)
        ensures
            ({
                let (r2, st2) = eval_stmts(node_views(stmts@), 0, old(self).state(), fuel as nat);
                &&& res_view(r) == r2
                &&& final(self).state() == st2
                &&& final(self).depth() == old(self).depth()
            }),
        decreases fuel, stmts@, 0nat,
    {
        broadcast use lemma_node_views_len, lemma_node_views_index, lemma_node_view_variant;

        let ghost stmts_m = node_views(stmts@);
        let ghost st0 = self.state();
        if stmts.len() == 0 {
            return Err(AsaErrorKind::InvalidStructure);
        }
        let mut i: usize = 0;
        loop
            invariant
                0 <= i < stmts@.len(),
                eval_stmts(stmts_m, i as int, self.state(), fuel as nat) == eval_stmts(
                    stmts_m,
                    0,
                    st0,
                    fuel as nat,
                ),
                self.depth() == old(self).depth(),
            decreases stmts@.len() - i,
        {
            proof {
                lemma_node_views_len(stmts@);
                lemma_node_views_index(stmts@, i as int);
                assert(decreases_to!(stmts@ => stmts@[i as int]));
            }
            let ghost st_pre = self.state();
            let r = self.exec_node(&stmts[i], fuel);
            match r {
                Err(e) => {
                    proof {
                        assert(eval_stmts(stmts_m, i as int, st_pre, fuel as nat) == (Err::<
                            ValueM,
                            AsaErrorKind,
                        >(e), self.state()));
                    }
                    return Err(e);
                },
                Ok(v) => {
                    if i == stmts.len() - 1 {
                        proof {
                            assert(eval_stmts(stmts_m, i as int, st_pre, fuel as nat) == (Ok::<
                                ValueM,
                                AsaErrorKind,
                            >(v@), self.state()));
                        }
                        return Ok(v);
                    }
                    proof {
                        assert(eval_stmts(stmts_m, i as int, st_pre, fuel as nat) == eval_stmts(
                            stmts_m,
                            i as int + 1,
                            self.state(),
                            fuel as nat,
                        ));
                    }
                },
            }
            i = i + 1;
        }
    }
}

} // verus!
