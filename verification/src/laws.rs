//! The laws of the language, stated over the specification evaluator and
//! proved once and for all: literal evaluation, name lookup, definition and
//! shadowing, binary math, calls, arity, and frame isolation.

use vstd::prelude::*;

use crate::interpreter::AsaErrorKind;
use crate::interpreter::StateM;
use crate::interpreter::ValueM;
use crate::interpreter::eval;
use crate::interpreter::eval_program_items;
use crate::interpreter::eval_stmts;
use crate::interpreter::eval_call;
use crate::interpreter::eval_call_with;
use crate::interpreter::eval_bind_args;
use crate::interpreter::eval_body;
use crate::interpreter::math_result;
use crate::interpreter::frames_pop;
use crate::parser::NodeM;
use crate::parser::MathOp;

verus! {

/// The literal node whose evaluation yields the given value.
pub open spec fn lit_of(v: ValueM) -> NodeM {
    match v {
        ValueM::Number(n) => NodeM::Number { value: n },
        ValueM::Bool(b) => NodeM::Bool { value: b },
        ValueM::String(s) => NodeM::String { value: s },
    }
}

/// A bare literal program — one expression holding one literal — evaluates
/// to the equal value and changes nothing: `"123"` gives `Number(123)`,
/// `"true"` gives `Bool(true)`, `"\"helloworld\""` gives
/// `String("helloworld")`.
pub proof fn lemma_literal_program(v: ValueM, st: StateM, fuel: nat)
    ensures
        eval(
            NodeM::Program { children: seq![NodeM::Expression { children: seq![lit_of(v)] }] },
            st,
            fuel,
        ) == (Ok::<ValueM, AsaErrorKind>(v), st),
{
    let expr = NodeM::Expression { children: seq![lit_of(v)] };
    assert(eval(lit_of(v), st, fuel) == (Ok::<ValueM, AsaErrorKind>(v), st));
    assert(eval(expr, st, fuel) == (Ok::<ValueM, AsaErrorKind>(v), st));
    assert(eval_program_items(seq![expr], 1, st, fuel, Ok(v)) == (Ok::<ValueM, AsaErrorKind>(v), st));
    assert(eval_program_items(seq![expr], 0, st, fuel, Ok(ValueM::Bool(true))) == (Ok::<
        ValueM,
        AsaErrorKind,
    >(v), st));
}

/// A bare identifier that the top-of-stack frame does not bind fails with
/// the undefined-variable error, and leaves the state unchanged.
pub proof fn lemma_undefined_identifier(name: Seq<char>, st: StateM, fuel: nat)
    requires
        st.frames.len() == 0 || !st.frames.last().contains_key(name),
    ensures
        eval(
            NodeM::Program {
                children: seq![
                    NodeM::Expression { children: seq![NodeM::Identifier { value: name }] },
                ],
            },
            st,
            fuel,
        ) == (Err::<ValueM, AsaErrorKind>(AsaErrorKind::UndefinedVariable), st),
{
    let ident = NodeM::Identifier { value: name };
    let expr = NodeM::Expression { children: seq![ident] };
    assert(eval(ident, st, fuel) == (Err::<ValueM, AsaErrorKind>(
        AsaErrorKind::UndefinedVariable,
    ), st));
    assert(eval(expr, st, fuel) == (Err::<ValueM, AsaErrorKind>(
        AsaErrorKind::UndefinedVariable,
    ), st));
    assert(eval_program_items(
        seq![expr],
        1,
        st,
        fuel,
        Err(AsaErrorKind::UndefinedVariable),
    ) == (Err::<ValueM, AsaErrorKind>(AsaErrorKind::UndefinedVariable), st));
    assert(eval_program_items(seq![expr], 0, st, fuel, Ok(ValueM::Bool(true))) == (Err::<
        ValueM,
        AsaErrorKind,
    >(AsaErrorKind::UndefinedVariable), st));
}

/// The state after one `let name = <literal>;`: the defined value is the
/// program's result, and the binding lands in the top-of-stack frame, so a
/// same-frame lookup afterward returns the same value.
pub proof fn lemma_variable_define(name: Seq<char>, v: ValueM, st: StateM, fuel: nat)
    requires
        st.frames.len() > 0,
    ensures
        ({
            let vd = NodeM::VariableDefine {
                children: seq![
                    NodeM::Identifier { value: name },
                    NodeM::Expression { children: seq![lit_of(v)] },
                ],
            };
            let st2 = StateM {
                frames: st.frames.update(
                    st.frames.len() - 1,
                    st.frames.last().insert(name, v),
                ),
                ..st
            };
            &&& eval(NodeM::Program { children: seq![vd] }, st, fuel) == (Ok::<
                ValueM,
                AsaErrorKind,
            >(v), st2)
            &&& eval(NodeM::Identifier { value: name }, st2, fuel) == (Ok::<
                ValueM,
                AsaErrorKind,
            >(v), st2)
        }),
{
    let vd = NodeM::VariableDefine {
        children: seq![
            NodeM::Identifier { value: name },
            NodeM::Expression { children: seq![lit_of(v)] },
        ],
    };
    let expr = NodeM::Expression { children: seq![lit_of(v)] };
    let st2 = StateM {
        frames: st.frames.update(st.frames.len() - 1, st.frames.last().insert(name, v)),
        ..st
    };
    assert(eval(lit_of(v), st, fuel) == (Ok::<ValueM, AsaErrorKind>(v), st));
    assert(eval(expr, st, fuel) == (Ok::<ValueM, AsaErrorKind>(v), st));
    assert(eval(vd, st, fuel) == (Ok::<ValueM, AsaErrorKind>(v), st2));
    assert(eval_program_items(seq![vd], 1, st2, fuel, Ok(v)) == (Ok::<ValueM, AsaErrorKind>(
        v,
    ), st2));
    assert(eval_program_items(seq![vd], 0, st, fuel, Ok(ValueM::Bool(true))) == (Ok::<
        ValueM,
        AsaErrorKind,
    >(v), st2));
    assert(st2.frames.last() == st.frames.last().insert(name, v));
}

/// A math expression over two literal operands returns exactly
/// [`math_result`]: the sum or difference for two in-range numbers, the
/// non-numeric-operand error otherwise, and it changes nothing.
pub proof fn lemma_math_literals(op: MathOp, a: ValueM, b: ValueM, st: StateM, fuel: nat)
    ensures
        eval(
            NodeM::MathExpression { op, children: seq![lit_of(a), lit_of(b)] },
            st,
            fuel,
        ) == (math_result(op, a, b), st),
{
    let m = NodeM::MathExpression { op, children: seq![lit_of(a), lit_of(b)] };
    assert(eval(lit_of(a), st, fuel) == (Ok::<ValueM, AsaErrorKind>(a), st));
    assert(eval(lit_of(b), st, fuel) == (Ok::<ValueM, AsaErrorKind>(b), st));
    assert(eval(m, st, fuel) == (math_result(op, a, b), st));
}

} // verus!

verus! {

/// Calling a zero-parameter function whose body is `return <literal>;` —
/// stored as the grammar parses it, the literal wrapped in an expression —
/// yields that literal, and the state afterward equals the state before:
/// the callee's frame is pushed and popped again. Both call forms are
/// covered: the parsed call carrying one empty argument group, and the
/// `start_main`-style call with no children at all.
pub proof fn lemma_call_returns_literal(fname: Seq<char>, v: ValueM, st: StateM, fuel: nat)
    requires
        fuel >= 1,
        st.funcs.contains_key(fname),
        st.funcs[fname] == (
            NodeM::FunctionArguments { children: Seq::<NodeM>::empty() },
            NodeM::FunctionStatements {
                children: seq![
                    NodeM::FunctionReturn {
                        children: seq![NodeM::Expression { children: seq![lit_of(v)] }],
                    },
                ],
            },
        ),
    ensures
        eval(
            NodeM::FunctionCall {
                name: fname,
                children: seq![NodeM::FunctionArguments { children: Seq::<NodeM>::empty() }],
            },
            st,
            fuel,
        ) == (Ok::<ValueM, AsaErrorKind>(v), st),
        eval(
            NodeM::FunctionCall { name: fname, children: Seq::<NodeM>::empty() },
            st,
            fuel,
        ) == (Ok::<ValueM, AsaErrorKind>(v), st),
{
    let expr = NodeM::Expression { children: seq![lit_of(v)] };
    let ret = NodeM::FunctionReturn { children: seq![expr] };
    let body = NodeM::FunctionStatements { children: seq![ret] };
    let st_in = StateM { frames: st.frames.push(Map::empty()), ..st };
    let f2 = (fuel - 1) as nat;
    assert(eval_bind_args(
        Seq::<NodeM>::empty(),
        Seq::<NodeM>::empty(),
        0,
        st,
        fuel,
        Map::empty(),
    ) == (Ok::<Map<Seq<char>, ValueM>, AsaErrorKind>(Map::empty()), st));
    assert(eval(lit_of(v), st_in, f2) == (Ok::<ValueM, AsaErrorKind>(v), st_in));
    assert(eval(expr, st_in, f2) == (Ok::<ValueM, AsaErrorKind>(v), st_in));
    assert(eval(ret, st_in, f2) == (Ok::<ValueM, AsaErrorKind>(v), st_in));
    assert(eval_stmts(seq![ret], 0, st_in, f2) == (Ok::<ValueM, AsaErrorKind>(v), st_in));
    assert(eval_body(body, st_in, f2) == (Ok::<ValueM, AsaErrorKind>(v), st_in));
    assert(frames_pop(st_in.frames) =~= st.frames);
    assert(eval_call_with(Seq::<NodeM>::empty(), Seq::<NodeM>::empty(), body, st, fuel) == (Ok::<
        ValueM,
        AsaErrorKind,
    >(v), StateM { frames: frames_pop(st_in.frames), ..st_in }));
    assert(StateM { frames: frames_pop(st_in.frames), ..st_in } =~~= st);
    assert(eval_call(fname, Seq::<NodeM>::empty(), st, fuel) == (Ok::<ValueM, AsaErrorKind>(
        v,
    ), st));
    let grouped = seq![NodeM::FunctionArguments { children: Seq::<NodeM>::empty() }];
    assert(eval_call(fname, grouped, st, fuel) == (Ok::<ValueM, AsaErrorKind>(v), st));
}

/// Calling `fn f(p1, p2) { return p1 + p2; }` — stored as the grammar
/// parses it, the sum wrapped in an expression — with two in-range number
/// literals yields their sum; the arguments bind by position into a fresh
/// frame, and the state afterward equals the state before.
pub proof fn lemma_call_adds(
    fname: Seq<char>,
    p1: Seq<char>,
    p2: Seq<char>,
    x: int,
    y: int,
    st: StateM,
    fuel: nat,
)
    requires
        fuel >= 1,
        p1 != p2,
        i32::MIN <= x + y <= i32::MAX,
        st.funcs.contains_key(fname),
        st.funcs[fname] == (
            NodeM::FunctionArguments {
                children: seq![
                    NodeM::Identifier { value: p1 },
                    NodeM::Identifier { value: p2 },
                ],
            },
            NodeM::FunctionStatements {
                children: seq![
                    NodeM::FunctionReturn {
                        children: seq![
                            NodeM::Expression {
                                children: seq![
                                    NodeM::MathExpression {
                                        op: MathOp::Add,
                                        children: seq![
                                            NodeM::Identifier { value: p1 },
                                            NodeM::Identifier { value: p2 },
                                        ],
                                    },
                                ],
                            },
                        ],
                    },
                ],
            },
        ),
    ensures
        eval(
            NodeM::FunctionCall {
                name: fname,
                children: seq![
                    NodeM::FunctionArguments {
                        children: seq![
                            NodeM::Expression { children: seq![NodeM::Number { value: x }] },
                            NodeM::Expression { children: seq![NodeM::Number { value: y }] },
                        ],
                    },
                ],
            },
            st,
            fuel,
        ) == (Ok::<ValueM, AsaErrorKind>(ValueM::Number(x + y)), st),
{
    let params = seq![NodeM::Identifier { value: p1 }, NodeM::Identifier { value: p2 }];
    let ax = NodeM::Expression { children: seq![NodeM::Number { value: x }] };
    let ay = NodeM::Expression { children: seq![NodeM::Number { value: y }] };
    let args = seq![ax, ay];
    let m = NodeM::MathExpression {
        op: MathOp::Add,
        children: seq![NodeM::Identifier { value: p1 }, NodeM::Identifier { value: p2 }],
    };
    let me = NodeM::Expression { children: seq![m] };
    let ret = NodeM::FunctionReturn { children: seq![me] };
    let body = NodeM::FunctionStatements { children: seq![ret] };
    let f2 = (fuel - 1) as nat;

    // Binding: both argument literals evaluate in the caller's state.
    assert(eval(NodeM::Number { value: x }, st, fuel) == (Ok::<ValueM, AsaErrorKind>(
        ValueM::Number(x),
    ), st));
    assert(eval(NodeM::Number { value: y }, st, fuel) == (Ok::<ValueM, AsaErrorKind>(
        ValueM::Number(y),
    ), st));
    assert(eval(ax, st, fuel) == (Ok::<ValueM, AsaErrorKind>(ValueM::Number(x)), st));
    assert(eval(ay, st, fuel) == (Ok::<ValueM, AsaErrorKind>(ValueM::Number(y)), st));
    let fr0 = Map::<Seq<char>, ValueM>::empty();
    let fr1 = fr0.insert(p1, ValueM::Number(x));
    let fr2 = fr1.insert(p2, ValueM::Number(y));
    assert(eval_bind_args(params, args, 2, st, fuel, fr2) == (Ok::<
        Map<Seq<char>, ValueM>,
        AsaErrorKind,
    >(fr2), st));
    assert(eval_bind_args(params, args, 1, st, fuel, fr1) == (Ok::<
        Map<Seq<char>, ValueM>,
        AsaErrorKind,
    >(fr2), st));
    assert(eval_bind_args(params, args, 0, st, fuel, fr0) == (Ok::<
        Map<Seq<char>, ValueM>,
        AsaErrorKind,
    >(fr2), st));

    // The body sees only the fresh frame; the lookups give x and y.
    let st_in = StateM { frames: st.frames.push(fr2), ..st };
    assert(st_in.frames.last() == fr2);
    assert(fr2[p1] == ValueM::Number(x));
    assert(fr2[p2] == ValueM::Number(y));
    assert(eval(NodeM::Identifier { value: p1 }, st_in, f2) == (Ok::<ValueM, AsaErrorKind>(
        ValueM::Number(x),
    ), st_in));
    assert(eval(NodeM::Identifier { value: p2 }, st_in, f2) == (Ok::<ValueM, AsaErrorKind>(
        ValueM::Number(y),
    ), st_in));
    assert(math_result(MathOp::Add, ValueM::Number(x), ValueM::Number(y)) == Ok::<
        ValueM,
        AsaErrorKind,
    >(ValueM::Number(x + y)));
    assert(eval(m, st_in, f2) == (Ok::<ValueM, AsaErrorKind>(ValueM::Number(x + y)), st_in));
    assert(eval(me, st_in, f2) == (Ok::<ValueM, AsaErrorKind>(ValueM::Number(x + y)), st_in));
    assert(eval(ret, st_in, f2) == (Ok::<ValueM, AsaErrorKind>(ValueM::Number(x + y)), st_in));
    assert(eval_stmts(seq![ret], 0, st_in, f2) == (Ok::<ValueM, AsaErrorKind>(
        ValueM::Number(x + y),
    ), st_in));
    assert(eval_body(body, st_in, f2) == (Ok::<ValueM, AsaErrorKind>(ValueM::Number(x + y)), st_in));

    // The frame is popped again: the caller's stack is restored.
    assert(frames_pop(st_in.frames) =~= st.frames);
    assert(eval_call_with(params, args, body, st, fuel) == (Ok::<ValueM, AsaErrorKind>(
        ValueM::Number(x + y),
    ), StateM { frames: frames_pop(st_in.frames), ..st_in }));
    assert(StateM { frames: frames_pop(st_in.frames), ..st_in } =~~= st);
    let call_children = seq![NodeM::FunctionArguments { children: args }];
    assert(eval_call(fname, call_children, st, fuel) == (Ok::<ValueM, AsaErrorKind>(
        ValueM::Number(x + y),
    ), st));
}

/// Calling a defined function with the wrong argument count fails with the
/// arity error carrying both counts — the arguments are never truncated or
/// padded — and changes nothing.
pub proof fn lemma_call_arity(
    fname: Seq<char>,
    params: Seq<NodeM>,
    args: Seq<NodeM>,
    body: NodeM,
    st: StateM,
    fuel: nat,
)
    requires
        fuel >= 1,
        st.funcs.contains_key(fname),
        st.funcs[fname] == (NodeM::FunctionArguments { children: params }, body),
        params.len() != args.len(),
    ensures
        eval(
            NodeM::FunctionCall {
                name: fname,
                children: seq![NodeM::FunctionArguments { children: args }],
            },
            st,
            fuel,
        ) == (Err::<ValueM, AsaErrorKind>(
            AsaErrorKind::ArityMismatch {
                expected: params.len() as usize,
                actual: args.len() as usize,
            },
        ), st),
{
    let call_children = seq![NodeM::FunctionArguments { children: args }];
    assert(eval_call_with(params, args, body, st, fuel) == (Err::<ValueM, AsaErrorKind>(
        AsaErrorKind::ArityMismatch {
            expected: params.len() as usize,
            actual: args.len() as usize,
        },
    ), st));
    assert(eval_call(fname, call_children, st, fuel) == (Err::<ValueM, AsaErrorKind>(
        AsaErrorKind::ArityMismatch {
            expected: params.len() as usize,
            actual: args.len() as usize,
        },
    ), st));
}

} // verus!

verus! {

/// Evaluation never disturbs the frames below the top of the call stack:
/// the stack keeps its depth, and every frame but the innermost keeps its
/// bindings. In particular a variable defined inside a callee's frame is
/// gone — unresolvable — once the call has returned, whether the call
/// succeeded or failed.
pub open spec fn frames_preserved(a: StateM, b: StateM) -> bool {
    &&& b.frames.len() == a.frames.len()
    &&& forall|k: int| 0 <= k < a.frames.len() - 1 ==> b.frames[k] == a.frames[k]
}

pub proof fn lemma_eval_frames(n: NodeM, st: StateM, fuel: nat)
    ensures
        frames_preserved(st, eval(n, st, fuel).1),
    decreases fuel, n, 3nat,
{
    match n {
        NodeM::Program { children } => {
            lemma_items_frames(children, 0, st, fuel, Ok(ValueM::Bool(true)));
        },
        NodeM::Statement { children } => {
            if children.len() > 0 && (children[0] is VariableDefine || children[0]
                is FunctionReturn) {
                lemma_eval_frames(children[0], st, fuel);
            }
        },
        NodeM::Expression { children } => {
            if children.len() > 0 {
                lemma_eval_frames(children[0], st, fuel);
            }
        },
        NodeM::MathExpression { op, children } => {
            if children.len() == 2 {
                lemma_eval_frames(children[0], st, fuel);
                let (r1, st1) = eval(children[0], st, fuel);
                if r1 is Ok {
                    lemma_eval_frames(children[1], st1, fuel);
                }
            }
        },
        NodeM::FunctionCall { name, children } => {
            lemma_call_frames(name, children, st, fuel);
        },
        NodeM::FunctionReturn { children } => {
            if children.len() > 0 {
                lemma_eval_frames(children[0], st, fuel);
            }
        },
        NodeM::VariableDefine { children } => {
            if children.len() == 2 && children[0] is Identifier {
                lemma_eval_frames(children[1], st, fuel);
            }
        },
        _ => {},
    }
}

proof fn lemma_items_frames(
    items: Seq<NodeM>,
    i: int,
    st: StateM,
    fuel: nat,
    acc: Result<ValueM, AsaErrorKind>,
)
    ensures
        frames_preserved(st, eval_program_items(items, i, st, fuel, acc).1),
    decreases fuel, items, (if i <= items.len() { (items.len() - i) as nat } else { 0nat }),
{
    if 0 <= i < items.len() {
        let child = items[i];
        if child is FunctionDefine || child is Expression || child is VariableDefine || child
            is String || child is Number || child is Bool {
            lemma_eval_frames(child, st, fuel);
            let (r, st1) = eval(child, st, fuel);
            lemma_items_frames(items, i + 1, st1, fuel, r);
        }
    }
}

proof fn lemma_stmts_frames(stmts: Seq<NodeM>, i: int, st: StateM, fuel: nat)
    ensures
        frames_preserved(st, eval_stmts(stmts, i, st, fuel).1),
    decreases fuel, stmts, (if i <= stmts.len() { (stmts.len() - i) as nat } else { 0nat }),
{
    if 0 <= i < stmts.len() {
        lemma_eval_frames(stmts[i], st, fuel);
        let (r, st1) = eval(stmts[i], st, fuel);
        if !(r is Err || i == stmts.len() - 1) {
            lemma_stmts_frames(stmts, i + 1, st1, fuel);
        }
    }
}

proof fn lemma_call_frames(name: Seq<char>, children: Seq<NodeM>, st: StateM, fuel: nat)
    ensures
        frames_preserved(st, eval_call(name, children, st, fuel).1),
    decreases fuel, children, 2nat,
{
    if fuel > 0 && st.funcs.contains_key(name) {
        let (params_node, body) = st.funcs[name];
        match params_node {
            NodeM::FunctionArguments { children: params } => {
                if children.len() == 0 {
                    lemma_call_with_frames(params, children, body, st, fuel);
                } else if children.len() == 1 {
                    match children[0] {
                        NodeM::FunctionArguments { children: args } => {
                            lemma_call_with_frames(params, args, body, st, fuel);
                        },
                        _ => {},
                    }
                }
            },
            _ => {},
        }
    }
}

proof fn lemma_call_with_frames(
    params: Seq<NodeM>,
    args: Seq<NodeM>,
    body: NodeM,
    st: StateM,
    fuel: nat,
)
    ensures
        frames_preserved(st, eval_call_with(params, args, body, st, fuel).1),
    decreases fuel, args, (args.len() + 1) as nat,
{
    if fuel > 0 && params.len() == args.len() {
        lemma_bind_frames(params, args, 0, st, fuel, Map::empty());
        let (bound, st1) = eval_bind_args(params, args, 0, st, fuel, Map::empty());
        match bound {
            Ok(frame) => {
                let st2 = StateM { frames: st1.frames.push(frame), ..st1 };
                lemma_body_frames(body, st2, (fuel - 1) as nat);
                let (r, st3) = eval_body(body, st2, (fuel - 1) as nat);
                assert(st3.frames.len() == st1.frames.len() + 1);
                assert(forall|k: int| 0 <= k < st1.frames.len() ==> st3.frames[k]
                    == st2.frames[k]);
                assert(frames_pop(st3.frames).len() == st1.frames.len());
            },
            Err(_) => {},
        }
    }
}

proof fn lemma_bind_frames(
    params: Seq<NodeM>,
    args: Seq<NodeM>,
    i: int,
    st: StateM,
    fuel: nat,
    frame: Map<Seq<char>, ValueM>,
)
    ensures
        frames_preserved(st, eval_bind_args(params, args, i, st, fuel, frame).1),
    decreases fuel, args, (if i <= args.len() { (args.len() - i) as nat } else { 0nat }),
{
    if 0 <= i < args.len() && params.len() == args.len() {
        match params[i] {
            NodeM::Identifier { value: pname } => {
                lemma_eval_frames(args[i], st, fuel);
                let (r, st1) = eval(args[i], st, fuel);
                match r {
                    Ok(v) => {
                        lemma_bind_frames(params, args, i + 1, st1, fuel, frame.insert(pname, v));
                    },
                    Err(_) => {},
                }
            },
            _ => {},
        }
    }
}

proof fn lemma_body_frames(body: NodeM, st: StateM, fuel: nat)
    ensures
        frames_preserved(st, eval_body(body, st, fuel).1),
    decreases fuel, body, 4nat,
{
    match body {
        NodeM::FunctionStatements { children } => {
            lemma_stmts_frames(children, 0, st, fuel);
        },
        _ => {},
    }
}

} // verus!

verus! {

/// Shadow-and-overwrite in one frame: defining a name and then redefining
/// it from its own value leaves exactly one binding — the later one — in
/// the top-of-stack frame, and the program's result is the new value:
/// `let x = 5; let x = x + 1;` gives `Number(6)`.
pub proof fn lemma_shadow_overwrite(name: Seq<char>, a: int, b: int, st: StateM, fuel: nat)
    requires
        st.frames.len() > 0,
        i32::MIN <= a + b <= i32::MAX,
    ensures
        ({
            let vd1 = NodeM::VariableDefine {
                children: seq![
                    NodeM::Identifier { value: name },
                    NodeM::Expression { children: seq![NodeM::Number { value: a }] },
                ],
            };
            let vd2 = NodeM::VariableDefine {
                children: seq![
                    NodeM::Identifier { value: name },
                    NodeM::Expression {
                        children: seq![
                            NodeM::MathExpression {
                                op: MathOp::Add,
                                children: seq![
                                    NodeM::Identifier { value: name },
                                    NodeM::Number { value: b },
                                ],
                            },
                        ],
                    },
                ],
            };
            eval(NodeM::Program { children: seq![vd1, vd2] }, st, fuel) == (Ok::<
                ValueM,
                AsaErrorKind,
            >(ValueM::Number(a + b)), StateM {
                frames: st.frames.update(
                    st.frames.len() - 1,
                    st.frames.last().insert(name, ValueM::Number(a + b)),
                ),
                ..st
            })
        }),
{
    let vd1 = NodeM::VariableDefine {
        children: seq![
            NodeM::Identifier { value: name },
            NodeM::Expression { children: seq![NodeM::Number { value: a }] },
        ],
    };
    let m = NodeM::MathExpression {
        op: MathOp::Add,
        children: seq![NodeM::Identifier { value: name }, NodeM::Number { value: b }],
    };
    let vd2 = NodeM::VariableDefine {
        children: seq![
            NodeM::Identifier { value: name },
            NodeM::Expression { children: seq![m] },
        ],
    };
    let top = st.frames.len() - 1;

    // First definition: the top frame gains `name = a`.
    assert(eval(NodeM::Number { value: a }, st, fuel) == (Ok::<ValueM, AsaErrorKind>(
        ValueM::Number(a),
    ), st));
    assert(eval(NodeM::Expression { children: seq![NodeM::Number { value: a }] }, st, fuel)
        == (Ok::<ValueM, AsaErrorKind>(ValueM::Number(a)), st));
    let st1 = StateM {
        frames: st.frames.update(top, st.frames.last().insert(name, ValueM::Number(a))),
        ..st
    };
    assert(eval(vd1, st, fuel) == (Ok::<ValueM, AsaErrorKind>(ValueM::Number(a)), st1));

    // Second definition: the lookup sees `a`, the sum is `a + b`, and the
    // new binding shadows the old one completely.
    assert(st1.frames.len() == st.frames.len());
    assert(st1.frames.last() == st.frames.last().insert(name, ValueM::Number(a)));
    assert(eval(NodeM::Identifier { value: name }, st1, fuel) == (Ok::<ValueM, AsaErrorKind>(
        ValueM::Number(a),
    ), st1));
    assert(eval(NodeM::Number { value: b }, st1, fuel) == (Ok::<ValueM, AsaErrorKind>(
        ValueM::Number(b),
    ), st1));
    assert(eval(m, st1, fuel) == (Ok::<ValueM, AsaErrorKind>(ValueM::Number(a + b)), st1));
    assert(eval(NodeM::Expression { children: seq![m] }, st1, fuel) == (Ok::<
        ValueM,
        AsaErrorKind,
    >(ValueM::Number(a + b)), st1));
    let st2 = StateM {
        frames: st1.frames.update(top, st1.frames.last().insert(name, ValueM::Number(a + b))),
        ..st1
    };
    assert(eval(vd2, st1, fuel) == (Ok::<ValueM, AsaErrorKind>(ValueM::Number(a + b)), st2));

    // One binding remains: insert twice under one name is one insert.
    let st_final = StateM {
        frames: st.frames.update(top, st.frames.last().insert(name, ValueM::Number(a + b))),
        ..st
    };
    assert(st2.frames =~~= st_final.frames);
    assert(st2 =~~= st_final);

    assert(eval_program_items(seq![vd1, vd2], 2, st2, fuel, Ok(ValueM::Number(a + b))) == (Ok::<
        ValueM,
        AsaErrorKind,
    >(ValueM::Number(a + b)), st2));
    assert(eval_program_items(seq![vd1, vd2], 1, st1, fuel, Ok(ValueM::Number(a))) == (Ok::<
        ValueM,
        AsaErrorKind,
    >(ValueM::Number(a + b)), st2));
    assert(eval_program_items(seq![vd1, vd2], 0, st, fuel, Ok(ValueM::Bool(true))) == (Ok::<
        ValueM,
        AsaErrorKind,
    >(ValueM::Number(a + b)), st2));
}

} // verus!

