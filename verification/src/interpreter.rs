//! Interpreting a Brainfuck AST.
//!
//! The machine is a small-step interpreter: a cursor (a path of child
//! indices into the tree) marks the node to execute next, and [`Interpreter::step`]
//! performs exactly one node's effect. The one-step transition is the spec
//! function [`step_spec`], and [`steps_to`] chains it, so every contract here
//! pins the machine's behaviour exactly. Loops never impose an iteration
//! ceiling: a caller drives the machine with [`Interpreter::step`] or
//! [`Interpreter::run`] for as long as it pleases.
//!
//! Pointer moves are bounds-checked against the tape length: a move that
//! would leave `[0, TAPE_LEN)` fails with `MemoryOutOfBounds` reporting the
//! pointer's value before the move, and the cell it would have reached is
//! never touched.
//!
//! The input instruction blocks for one byte from the interactive input
//! collaborator (raw-mode terminal input), echoes it, and stores it in the
//! current cell; a failure of that collaborator surfaces as an `Io` error
//! and leaves the machine state unchanged.

use vstd::prelude::*;

use crate::error::Error;
use crate::lexer::Token;
use crate::parser::AstNode;
use crate::parser::is_parse_of;
use crate::parser::reads_input;
use crate::parser::lemma_seq_reads_member;
use crate::parser::similar_node;
use crate::parser::lemma_similar_nodes_member;

use std::io::Read;
use std::io::Write;

verus! {

/// The number of cells on the tape.
pub const TAPE_LEN: usize = 30000;

/// The mathematical state of a Brainfuck machine: the tape, the data
/// pointer, everything output so far, the cursor into the program tree, and
/// whether the program has finished.
#[verifier::ext_equal]
pub ghost struct MachineState {
    pub memory: Seq<u8>,
    pub pointer: nat,
    pub output: Seq<u8>,
    pub frames: Seq<usize>,
    pub halted: bool,
}

/// The child nodes of a container node; leaves have none.
pub open spec fn body_of(node: AstNode) -> Seq<AstNode> {
    match node {
        AstNode::Sequence(v) => v@,
        AstNode::Loop(v) => v@,
        _ => Seq::empty(),
    }
}

/// Whether a cursor path selects a node of the tree.
pub open spec fn path_valid(node: AstNode, path: Seq<usize>) -> bool
    decreases path.len(),
{
    path.len() == 0 || (path[0] < body_of(node).len() && path_valid(
        body_of(node)[path[0] as int],
        path.drop_first(),
    ))
}

/// The node that a cursor path points at.
pub open spec fn node_at(node: AstNode, path: Seq<usize>) -> AstNode
    decreases path.len(),
{
    if path.len() == 0 {
        node
    } else if path[0] < body_of(node).len() {
        node_at(body_of(node)[path[0] as int], path.drop_first())
    } else {
        arbitrary()
    }
}

/// Where the cursor stands after the node it points at has been executed:
/// at the next sibling; past a finished plain sequence; back at the loop
/// node itself when a loop body finishes, so that the loop condition is
/// re-checked; `None` when the whole program has finished.
pub open spec fn advance(ast: AstNode, path: Seq<usize>) -> Option<Seq<usize>>
    decreases path.len(),
{
    if path.len() == 0 {
        None
    } else {
        let parent_path = path.drop_last();
        let parent = node_at(ast, parent_path);
        let i = path.last();
        if i + 1 < body_of(parent).len() {
            Some(parent_path.push((i + 1) as usize))
        } else if parent is Loop {
            Some(parent_path)
        } else {
            advance(ast, parent_path)
        }
    }
}

/// The machine state with its cursor advanced and nothing else changed.
pub open spec fn advanced(ast: AstNode, st: MachineState) -> MachineState {
    match advance(ast, st.frames) {
        Some(p) => MachineState { frames: p, ..st },
        None => MachineState { frames: Seq::empty(), halted: true, ..st },
    }
}

/// One step of the machine: the effect of the node under the cursor.
///
/// `b` is the byte the input collaborator would hand over; it is read only
/// when the cursor stands on an `Input` node. A pointer move that would
/// leave the tape yields `Err` with the pointer's value before the move.
/// Cell arithmetic wraps modulo 256. A halted machine stays as it is.
pub open spec fn step_spec(ast: AstNode, st: MachineState, b: u8) -> Result<MachineState, int> {
    if st.halted {
        Ok(st)
    } else {
        let cur = node_at(ast, st.frames);
        let cell = st.memory[st.pointer as int];
        match cur {
            AstNode::Sequence(v) => if v@.len() > 0 {
                Ok(MachineState { frames: st.frames.push(0), ..st })
            } else {
                Ok(advanced(ast, st))
            },
            AstNode::Loop(v) => if cell == 0 {
                Ok(advanced(ast, st))
            } else if v@.len() > 0 {
                Ok(MachineState { frames: st.frames.push(0), ..st })
            } else {
                Ok(st)
            },
            AstNode::Clear => Ok(
                advanced(ast, MachineState { memory: st.memory.update(st.pointer as int, 0), ..st }),
            ),
            AstNode::Right(n) => if st.pointer + n < st.memory.len() {
                Ok(advanced(ast, MachineState { pointer: (st.pointer + n) as nat, ..st }))
            } else {
                Err(st.pointer as int)
            },
            AstNode::Left(n) => if n <= st.pointer {
                Ok(advanced(ast, MachineState { pointer: (st.pointer - n) as nat, ..st }))
            } else {
                Err(st.pointer as int)
            },
            AstNode::Increment(n) => Ok(
                advanced(
                    ast,
                    MachineState {
                        memory: st.memory.update(st.pointer as int, ((cell + n) % 256) as u8),
                        ..st
                    },
                ),
            ),
            AstNode::Decrement(n) => Ok(
                advanced(
                    ast,
                    MachineState {
                        memory: st.memory.update(st.pointer as int, ((cell - n) % 256) as u8),
                        ..st
                    },
                ),
            ),
            AstNode::Output => Ok(advanced(ast, MachineState { output: st.output.push(cell), ..st })),
            AstNode::Input => Ok(
                advanced(
                    ast,
                    MachineState {
                        memory: st.memory.update(st.pointer as int, b),
                        output: st.output.push(b),
                        ..st
                    },
                ),
            ),
        }
    }
}

/// `n` steps of the machine lead from `st` to the outcome `r`: a finished or
/// still running state (`Ok`), or a pointer move out of bounds (`Err` with
/// the reported position). A halted machine absorbs the remaining steps, so
/// an outcome of a finished run is also an outcome of every longer one.
pub open spec fn steps_to(
    ast: AstNode,
    st: MachineState,
    r: Result<MachineState, int>,
    n: nat,
) -> bool
    decreases n,
{
    if n == 0 || st.halted {
        r == Ok::<MachineState, int>(st)
    } else {
        exists|b: u8|
            match #[trigger] step_spec(ast, st, b) {
                Ok(st2) => steps_to(ast, st2, r, (n - 1) as nat),
                Err(p) => r == Err::<MachineState, int>(p),
            }
    }
}

/// One step in front of a chain of `n` steps makes a chain of `n + 1` steps.
proof fn lemma_steps_to_intro(
    ast: AstNode,
    st: MachineState,
    r: Result<MachineState, int>,
    b: u8,
    n: nat,
)
    requires
        !st.halted,
        match step_spec(ast, st, b) {
            Ok(st2) => steps_to(ast, st2, r, n),
            Err(p) => r == Err::<MachineState, int>(p),
        },
    ensures
        steps_to(ast, st, r, n + 1),
{
    assert(match step_spec(ast, st, b) {
        Ok(st2) => steps_to(ast, st2, r, ((n + 1) - 1) as nat),
        Err(p) => r == Err::<MachineState, int>(p),
    });
}

/// A chain of `n > 0` steps from a running state starts with one step.
proof fn lemma_steps_to_elim(ast: AstNode, st: MachineState, r: Result<MachineState, int>, n: nat)
    requires
        steps_to(ast, st, r, n),
        !st.halted,
        n > 0,
    ensures
        exists|b: u8|
            match #[trigger] step_spec(ast, st, b) {
                Ok(st2) => steps_to(ast, st2, r, (n - 1) as nat),
                Err(p) => r == Err::<MachineState, int>(p),
            },
{
}

/// A chain of steps reaching `st1` grows by one successful step.
proof fn lemma_steps_to_extend(
    ast: AstNode,
    st0: MachineState,
    st1: MachineState,
    st2: MachineState,
    b: u8,
    n: nat,
)
    requires
        steps_to(ast, st0, Ok::<MachineState, int>(st1), n),
        step_spec(ast, st1, b) == Ok::<MachineState, int>(st2),
    ensures
        steps_to(ast, st0, Ok::<MachineState, int>(st2), n + 1),
    decreases n,
{
    if st0.halted {
        // st1 == st0 stays put, and so does st2.
    } else if n == 0 {
        lemma_steps_to_intro(ast, st0, Ok::<MachineState, int>(st2), b, 0);
    } else {
        lemma_steps_to_elim(ast, st0, Ok::<MachineState, int>(st1), n);
        let b0 = choose|b0: u8|
            match #[trigger] step_spec(ast, st0, b0) {
                Ok(mid) => steps_to(ast, mid, Ok::<MachineState, int>(st1), (n - 1) as nat),
                Err(p) => Ok::<MachineState, int>(st1) == Err::<MachineState, int>(p),
            };
        match step_spec(ast, st0, b0) {
            Ok(mid) => {
                lemma_steps_to_extend(ast, mid, st1, st2, b, (n - 1) as nat);
                lemma_steps_to_intro(ast, st0, Ok::<MachineState, int>(st2), b0, n);
            },
            Err(_) => {},
        }
    }
}

/// A chain of steps reaching `st1` grows by one failing step.
proof fn lemma_steps_to_extend_err(
    ast: AstNode,
    st0: MachineState,
    st1: MachineState,
    p: int,
    n: nat,
)
    requires
        steps_to(ast, st0, Ok::<MachineState, int>(st1), n),
        forall|b: u8| #[trigger] step_spec(ast, st1, b) == Err::<MachineState, int>(p),
    ensures
        steps_to(ast, st0, Err::<MachineState, int>(p), n + 1),
    decreases n,
{
    assert(step_spec(ast, st1, 0u8) == Err::<MachineState, int>(p));
    if st1.halted {
        // A halted machine steps to itself, never to an error.
        assert(false);
    } else if st0.halted {
        assert(false);
    } else if n == 0 {
        lemma_steps_to_intro(ast, st0, Err::<MachineState, int>(p), 0u8, 0);
    } else {
        lemma_steps_to_elim(ast, st0, Ok::<MachineState, int>(st1), n);
        let b0 = choose|b0: u8|
            match #[trigger] step_spec(ast, st0, b0) {
                Ok(mid) => steps_to(ast, mid, Ok::<MachineState, int>(st1), (n - 1) as nat),
                Err(q) => Ok::<MachineState, int>(st1) == Err::<MachineState, int>(q),
            };
        match step_spec(ast, st0, b0) {
            Ok(mid) => {
                lemma_steps_to_extend_err(ast, mid, st1, p, (n - 1) as nat);
                lemma_steps_to_intro(ast, st0, Err::<MachineState, int>(p), b0, n);
            },
            Err(_) => {},
        }
    }
}

/// In an input-free program the cursor never stands on an input node.
proof fn lemma_no_input_at(ast: AstNode, path: Seq<usize>)
    requires
        path_valid(ast, path),
        !reads_input(ast),
    ensures
        !(node_at(ast, path) is Input),
    decreases path.len(),
{
    if path.len() > 0 {
        let child = body_of(ast)[path[0] as int];
        match ast {
            AstNode::Sequence(v) => {
                lemma_seq_reads_member(v@, path[0] as int);
            },
            AstNode::Loop(v) => {
                lemma_seq_reads_member(v@, path[0] as int);
            },
            _ => {},
        }
        lemma_no_input_at(child, path.drop_first());
    }
}

/// When the cursor does not stand on an input node, the step does not
/// depend on the oracle byte.
proof fn lemma_step_oblivious(ast: AstNode, st: MachineState, b1: u8, b2: u8)
    requires
        !(node_at(ast, st.frames) is Input),
    ensures
        step_spec(ast, st, b1) == step_spec(ast, st, b2),
{
}

/// Every state reached by a chain of steps keeps a valid cursor.
proof fn lemma_steps_to_valid(ast: AstNode, st: MachineState, m: MachineState, n: nat)
    requires
        steps_to(ast, st, Ok::<MachineState, int>(m), n),
        path_valid(ast, st.frames),
    ensures
        path_valid(ast, m.frames),
    decreases n,
{
    if n == 0 || st.halted {
        // m == st.
    } else {
        lemma_steps_to_elim(ast, st, Ok::<MachineState, int>(m), n);
        let b0 = choose|b0: u8|
            match #[trigger] step_spec(ast, st, b0) {
                Ok(mid) => steps_to(ast, mid, Ok::<MachineState, int>(m), (n - 1) as nat),
                Err(p) => Ok::<MachineState, int>(m) == Err::<MachineState, int>(p),
            };
        match step_spec(ast, st, b0) {
            Ok(mid) => {
                lemma_step_valid(ast, st, b0);
                lemma_steps_to_valid(ast, mid, m, (n - 1) as nat);
            },
            Err(_) => {},
        }
    }
}

/// A program whose tokens hold no input instruction never brings the cursor
/// onto an input node: together with the `Io` clauses of
/// [`Interpreter::run`] and [`crate::run_source`], a run of such a program
/// can never fail with an `Io` error.
pub proof fn lemma_no_input_not_reached(
    tokens: Seq<Token>,
    ast: AstNode,
    st: MachineState,
    m: MachineState,
    n: nat,
)
    requires
        crate::parser::parsed_root(tokens, ast),
        forall|j: int| 0 <= j < tokens.len() ==> !(#[trigger] tokens[j] is Input),
        steps_to(ast, st, Ok::<MachineState, int>(m), n),
        path_valid(ast, st.frames),
    ensures
        !(node_at(ast, m.frames) is Input),
{
    let v = ast->Sequence_0;
    crate::parser::lemma_parse_no_input(tokens, 0, v@, tokens.len() as int);
    assert(!reads_input(ast));
    lemma_steps_to_valid(ast, st, m, n);
    lemma_no_input_at(ast, m.frames);
}

/// Running a program that holds no input instruction is deterministic: any
/// two finished outcomes from one starting state are the same, whatever
/// step counts led to them. In particular, running the same input-free
/// program twice yields the same final tape, pointer position, and output.
pub proof fn lemma_no_input_deterministic(
    ast: AstNode,
    st: MachineState,
    r1: Result<MachineState, int>,
    n1: nat,
    r2: Result<MachineState, int>,
    n2: nat,
)
    requires
        steps_to(ast, st, r1, n1),
        steps_to(ast, st, r2, n2),
        path_valid(ast, st.frames),
        !reads_input(ast),
        r1 matches Ok(s) ==> s.halted,
        r2 matches Ok(s) ==> s.halted,
    ensures
        r1 == r2,
    decreases n1 + n2,
{
    if st.halted {
        // Both outcomes are the state itself.
    } else if n1 == 0 || n2 == 0 {
        // A finished outcome in zero steps means the state was halted.
    } else {
        lemma_steps_to_elim(ast, st, r1, n1);
        lemma_steps_to_elim(ast, st, r2, n2);
        let b1 = choose|b: u8|
            match #[trigger] step_spec(ast, st, b) {
                Ok(mid) => steps_to(ast, mid, r1, (n1 - 1) as nat),
                Err(p) => r1 == Err::<MachineState, int>(p),
            };
        let b2 = choose|b: u8|
            match #[trigger] step_spec(ast, st, b) {
                Ok(mid) => steps_to(ast, mid, r2, (n2 - 1) as nat),
                Err(p) => r2 == Err::<MachineState, int>(p),
            };
        lemma_no_input_at(ast, st.frames);
        lemma_step_oblivious(ast, st, b1, b2);
        match step_spec(ast, st, b1) {
            Ok(mid) => {
                lemma_step_valid(ast, st, b1);
                lemma_no_input_deterministic(
                    ast,
                    mid,
                    r1,
                    (n1 - 1) as nat,
                    r2,
                    (n2 - 1) as nat,
                );
            },
            Err(_) => {},
        }
    }
}

/// A valid path's last index selects a child of the node before it.
proof fn lemma_path_drop_last(node: AstNode, path: Seq<usize>)
    requires
        path_valid(node, path),
        path.len() > 0,
    ensures
        path_valid(node, path.drop_last()),
        path.last() < body_of(node_at(node, path.drop_last())).len(),
        node_at(node, path) == body_of(node_at(node, path.drop_last()))[path.last() as int],
    decreases path.len(),
{
    reveal_with_fuel(node_at, 3);
    reveal_with_fuel(path_valid, 3);
    if path.len() == 1 {
        assert(path.drop_last() =~= Seq::<usize>::empty());
        assert(path.drop_first() =~= Seq::<usize>::empty());
    } else {
        let child = body_of(node)[path[0] as int];
        lemma_path_drop_last(child, path.drop_first());
        assert(path.drop_first().drop_last() =~= path.drop_last().drop_first());
        assert(path.drop_last()[0] == path[0]);
        assert(path.drop_first().last() == path.last());
    }
}

/// Extending a valid path by a child index keeps it valid and selects that
/// child.
proof fn lemma_path_push(node: AstNode, path: Seq<usize>, j: usize)
    requires
        path_valid(node, path),
        j < body_of(node_at(node, path)).len(),
    ensures
        path_valid(node, path.push(j)),
        node_at(node, path.push(j)) == body_of(node_at(node, path))[j as int],
    decreases path.len(),
{
    reveal_with_fuel(node_at, 3);
    reveal_with_fuel(path_valid, 3);
    if path.len() == 0 {
        assert(path.push(j)[0] == j);
        assert(path.push(j).drop_first() =~= Seq::<usize>::empty());
    } else {
        let child = body_of(node)[path[0] as int];
        lemma_path_push(child, path.drop_first(), j);
        assert(path.push(j)[0] == path[0]);
        assert(path.push(j).drop_first() =~= path.drop_first().push(j));
    }
}

/// Advancing a valid cursor yields a valid cursor.
proof fn lemma_advance_valid(ast: AstNode, path: Seq<usize>)
    requires
        path_valid(ast, path),
    ensures
        advance(ast, path) matches Some(p) ==> path_valid(ast, p),
    decreases path.len(),
{
    if path.len() > 0 {
        lemma_path_drop_last(ast, path);
        let parent_path = path.drop_last();
        let parent = node_at(ast, parent_path);
        let i = path.last();
        if i + 1 < body_of(parent).len() {
            lemma_path_push(ast, parent_path, (i + 1) as usize);
        } else if !(parent is Loop) {
            lemma_advance_valid(ast, parent_path);
        }
    }
}

/// A step from a valid cursor leaves a valid cursor.
pub proof fn lemma_step_valid(ast: AstNode, st: MachineState, b: u8)
    requires
        path_valid(ast, st.frames),
    ensures
        step_spec(ast, st, b) matches Ok(st2) ==> path_valid(ast, st2.frames),
{
    if !st.halted {
        let cur = node_at(ast, st.frames);
        lemma_advance_valid(ast, st.frames);
        match cur {
            AstNode::Sequence(v) => {
                if v@.len() > 0 {
                    lemma_path_push(ast, st.frames, 0);
                }
            },
            AstNode::Loop(v) => {
                if st.memory[st.pointer as int] != 0 && v@.len() > 0 {
                    lemma_path_push(ast, st.frames, 0);
                }
            },
            _ => {},
        }
    }
}

/// Shape-equal trees have the same variant, the same child count, and, for
/// leaves, are simply equal.
proof fn lemma_similar_shape(a: AstNode, b: AstNode)
    requires
        similar_node(a, b),
    ensures
        a is Sequence <==> b is Sequence,
        a is Loop <==> b is Loop,
        body_of(a).len() == body_of(b).len(),
        !(a is Sequence) && !(a is Loop) ==> a == b,
{
    match a {
        AstNode::Sequence(x) => {
            match b {
                AstNode::Sequence(y) => {},
                _ => {},
            }
        },
        AstNode::Loop(x) => {
            match b {
                AstNode::Loop(y) => {},
                _ => {},
            }
        },
        _ => {},
    }
}

/// A cursor valid for a tree is valid for every shape-equal tree and points
/// at shape-equal nodes in both.
proof fn lemma_node_at_similar(a1: AstNode, a2: AstNode, path: Seq<usize>)
    requires
        similar_node(a1, a2),
        path_valid(a1, path),
    ensures
        path_valid(a2, path),
        similar_node(node_at(a1, path), node_at(a2, path)),
    decreases path.len(),
{
    if path.len() > 0 {
        lemma_similar_shape(a1, a2);
        match a1 {
            AstNode::Sequence(v1) => {
                let v2 = a2->Sequence_0;
                lemma_similar_nodes_member(v1@, v2@, path[0] as int);
                lemma_node_at_similar(v1@[path[0] as int], v2@[path[0] as int], path.drop_first());
            },
            AstNode::Loop(v1) => {
                let v2 = a2->Loop_0;
                lemma_similar_nodes_member(v1@, v2@, path[0] as int);
                lemma_node_at_similar(v1@[path[0] as int], v2@[path[0] as int], path.drop_first());
            },
            _ => {},
        }
    }
}

/// Shape-equal trees advance a cursor the same way.
proof fn lemma_advance_similar(a1: AstNode, a2: AstNode, path: Seq<usize>)
    requires
        similar_node(a1, a2),
        path_valid(a1, path),
    ensures
        advance(a1, path) == advance(a2, path),
    decreases path.len(),
{
    if path.len() > 0 {
        lemma_path_drop_last(a1, path);
        lemma_node_at_similar(a1, a2, path.drop_last());
        lemma_similar_shape(node_at(a1, path.drop_last()), node_at(a2, path.drop_last()));
        let parent = node_at(a1, path.drop_last());
        let i = path.last();
        if !(i + 1 < body_of(parent).len()) && !(parent is Loop) {
            lemma_advance_similar(a1, a2, path.drop_last());
        }
    }
}

/// Shape-equal trees step a machine state identically.
proof fn lemma_step_similar(a1: AstNode, a2: AstNode, st: MachineState, b: u8)
    requires
        similar_node(a1, a2),
        path_valid(a1, st.frames),
    ensures
        step_spec(a1, st, b) == step_spec(a2, st, b),
{
    if !st.halted {
        lemma_node_at_similar(a1, a2, st.frames);
        lemma_advance_similar(a1, a2, st.frames);
        lemma_similar_shape(node_at(a1, st.frames), node_at(a2, st.frames));
    }
}

/// Running two parses of one program is deterministic: shape-equal,
/// input-free trees driven to completion from one starting state reach the
/// same outcome, whatever step counts led to them.
pub proof fn lemma_similar_runs_deterministic(
    a1: AstNode,
    a2: AstNode,
    st: MachineState,
    r1: Result<MachineState, int>,
    n1: nat,
    r2: Result<MachineState, int>,
    n2: nat,
)
    requires
        similar_node(a1, a2),
        steps_to(a1, st, r1, n1),
        steps_to(a2, st, r2, n2),
        path_valid(a1, st.frames),
        !reads_input(a1),
        r1 matches Ok(s) ==> s.halted,
        r2 matches Ok(s) ==> s.halted,
    ensures
        r1 == r2,
    decreases n1 + n2,
{
    if st.halted {
        // Both outcomes are the state itself.
    } else if n1 == 0 || n2 == 0 {
        // A finished outcome in zero steps means the state was halted.
    } else {
        lemma_steps_to_elim(a1, st, r1, n1);
        lemma_steps_to_elim(a2, st, r2, n2);
        let b1 = choose|b: u8|
            match #[trigger] step_spec(a1, st, b) {
                Ok(mid) => steps_to(a1, mid, r1, (n1 - 1) as nat),
                Err(p) => r1 == Err::<MachineState, int>(p),
            };
        let b2 = choose|b: u8|
            match #[trigger] step_spec(a2, st, b) {
                Ok(mid) => steps_to(a2, mid, r2, (n2 - 1) as nat),
                Err(p) => r2 == Err::<MachineState, int>(p),
            };
        lemma_no_input_at(a1, st.frames);
        lemma_node_at_similar(a1, a2, st.frames);
        lemma_similar_shape(node_at(a1, st.frames), node_at(a2, st.frames));
        lemma_step_oblivious(a1, st, b1, b2);
        lemma_step_oblivious(a2, st, b1, b2);
        lemma_step_similar(a1, a2, st, b1);
        match step_spec(a1, st, b1) {
            Ok(mid) => {
                lemma_step_valid(a1, st, b1);
                lemma_similar_runs_deterministic(
                    a1,
                    a2,
                    mid,
                    r1,
                    (n1 - 1) as nat,
                    r2,
                    (n2 - 1) as nat,
                );
            },
            Err(_) => {},
        }
    }
}

/// Parse followed by execute is deterministic. Any two parses of one token
/// sequence without input instructions, each driven to completion from the
/// same fresh state, reach the same outcome: the same final tape, pointer,
/// and output, or the same failure.
pub proof fn lemma_parse_execute_deterministic(
    tokens: Seq<Token>,
    a1: AstNode,
    a2: AstNode,
    st: MachineState,
    r1: Result<MachineState, int>,
    n1: nat,
    r2: Result<MachineState, int>,
    n2: nat,
)
    requires
        a1 matches AstNode::Sequence(v) && is_parse_of(tokens, 0, v@, tokens.len() as int),
        a2 matches AstNode::Sequence(v) && is_parse_of(tokens, 0, v@, tokens.len() as int),
        forall|j: int| 0 <= j < tokens.len() ==> !(#[trigger] tokens[j] is Input),
        steps_to(a1, st, r1, n1),
        steps_to(a2, st, r2, n2),
        st.frames.len() == 0,
        r1 matches Ok(s) ==> s.halted,
        r2 matches Ok(s) ==> s.halted,
    ensures
        r1 == r2,
{
    let v1 = a1->Sequence_0;
    let v2 = a2->Sequence_0;
    crate::parser::lemma_parse_unique(
        tokens,
        0,
        v1@,
        tokens.len() as int,
        v2@,
        tokens.len() as int,
    );
    crate::parser::lemma_parse_no_input(tokens, 0, v1@, tokens.len() as int);
    assert(similar_node(a1, a2));
    assert(!reads_input(a1));
    lemma_similar_runs_deterministic(a1, a2, st, r1, n1, r2, n2);
}

/// The state of a freshly created machine: an all-zero tape of `TAPE_LEN`
/// cells, the pointer at zero, no output, the cursor at the root, running.
pub open spec fn fresh_state() -> MachineState {
    MachineState {
        memory: Seq::new(TAPE_LEN as nat, |i: int| 0u8),
        pointer: 0,
        output: Seq::empty(),
        frames: Seq::empty(),
        halted: false,
    }
}

/// The interpreter: the current state of a Brainfuck machine.
pub struct Interpreter {
    memory: Vec<u8>,
    pointer: usize,
    output: Vec<u8>,
    frames: Vec<usize>,
    halted: bool,
}

impl View for Interpreter {
    type V = MachineState;

    closed spec fn view(&self) -> MachineState {
        MachineState {
            memory: self.memory@,
            pointer: self.pointer as nat,
            output: self.output@,
            frames: self.frames@,
            halted: self.halted,
        }
    }
}

/// Looks up the node that indices `d..upto` of `path` select, starting from
/// `node`.
fn node_at_upto<'a>(node: &'a AstNode, path: &Vec<usize>, d: usize, upto: usize) -> (r:
    &'a AstNode)
    requires
        d <= upto <= path@.len(),
        path_valid(*node, path@.subrange(d as int, upto as int)),
    ensures
        *r == node_at(*node, path@.subrange(d as int, upto as int)),
    decreases upto - d,
{
    proof {
        if d < upto {
            assert(path@.subrange(d as int, upto as int)[0] == path@[d as int]);
            assert(path@.subrange(d as int, upto as int).drop_first() =~= path@.subrange(
                d as int + 1,
                upto as int,
            ));
        }
    }
    if d == upto {
        node
    } else {
        match node {
            AstNode::Sequence(v) => node_at_upto(&v[path[d]], path, d + 1, upto),
            AstNode::Loop(v) => node_at_upto(&v[path[d]], path, d + 1, upto),
            _ => node,
        }
    }
}

impl Interpreter {
    /// The tape is long enough for the data pointer.
    pub open spec fn wf(&self) -> bool {
        self@.pointer < self@.memory.len()
    }

    /// Create a new Brainfuck machine with an all-zero tape, the pointer at
    /// zero, no output, and the cursor at the root of the program to come.
    pub fn new() -> (r: Interpreter)
        ensures
            r@.memory.len() == TAPE_LEN,
            forall|i: int| 0 <= i < TAPE_LEN ==> r@.memory[i] == 0,
            r@.pointer == 0,
            r@.output == Seq::<u8>::empty(),
            r@.frames == Seq::<usize>::empty(),
            !r@.halted,
            r@ == fresh_state(),
            r.wf(),
    {
        let r = Interpreter {
            memory: vec![0u8; TAPE_LEN],
            pointer: 0,
            output: Vec::new(),
            frames: Vec::new(),
            halted: false,
        };
        proof {
            assert(r@ =~= fresh_state());
        }
        r
    }

    /// Get the value at the provided memory location.
    pub fn memory(&self, pointer: usize) -> (r: u8)
        requires
            pointer < self@.memory.len(),
        ensures
            r == self@.memory[pointer as int],
    {
        self.memory[pointer]
    }

    /// The data pointer's current position.
    pub fn pointer(&self) -> (r: usize)
        ensures
            r == self@.pointer,
    {
        self.pointer
    }

    /// Everything the machine has output so far.
    pub fn output(&self) -> (r: &Vec<u8>)
        ensures
            r@ == self@.output,
    {
        &self.output
    }

    /// Whether the program has run to completion.
    pub fn halted(&self) -> (r: bool)
        ensures
            r == self@.halted,
    {
        self.halted
    }

    /// Moves the cursor to the node to execute next, halting the machine
    /// when the program is finished.
    fn advance_cursor(&mut self, ast: &AstNode)
        requires
            path_valid(*ast, old(self)@.frames),
            !old(self)@.halted,
        ensures
            final(self)@ == advanced(*ast, old(self)@),
            path_valid(*ast, final(self)@.frames),
    {
        loop
            invariant
                path_valid(*ast, self@.frames),
                !self@.halted,
                self@.memory == old(self)@.memory,
                self@.pointer == old(self)@.pointer,
                self@.output == old(self)@.output,
                advanced(*ast, old(self)@) == advanced(*ast, self@),
            decreases self@.frames.len(),
        {
            let flen = self.frames.len();
            if flen == 0 {
                self.halted = true;
                proof {
                    assert(self@.frames =~= Seq::<usize>::empty());
                    assert(self@ =~= advanced(*ast, old(self)@));
                }
                return;
            }
            proof {
                lemma_path_drop_last(*ast, self@.frames);
                assert(self@.frames.subrange(0, flen - 1) =~= self@.frames.drop_last());
            }
            let last = self.frames[flen - 1];
            let parent = node_at_upto(ast, &self.frames, 0, flen - 1);
            let blen = match parent {
                AstNode::Sequence(v) => v.len(),
                AstNode::Loop(v) => v.len(),
                _ => 0,
            };
            let ghost frames_before = self@.frames;
            if last + 1 < blen {
                self.frames.pop();
                self.frames.push(last + 1);
                proof {
                    assert(self@.frames =~= frames_before.drop_last().push((last + 1) as usize));
                    lemma_path_push(*ast, frames_before.drop_last(), (last + 1) as usize);
                    assert(self@ =~= advanced(*ast, old(self)@));
                }
                return;
            }
            let done_loop = matches!(parent, AstNode::Loop(_));
            self.frames.pop();
            proof {
                assert(self@.frames =~= frames_before.drop_last());
            }
            if done_loop {
                proof {
                    assert(self@ =~= advanced(*ast, old(self)@));
                }
                return;
            }
        }
    }

    /// Execute exactly one node of the program: the machine takes the step
    /// that [`step_spec`] describes. Returns whether the machine is still
    /// running, or the error that stopped it; an error leaves the state
    /// unchanged.
    pub fn step(&mut self, ast: &AstNode) -> (r: Result<bool, Error>)
        requires
            old(self).wf(),
            path_valid(*ast, old(self)@.frames),
        ensures
            final(self).wf(),
            path_valid(*ast, final(self)@.frames),
            final(self)@.memory.len() == old(self)@.memory.len(),
            match r {
                Ok(running) => running == !final(self)@.halted && exists|b: u8|
                    #[trigger] step_spec(*ast, old(self)@, b) == Ok::<MachineState, int>(
                        final(self)@,
                    ),
                Err(e) => final(self)@ == old(self)@ && match e {
                    Error::MemoryOutOfBounds { position } => forall|b: u8|
                        #[trigger] step_spec(*ast, old(self)@, b) == Err::<MachineState, int>(
                            position as int,
                        ),
                    Error::Io { .. } => node_at(*ast, old(self)@.frames) is Input
                        && !old(self)@.halted,
                    _ => false,
                },
            },
    {
        let ghost st0 = self@;
        if self.halted {
            proof {
                assert(step_spec(*ast, st0, 0u8) == Ok::<MachineState, int>(st0));
            }
            return Ok(false);
        }
        let flen = self.frames.len();
        proof {
            assert(self@.frames.subrange(0, flen as int) =~= self@.frames);
        }
        let cur = node_at_upto(ast, &self.frames, 0, flen);
        proof {
            lemma_step_valid(*ast, st0, 0u8);
        }
        match cur {
            AstNode::Sequence(v) => {
                if v.len() > 0 {
                    proof {
                        lemma_path_push(*ast, st0.frames, 0);
                    }
                    self.frames.push(0);
                    proof {
                        assert(self@ =~= (MachineState { frames: st0.frames.push(0), ..st0 }));
                    }
                } else {
                    self.advance_cursor(ast);
                }
                Ok(!self.halted)
            },
            AstNode::Loop(v) => {
                let cell = self.memory[self.pointer];
                if cell == 0 {
                    self.advance_cursor(ast);
                } else if v.len() > 0 {
                    proof {
                        lemma_path_push(*ast, st0.frames, 0);
                    }
                    self.frames.push(0);
                    proof {
                        assert(self@ =~= (MachineState { frames: st0.frames.push(0), ..st0 }));
                    }
                } else {
                    proof {
                        assert(self@ =~= st0);
                    }
                }
                Ok(!self.halted)
            },
            AstNode::Clear => {
                self.memory[self.pointer] = 0;
                let ghost mid = self@;
                proof {
                    assert(mid =~= (MachineState {
                        memory: st0.memory.update(st0.pointer as int, 0),
                        ..st0
                    }));
                }
                self.advance_cursor(ast);
                Ok(!self.halted)
            },
            AstNode::Right(n) => {
                let room = self.memory.len() - self.pointer;
                if *n < room {
                    self.pointer = self.pointer + *n;
                    let ghost mid = self@;
                    proof {
                        assert(mid =~= (MachineState { pointer: (st0.pointer + *n) as nat, ..st0 }));
                    }
                    self.advance_cursor(ast);
                    Ok(!self.halted)
                } else {
                    Err(Error::MemoryOutOfBounds { position: self.pointer })
                }
            },
            AstNode::Left(n) => {
                if *n <= self.pointer {
                    self.pointer = self.pointer - *n;
                    let ghost mid = self@;
                    proof {
                        assert(mid =~= (MachineState { pointer: (st0.pointer - *n) as nat, ..st0 }));
                    }
                    self.advance_cursor(ast);
                    Ok(!self.halted)
                } else {
                    Err(Error::MemoryOutOfBounds { position: self.pointer })
                }
            },
            AstNode::Increment(n) => {
                let cell = self.memory[self.pointer];
                let add = #[verifier::truncate] (*n as u8);
                self.memory[self.pointer] = cell.wrapping_add(add);
                let ghost mid = self@;
                proof {
                    lemma_wrap_add(cell, *n);
                    assert(mid =~= (MachineState {
                        memory: st0.memory.update(st0.pointer as int, ((cell + *n) % 256) as u8),
                        ..st0
                    }));
                }
                self.advance_cursor(ast);
                Ok(!self.halted)
            },
            AstNode::Decrement(n) => {
                let cell = self.memory[self.pointer];
                let sub = #[verifier::truncate] (*n as u8);
                self.memory[self.pointer] = cell.wrapping_sub(sub);
                let ghost mid = self@;
                proof {
                    lemma_wrap_sub(cell, *n);
                    assert(mid =~= (MachineState {
                        memory: st0.memory.update(st0.pointer as int, ((cell - *n) % 256) as u8),
                        ..st0
                    }));
                }
                self.advance_cursor(ast);
                Ok(!self.halted)
            },
            AstNode::Output => {
                let cell = self.memory[self.pointer];
                emit_byte(cell);
                self.output.push(cell);
                let ghost mid = self@;
                proof {
                    assert(mid =~= (MachineState { output: st0.output.push(cell), ..st0 }));
                }
                self.advance_cursor(ast);
                Ok(!self.halted)
            },
            AstNode::Input => {
                let b = match read_input_byte() {
                    Ok(b) => b,
                    Err(e) => {
                        return Err(Error::Io { internal: e });
                    },
                };
                self.memory[self.pointer] = b;
                self.output.push(b);
                let ghost mid = self@;
                proof {
                    assert(mid =~= (MachineState {
                        memory: st0.memory.update(st0.pointer as int, b),
                        output: st0.output.push(b),
                        ..st0
                    }));
                    lemma_step_valid(*ast, st0, b);
                }
                self.advance_cursor(ast);
                proof {
                    assert(step_spec(*ast, st0, b) == Ok::<MachineState, int>(self@));
                }
                Ok(!self.halted)
            },
        }
    }
}

impl Interpreter {
    /// Run the machine: take at most `steps` steps of [`step_spec`]. Returns
    /// whether the machine is still running (so a caller may keep driving it
    /// as long as it pleases: no iteration ceiling is imposed on the
    /// program), or the error that stopped it. A reply that the machine
    /// still runs means exactly `steps` steps were taken; an `Io` error
    /// means the cursor stands on an input node whose read failed, the
    /// machine left as the steps before it made it.
    pub fn run(&mut self, ast: &AstNode, steps: usize) -> (r: Result<bool, Error>)
        requires
            old(self).wf(),
            path_valid(*ast, old(self)@.frames),
        ensures
            final(self).wf(),
            path_valid(*ast, final(self)@.frames),
            match r {
                Ok(running) => running == !final(self)@.halted && exists|n: nat|
                    n <= steps && #[trigger] steps_to(
                        *ast,
                        old(self)@,
                        Ok::<MachineState, int>(final(self)@),
                        n,
                    ) && (running ==> n == steps),
                Err(e) => match e {
                    Error::MemoryOutOfBounds { position } => exists|n: nat|
                        n <= steps && #[trigger] steps_to(
                            *ast,
                            old(self)@,
                            Err::<MachineState, int>(position as int),
                            n,
                        ),
                    Error::Io { .. } => !final(self)@.halted && node_at(
                        *ast,
                        final(self)@.frames,
                    ) is Input && exists|n: nat|
                        n < steps && #[trigger] steps_to(
                            *ast,
                            old(self)@,
                            Ok::<MachineState, int>(final(self)@),
                            n,
                        ),
                    _ => false,
                },
            },
    {
        let ghost st0 = self@;
        let mut i: usize = 0;
        while i < steps
            invariant
                self.wf(),
                path_valid(*ast, self@.frames),
                i <= steps,
                st0 == old(self)@,
                steps_to(*ast, st0, Ok::<MachineState, int>(self@), i as nat),
            decreases steps - i,
        {
            if self.halted {
                return Ok(false);
            }
            let ghost pre = self@;
            match self.step(ast) {
                Ok(_) => {
                    proof {
                        let b = choose|b: u8|
                            step_spec(*ast, pre, b) == Ok::<MachineState, int>(self@);
                        lemma_steps_to_extend(*ast, st0, pre, self@, b, i as nat);
                    }
                },
                Err(e) => {
                    match e {
                        Error::MemoryOutOfBounds { position } => {
                            proof {
                                lemma_steps_to_extend_err(
                                    *ast,
                                    st0,
                                    pre,
                                    position as int,
                                    i as nat,
                                );
                            }
                            return Err(Error::MemoryOutOfBounds { position });
                        },
                        other => {
                            return Err(other);
                        },
                    }
                },
            }
            i = i + 1;
        }
        Ok(!self.halted)
    }
}

/// Cell increment wraps modulo 256; truncating the count first changes
/// nothing.
proof fn lemma_wrap_add(cell: u8, n: usize)
    ensures
        vstd::wrapping::u8_specs::wrapping_add(cell, (n as u8)) == ((cell + n) % 256) as u8,
{
    assert(n as u8 == n % 256) by (bit_vector);
    assert((cell + (n % 256)) % 256 == (cell + n) % 256) by {
        vstd::arithmetic::div_mod::lemma_add_mod_noop(cell as int, n as int, 256);
        vstd::arithmetic::div_mod::lemma_add_mod_noop(cell as int, (n % 256) as int, 256);
        vstd::arithmetic::div_mod::lemma_mod_twice(n as int, 256);
        vstd::arithmetic::div_mod::lemma_small_mod(cell as nat, 256);
    };
}

/// Cell decrement wraps modulo 256; truncating the count first changes
/// nothing.
proof fn lemma_wrap_sub(cell: u8, n: usize)
    ensures
        vstd::wrapping::u8_specs::wrapping_sub(cell, (n as u8)) == ((cell - n) % 256) as u8,
{
    assert(n as u8 == n % 256) by (bit_vector);
    assert((cell - (n % 256)) % 256 == (cell - n) % 256) by {
        vstd::arithmetic::div_mod::lemma_sub_mod_noop(cell as int, n as int, 256);
        vstd::arithmetic::div_mod::lemma_sub_mod_noop(cell as int, (n % 256) as int, 256);
        vstd::arithmetic::div_mod::lemma_mod_twice(n as int, 256);
        vstd::arithmetic::div_mod::lemma_small_mod(cell as nat, 256);
    };
}

/// Relies on `crossterm::terminal::enable_raw_mode`: switches the terminal
/// into raw mode so one keystroke can be read unbuffered; reports any
/// failure as an `std::io::Error`.
#[verifier::external_body]
fn raw_mode_enable() -> Result<(), std::io::Error> {
    crossterm::terminal::enable_raw_mode()
}

/// Relies on `crossterm::terminal::disable_raw_mode`: restores the
/// terminal's normal mode; reports any failure as an `std::io::Error`.
#[verifier::external_body]
fn raw_mode_disable() -> Result<(), std::io::Error> {
    crossterm::terminal::disable_raw_mode()
}

/// Relies on `std::io::Read::read_exact` on standard input: blocks until
/// exactly one byte arrives, and fails when the source is exhausted or
/// broken. Which byte arrives depends on the outside world, so nothing is
/// promised of the value.
#[verifier::external_body]
fn read_byte_stdin() -> Result<u8, std::io::Error> {
    let mut buffer = [0u8; 1];
    match std::io::stdin().read_exact(&mut buffer) {
        Ok(()) => Ok(buffer[0]),
        Err(e) => Err(e),
    }
}

/// Relies on `std::io::Stdout` and the `write!` macro: appends the byte, as
/// a character, to standard output. A failure of the sink is ignored here;
/// the contracts speak of the machine's own output record instead.
#[verifier::external_body]
fn emit_byte(b: u8) {
    let mut out = std::io::stdout();
    let _ = write!(out, "{}", b as char);
}

/// Read one byte from the interactive input source, in raw mode, echoing it:
/// raw mode is entered, one byte read, raw mode restored, and the byte
/// echoed. Any collaborator failure is handed back.
fn read_input_byte() -> Result<u8, std::io::Error> {
    match raw_mode_enable() {
        Ok(()) => {},
        Err(e) => {
            return Err(e);
        },
    }
    let b = match read_byte_stdin() {
        Ok(b) => b,
        Err(e) => {
            // Restore the terminal's mode even though the read failed; the
            // read's own error is the one reported.
            let _ = raw_mode_disable();
            return Err(e);
        },
    };
    match raw_mode_disable() {
        Ok(()) => {},
        Err(e) => {
            return Err(e);
        },
    }
    emit_byte(b);
    Ok(b)
}

} // verus!

