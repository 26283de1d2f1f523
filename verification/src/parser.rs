//! Parsing a sequence of Brainfuck tokens into an abstract syntax tree.
//!
//! The parse result is pinned down by the relational specification
//! [`is_parse_of`]: a loop node's body comes from the token span strictly
//! between a matched `LoopStart`/`LoopEnd` pair, and parsing fails with
//! `UnmatchedBracket` exactly when a bracket has no partner.

use vstd::prelude::*;

use crate::error::Error;
use crate::lexer::Token;

verus! {

/// A node in a Brainfuck program's AST.
#[derive(Debug)]
pub enum AstNode {
    Sequence(Vec<AstNode>),
    Loop(Vec<AstNode>),
    Clear,
    Right(usize),
    Left(usize),
    Increment(usize),
    Decrement(usize),
    Output,
    Input,
}

/// The node that a single non-bracket token parses to.
pub open spec fn token_node(t: Token) -> AstNode {
    match t {
        Token::Right(n) => AstNode::Right(n),
        Token::Left(n) => AstNode::Left(n),
        Token::Increment(n) => AstNode::Increment(n),
        Token::Decrement(n) => AstNode::Decrement(n),
        Token::Output => AstNode::Output,
        Token::Input => AstNode::Input,
        Token::Clear => AstNode::Clear,
        Token::LoopStart => arbitrary(),
        Token::LoopEnd => arbitrary(),
    }
}

/// The first position at or after `i` holding a `LoopEnd` that closes `depth`
/// many pending `LoopStart`s, or `None` when no such position exists.
///
/// `find_match(tokens, i + 1, 0)` is the position of the `LoopEnd` matching a
/// `LoopStart` at position `i`.
pub open spec fn find_match(tokens: Seq<Token>, i: int, depth: nat) -> Option<int>
    decreases tokens.len() - i,
{
    if i < 0 || i >= tokens.len() {
        None
    } else {
        match tokens[i] {
            Token::LoopEnd => if depth == 0 {
                Some(i)
            } else {
                find_match(tokens, i + 1, (depth - 1) as nat)
            },
            Token::LoopStart => find_match(tokens, i + 1, depth + 1),
            _ => find_match(tokens, i + 1, depth),
        }
    }
}

/// A found match lies within the sequence, at or after the start of the
/// search, and is a `LoopEnd`.
pub proof fn lemma_find_match_props(tokens: Seq<Token>, i: int, depth: nat)
    ensures
        find_match(tokens, i, depth) matches Some(m) ==> i <= m < tokens.len()
            && tokens[m] is LoopEnd,
    decreases tokens.len() - i,
{
    if 0 <= i < tokens.len() {
        match tokens[i] {
            Token::LoopEnd => {
                if depth != 0 {
                    lemma_find_match_props(tokens, i + 1, (depth - 1) as nat);
                }
            },
            Token::LoopStart => {
                lemma_find_match_props(tokens, i + 1, depth + 1);
            },
            _ => {
                lemma_find_match_props(tokens, i + 1, depth);
            },
        }
    }
}

/// Searching one level deeper continues the search just past the match of
/// the current level.
pub proof fn lemma_find_match_shift(tokens: Seq<Token>, i: int, depth: nat)
    ensures
        find_match(tokens, i, depth + 1) == (match find_match(tokens, i, depth) {
            Some(m) => find_match(tokens, m + 1, 0),
            None => None::<int>,
        }),
    decreases tokens.len() - i,
{
    if 0 <= i < tokens.len() {
        match tokens[i] {
            Token::LoopEnd => {
                if depth != 0 {
                    lemma_find_match_shift(tokens, i + 1, (depth - 1) as nat);
                }
            },
            Token::LoopStart => {
                lemma_find_match_shift(tokens, i + 1, depth + 1);
            },
            _ => {
                lemma_find_match_shift(tokens, i + 1, depth);
            },
        }
    }
}

/// Whether parsing a sequence starting at position `i` succeeds.
///
/// Parsing stops without consuming a `LoopEnd` at the current nesting level;
/// it fails exactly when some `LoopStart` has no matching `LoopEnd`.
pub open spec fn parse_seq_ok(tokens: Seq<Token>, i: int) -> bool
    decreases tokens.len() - i,
{
    if i < 0 || i >= tokens.len() {
        true
    } else {
        match tokens[i] {
            Token::LoopEnd => true,
            Token::LoopStart => match find_match(tokens, i + 1, 0) {
                Some(m) => if i + 1 <= m && m < tokens.len() {
                    parse_seq_ok(tokens, i + 1) && parse_seq_ok(tokens, m + 1)
                } else {
                    false
                },
                None => false,
            },
            _ => parse_seq_ok(tokens, i + 1),
        }
    }
}

/// The position where parsing a sequence starting at `i` stops: the first
/// `LoopEnd` at the current nesting level, or the end of the tokens.
pub open spec fn parse_stop(tokens: Seq<Token>, i: int) -> int {
    match find_match(tokens, i, 0) {
        Some(m) => m,
        None => tokens.len() as int,
    }
}

/// `nodes` is exactly the sequence of AST nodes that parsing `tokens` from
/// position `i` up to its stopping position `stop` produces.
pub open spec fn is_parse_of(tokens: Seq<Token>, i: int, nodes: Seq<AstNode>, stop: int) -> bool
    decreases tokens.len() - i,
{
    if i < 0 {
        false
    } else if i >= tokens.len() {
        nodes == Seq::<AstNode>::empty() && stop == tokens.len()
    } else {
        match tokens[i] {
            Token::LoopEnd => nodes == Seq::<AstNode>::empty() && stop == i,
            Token::LoopStart => match find_match(tokens, i + 1, 0) {
                Some(m) => if i + 1 <= m && m < tokens.len() {
                    nodes.len() > 0
                        && (nodes[0] matches AstNode::Loop(body)
                            && is_parse_of(tokens, i + 1, body@, m))
                        && is_parse_of(tokens, m + 1, nodes.drop_first(), stop)
                } else {
                    false
                },
                None => false,
            },
            _ => nodes.len() > 0 && nodes[0] == token_node(tokens[i])
                && is_parse_of(tokens, i + 1, nodes.drop_first(), stop),
        }
    }
}

/// Whether parsing the whole token sequence fails, and if so at which
/// reported position: the first `LoopEnd` with no earlier partner, or the end
/// of the sequence when some `LoopStart` is left unterminated.
pub open spec fn parse_error(tokens: Seq<Token>) -> Option<int> {
    if !parse_seq_ok(tokens, 0) {
        Some(tokens.len() as int)
    } else if parse_stop(tokens, 0) != tokens.len() {
        Some(parse_stop(tokens, 0))
    } else {
        None
    }
}

/// `ast` is the tree that a successful parse of the whole token sequence
/// produces: a top-level `Sequence` node whose children parse the tokens.
pub open spec fn parsed_root(tokens: Seq<Token>, ast: AstNode) -> bool {
    ast matches AstNode::Sequence(v) && is_parse_of(tokens, 0, v@, tokens.len() as int)
}

/// Parses one sequence of nodes starting at `*start`, stopping at the end of
/// the tokens or at a `LoopEnd` belonging to the caller (which it does not
/// consume).
fn parse_sequence(tokens: &[Token], start: &mut usize) -> (r: Result<Vec<AstNode>, Error>)
    requires
        *old(start) <= tokens@.len(),
    ensures
        *old(start) <= *final(start) <= tokens@.len(),
        match r {
            Ok(nodes) => parse_seq_ok(tokens@, *old(start) as int)
                && *final(start) as int == parse_stop(tokens@, *old(start) as int)
                && is_parse_of(tokens@, *old(start) as int, nodes@, *final(start) as int),
            Err(e) => !parse_seq_ok(tokens@, *old(start) as int)
                && e == (Error::UnmatchedBracket { position: tokens@.len() as usize })
                && *final(start) == tokens@.len(),
        },
    decreases tokens@.len() - *old(start),
{
    let ghost s0 = *start as int;
    let n = tokens.len();
    if *start >= n {
        return Ok(Vec::new());
    }
    let t = tokens[*start];
    match t {
        Token::LoopEnd => Ok(Vec::new()),
        Token::LoopStart => {
            *start = *start + 1;
            let body = match parse_sequence(tokens, start) {
                Ok(b) => b,
                Err(e) => {
                    return Err(e);
                },
            };
            proof {
                lemma_find_match_props(tokens@, s0 + 1, 0);
            }
            if *start >= n {
                // The inner sequence ran to the end of the tokens: the
                // `LoopStart` at `s0` has no matching `LoopEnd`.
                return Err(Error::UnmatchedBracket { position: *start });
            }
            let ghost m = *start as int;
            proof {
                lemma_find_match_shift(tokens@, s0 + 1, 0);
            }
            *start = *start + 1;
            let rest = match parse_sequence(tokens, start) {
                Ok(r) => r,
                Err(e) => {
                    return Err(e);
                },
            };
            let ghost rest0 = rest@;
            let mut nodes = rest;
            nodes.insert(0, AstNode::Loop(body));
            proof {
                assert(nodes@.drop_first() =~= rest0);
            }
            Ok(nodes)
        },
        _ => {
            let node = match t {
                Token::Right(k) => AstNode::Right(k),
                Token::Left(k) => AstNode::Left(k),
                Token::Increment(k) => AstNode::Increment(k),
                Token::Decrement(k) => AstNode::Decrement(k),
                Token::Output => AstNode::Output,
                Token::Input => AstNode::Input,
                _ => AstNode::Clear,
            };
            *start = *start + 1;
            let rest = match parse_sequence(tokens, start) {
                Ok(r) => r,
                Err(e) => {
                    return Err(e);
                },
            };
            let ghost rest0 = rest@;
            let mut nodes = rest;
            nodes.insert(0, node);
            proof {
                assert(nodes@.drop_first() =~= rest0);
            }
            Ok(nodes)
        },
    }
}

/// Two trees of the same shape: the same variants with the same counts, and
/// children of the same shape. Two parses of one token sequence agree up to
/// this relation (they may differ as owned values, never in shape).
pub open spec fn similar_node(a: AstNode, b: AstNode) -> bool
    decreases a, 0nat,
{
    match (a, b) {
        (AstNode::Sequence(x), AstNode::Sequence(y)) => similar_nodes(x@, y@),
        (AstNode::Loop(x), AstNode::Loop(y)) => similar_nodes(x@, y@),
        _ => a == b,
    }
}

/// Two node sequences of the same shape, element by element.
pub open spec fn similar_nodes(x: Seq<AstNode>, y: Seq<AstNode>) -> bool
    decreases x, 1nat,
{
    x.len() == y.len() && (x.len() == 0 || (similar_node(x[0], y[0]) && similar_nodes(
        x.subrange(1, x.len() as int),
        y.subrange(1, y.len() as int),
    )))
}

/// Shape-equal sequences are shape-equal member by member.
pub proof fn lemma_similar_nodes_member(x: Seq<AstNode>, y: Seq<AstNode>, i: int)
    requires
        similar_nodes(x, y),
        0 <= i < x.len(),
    ensures
        similar_node(x[i], y[i]),
    decreases x.len(),
{
    if i > 0 {
        let xs = x.subrange(1, x.len() as int);
        let ys = y.subrange(1, y.len() as int);
        assert(xs[i - 1] == x[i]);
        assert(ys[i - 1] == y[i]);
        lemma_similar_nodes_member(xs, ys, i - 1);
    }
}

/// Every tree has its own shape.
pub proof fn lemma_similar_node_refl(a: AstNode)
    ensures
        similar_node(a, a),
    decreases a, 0nat,
{
    match a {
        AstNode::Sequence(v) => lemma_similar_nodes_refl(v@),
        AstNode::Loop(v) => lemma_similar_nodes_refl(v@),
        _ => {},
    }
}

/// Every node sequence has its own shape.
pub proof fn lemma_similar_nodes_refl(x: Seq<AstNode>)
    ensures
        similar_nodes(x, x),
    decreases x, 1nat,
{
    if x.len() > 0 {
        lemma_similar_node_refl(x[0]);
        lemma_similar_nodes_refl(x.subrange(1, x.len() as int));
    }
}

/// The parse of a token span is unique: any two node sequences that
/// [`is_parse_of`] admits for the same span stop at the same position and
/// have the same shape.
pub proof fn lemma_parse_unique(
    tokens: Seq<Token>,
    i: int,
    ns1: Seq<AstNode>,
    p1: int,
    ns2: Seq<AstNode>,
    p2: int,
)
    requires
        is_parse_of(tokens, i, ns1, p1),
        is_parse_of(tokens, i, ns2, p2),
    ensures
        p1 == p2,
        similar_nodes(ns1, ns2),
    decreases tokens.len() - i,
{
    if 0 <= i < tokens.len() {
        match tokens[i] {
            Token::LoopEnd => {
                assert(similar_nodes(ns1, ns2));
            },
            Token::LoopStart => {
                match find_match(tokens, i + 1, 0) {
                    Some(m) => {
                        let b1 = ns1[0]->Loop_0;
                        let b2 = ns2[0]->Loop_0;
                        lemma_parse_unique(tokens, i + 1, b1@, m, b2@, m);
                        lemma_parse_unique(
                            tokens,
                            m + 1,
                            ns1.drop_first(),
                            p1,
                            ns2.drop_first(),
                            p2,
                        );
                        assert(ns1.subrange(1, ns1.len() as int) =~= ns1.drop_first());
                        assert(ns2.subrange(1, ns2.len() as int) =~= ns2.drop_first());
                        assert(similar_node(ns1[0], ns2[0]));
                        assert(similar_nodes(ns1, ns2));
                    },
                    None => {},
                }
            },
            _ => {
                lemma_parse_unique(tokens, i + 1, ns1.drop_first(), p1, ns2.drop_first(), p2);
                assert(ns1.subrange(1, ns1.len() as int) =~= ns1.drop_first());
                assert(ns2.subrange(1, ns2.len() as int) =~= ns2.drop_first());
                lemma_similar_node_refl(ns1[0]);
                assert(similar_node(ns1[0], ns2[0]));
                assert(similar_nodes(ns1, ns2));
            },
        }
    } else {
        assert(similar_nodes(ns1, ns2));
    }
}

/// Whether the program holds an input instruction anywhere.
pub open spec fn reads_input(node: AstNode) -> bool
    decreases node, 0nat,
{
    match node {
        AstNode::Input => true,
        AstNode::Sequence(v) => seq_reads_input(v@),
        AstNode::Loop(v) => seq_reads_input(v@),
        _ => false,
    }
}

/// Whether any node of the sequence holds an input instruction.
pub open spec fn seq_reads_input(nodes: Seq<AstNode>) -> bool
    decreases nodes, 1nat,
{
    nodes.len() > 0 && (reads_input(nodes[0]) || seq_reads_input(
        nodes.subrange(1, nodes.len() as int),
    ))
}

/// A member of an input-free sequence is input-free.
pub proof fn lemma_seq_reads_member(nodes: Seq<AstNode>, i: int)
    requires
        !seq_reads_input(nodes),
        0 <= i < nodes.len(),
    ensures
        !reads_input(nodes[i]),
    decreases nodes.len(),
{
    if i > 0 {
        let rest = nodes.subrange(1, nodes.len() as int);
        assert(rest[i - 1] == nodes[i]);
        lemma_seq_reads_member(rest, i - 1);
    }
}

/// A non-bracket token other than `Input` parses to a node without input.
proof fn lemma_token_node_no_input(t: Token)
    requires
        !(t is Input),
        !(t is LoopStart),
        !(t is LoopEnd),
    ensures
        !reads_input(token_node(t)),
{
    match t {
        Token::Right(_) => {},
        Token::Left(_) => {},
        Token::Increment(_) => {},
        Token::Decrement(_) => {},
        Token::Output => {},
        Token::Input => {},
        Token::LoopStart => {},
        Token::LoopEnd => {},
        Token::Clear => {},
    }
}

/// A parse of a token sequence without `Input` tokens holds no input node.
pub proof fn lemma_parse_no_input(tokens: Seq<Token>, i: int, nodes: Seq<AstNode>, stop: int)
    requires
        is_parse_of(tokens, i, nodes, stop),
        forall|j: int| 0 <= j < tokens.len() ==> !(#[trigger] tokens[j] is Input),
    ensures
        !seq_reads_input(nodes),
    decreases tokens.len() - i,
{
    if 0 <= i < tokens.len() {
        match tokens[i] {
            Token::LoopEnd => {
                assert(!seq_reads_input(nodes));
            },
            Token::LoopStart => {
                match find_match(tokens, i + 1, 0) {
                    Some(m) => {
                        let b = nodes[0]->Loop_0;
                        lemma_parse_no_input(tokens, i + 1, b@, m);
                        lemma_parse_no_input(tokens, m + 1, nodes.drop_first(), stop);
                        assert(nodes.subrange(1, nodes.len() as int) =~= nodes.drop_first());
                        assert(!reads_input(nodes[0]));
                        assert(!seq_reads_input(nodes));
                    },
                    None => {},
                }
            },
            _ => {
                lemma_parse_no_input(tokens, i + 1, nodes.drop_first(), stop);
                assert(nodes.subrange(1, nodes.len() as int) =~= nodes.drop_first());
                lemma_token_node_no_input(tokens[i]);
                assert(!reads_input(nodes[0]));
                assert(!seq_reads_input(nodes));
            },
        }
    } else {
        assert(!seq_reads_input(nodes));
    }
}

/// One rendered line: an indentation prefix, a label, and a newline.
pub open spec fn line_of(prefix: Seq<char>, label: Seq<char>) -> Seq<char> {
    prefix + label + seq!['\n']
}

/// One rendered line for a counted variant: the label with the count in
/// parentheses.
pub open spec fn counted_of(prefix: Seq<char>, label: Seq<char>, n: nat) -> Seq<char> {
    prefix + label + seq!['('] + crate::text::dec_str(n) + seq![')'] + seq!['\n']
}

/// The diagnostic rendering of a node: one line per node, labeled by the
/// variant's name (counted variants with their count in parentheses), each
/// child indented two spaces deeper than its parent.
pub open spec fn render_node(node: AstNode, prefix: Seq<char>) -> Seq<char>
    decreases node, 0nat,
{
    match node {
        AstNode::Sequence(v) => line_of(prefix, "Sequence"@) + render_nodes(
            v@,
            prefix + seq![' ', ' '],
        ),
        AstNode::Loop(v) => line_of(prefix, "Loop"@) + render_nodes(v@, prefix + seq![' ', ' ']),
        AstNode::Clear => line_of(prefix, "Clear"@),
        AstNode::Right(n) => counted_of(prefix, "Right"@, n as nat),
        AstNode::Left(n) => counted_of(prefix, "Left"@, n as nat),
        AstNode::Increment(n) => counted_of(prefix, "Increment"@, n as nat),
        AstNode::Decrement(n) => counted_of(prefix, "Decrement"@, n as nat),
        AstNode::Output => line_of(prefix, "Output"@),
        AstNode::Input => line_of(prefix, "Input"@),
    }
}

/// The renderings of the nodes of a sequence, one after the other.
pub open spec fn render_nodes(nodes: Seq<AstNode>, prefix: Seq<char>) -> Seq<char>
    decreases nodes, 1nat,
{
    if nodes.len() == 0 {
        Seq::empty()
    } else {
        render_node(nodes[0], prefix) + render_nodes(
            nodes.subrange(1, nodes.len() as int),
            prefix,
        )
    }
}

/// Appends one rendered line to `out`.
fn push_line(out: &mut String, prefix: &String, label: &str)
    ensures
        final(out)@ == old(out)@ + line_of(prefix@, label@),
{
    out.append(prefix.as_str());
    out.append(label);
    out.append("\n");
    proof {
        reveal_strlit("\n");
        assert(out@ =~= old(out)@ + line_of(prefix@, label@));
    }
}

/// Appends one rendered line for a counted variant to `out`.
fn push_counted(out: &mut String, prefix: &String, label: &str, n: usize)
    ensures
        final(out)@ == old(out)@ + counted_of(prefix@, label@, n as nat),
{
    out.append(prefix.as_str());
    out.append(label);
    out.append("(");
    let num = crate::text::usize_string(n);
    out.append(num.as_str());
    out.append(")\n");
    proof {
        reveal_strlit("(");
        reveal_strlit(")\n");
        assert(out@ =~= old(out)@ + counted_of(prefix@, label@, n as nat));
    }
}

/// Appends the rendering of one node to `out`.
fn render_into(node: &AstNode, prefix: &String, out: &mut String)
    ensures
        final(out)@ == old(out)@ + render_node(*node, prefix@),
    decreases *node, 0nat, 0nat,
{
    match node {
        AstNode::Sequence(v) => {
            push_line(out, prefix, "Sequence");
            let mut deeper = prefix.clone();
            deeper.append("  ");
            proof {
                reveal_strlit("  ");
                assert(deeper@ =~= prefix@ + seq![' ', ' ']);
            }
            render_nodes_into(v, 0, &deeper, out);
            proof {
                assert(v@.subrange(0, v@.len() as int) =~= v@);
                assert(out@ =~= old(out)@ + render_node(*node, prefix@));
            }
        },
        AstNode::Loop(v) => {
            push_line(out, prefix, "Loop");
            let mut deeper = prefix.clone();
            deeper.append("  ");
            proof {
                reveal_strlit("  ");
                assert(deeper@ =~= prefix@ + seq![' ', ' ']);
            }
            render_nodes_into(v, 0, &deeper, out);
            proof {
                assert(v@.subrange(0, v@.len() as int) =~= v@);
                assert(out@ =~= old(out)@ + render_node(*node, prefix@));
            }
        },
        AstNode::Clear => push_line(out, prefix, "Clear"),
        AstNode::Right(n) => push_counted(out, prefix, "Right", *n),
        AstNode::Left(n) => push_counted(out, prefix, "Left", *n),
        AstNode::Increment(n) => push_counted(out, prefix, "Increment", *n),
        AstNode::Decrement(n) => push_counted(out, prefix, "Decrement", *n),
        AstNode::Output => push_line(out, prefix, "Output"),
        AstNode::Input => push_line(out, prefix, "Input"),
    }
}

/// Appends the renderings of the nodes from index `i` on to `out`.
fn render_nodes_into(nodes: &Vec<AstNode>, i: usize, prefix: &String, out: &mut String)
    requires
        i <= nodes@.len(),
    ensures
        final(out)@ == old(out)@ + render_nodes(
            nodes@.subrange(i as int, nodes@.len() as int),
            prefix@,
        ),
    decreases *nodes, 1nat, nodes@.len() - i,
{
    let n = nodes.len();
    if i < n {
        render_into(&nodes[i], prefix, out);
        render_nodes_into(nodes, i + 1, prefix, out);
        proof {
            let tail = nodes@.subrange(i as int, n as int);
            assert(tail[0] == nodes@[i as int]);
            assert(tail.subrange(1, tail.len() as int) =~= nodes@.subrange(i as int + 1, n as int));
            assert(out@ =~= old(out)@ + render_nodes(tail, prefix@));
        }
    } else {
        proof {
            assert(nodes@.subrange(i as int, nodes@.len() as int) =~= Seq::<AstNode>::empty());
        }
    }
}

impl AstNode {
    /// The indented, one-node-per-line textual rendering of the tree, for
    /// diagnostics: each node on its own line, labeled by variant name (with
    /// the count in parentheses for counted variants), children two spaces
    /// deeper than their parent.
    pub fn render(&self) -> (r: String)
        ensures
            r@ == render_node(*self, Seq::<char>::empty()),
    {
        let prefix = String::new();
        let mut out = String::new();
        render_into(self, &prefix, &mut out);
        proof {
            assert(out@ =~= render_node(*self, prefix@));
        }
        out
    }
}

/// Parse a slice of tokens into an AST.
///
/// The result of a successful parse is a single top-level `Sequence` node.
/// The parse fails with `UnmatchedBracket` exactly when a bracket has no
/// partner: a stray `LoopEnd` reports its own position, and an unterminated
/// `LoopStart` reports a position at the end of the token sequence.
pub fn parse(tokens: &[Token]) -> (r: Result<AstNode, Error>)
    ensures
        match r {
            Ok(ast) => parse_error(tokens@) is None
                && (ast matches AstNode::Sequence(nodes)
                    && is_parse_of(tokens@, 0, nodes@, tokens@.len() as int)),
            Err(e) => e matches Error::UnmatchedBracket { position } && parse_error(tokens@)
                == Some(position as int),
        },
{
    let mut position: usize = 0;
    let nodes = match parse_sequence(tokens, &mut position) {
        Ok(nodes) => nodes,
        Err(e) => {
            return Err(e);
        },
    };
    if position != tokens.len() {
        return Err(Error::UnmatchedBracket { position });
    }
    Ok(AstNode::Sequence(nodes))
}

} // verus!
