//! Lowering of a syntax tree into a flat opcode sequence.
//!
//! Runs of adjacent identical move or arithmetic instructions fold into one
//! counted opcode (comparing only against the most recently emitted opcode,
//! so folding never crosses a write, read or loop boundary). A loop lowers to
//! a conditional forward jump, its flattened body, and a conditional backward
//! jump; the targets are absolute indices, normalised by the nesting depth so
//! that one jump opcode per enclosing loop level is accounted for when the
//! body is spliced into its ancestors.

use crate::parser::{ast_view, instr_view, lemma_ast_view_rec, Ast, Instruction, Node};
use vstd::prelude::*;

verus! {

/// One flat instruction. Move and arithmetic opcodes carry a fold count;
/// jump opcodes carry an absolute target index into the same sequence.
#[derive(Clone, Copy, Debug, PartialEq)]
pub enum Opcode {
    MoveLeft(usize),
    MoveRight(usize),
    Add(u8),
    Sub(u8),
    Write,
    Read,
    JumpIfZero(usize),
    JumpUnlessZero(usize),
}

/// A whole flat program.
pub type Program = Vec<Opcode>;

/// One more than `n`, wrapping to zero at the byte bound.
pub open spec fn wrap_inc_u8(n: u8) -> u8 {
    if n == u8::MAX {
        0
    } else {
        (n + 1) as u8
    }
}

/// One more than `n`, wrapping to zero at the machine-word bound.
pub open spec fn wrap_inc_usize(n: usize) -> usize {
    if n == usize::MAX {
        0
    } else {
        (n + 1) as usize
    }
}

/// The opcode sequence after emitting one node behind `prog`, at `depth`
/// enclosing loops. A move or arithmetic node folds into the last opcode when
/// that opcode has the same kind; a loop emits its jump pair around its
/// flattened body.
pub open spec fn emit_node(prog: Seq<Opcode>, node: Node, depth: int) -> Seq<Opcode>
    decreases node, 0int,
{
    match node {
        Node::MoveRight => if prog.len() > 0 && (prog.last() matches Opcode::MoveRight(_)) {
            prog.update(prog.len() - 1, Opcode::MoveRight(wrap_inc_usize(prog.last()->MoveRight_0)))
        } else {
            prog.push(Opcode::MoveRight(1))
        },
        Node::MoveLeft => if prog.len() > 0 && (prog.last() matches Opcode::MoveLeft(_)) {
            prog.update(prog.len() - 1, Opcode::MoveLeft(wrap_inc_usize(prog.last()->MoveLeft_0)))
        } else {
            prog.push(Opcode::MoveLeft(1))
        },
        Node::Increment => if prog.len() > 0 && (prog.last() matches Opcode::Add(_)) {
            prog.update(prog.len() - 1, Opcode::Add(wrap_inc_u8(prog.last()->Add_0)))
        } else {
            prog.push(Opcode::Add(1))
        },
        Node::Decrement => if prog.len() > 0 && (prog.last() matches Opcode::Sub(_)) {
            prog.update(prog.len() - 1, Opcode::Sub(wrap_inc_u8(prog.last()->Sub_0)))
        } else {
            prog.push(Opcode::Sub(1))
        },
        Node::Write => prog.push(Opcode::Write),
        Node::Read => prog.push(Opcode::Read),
        Node::Loop(body) => {
            let inner = gen_from(body, 0, depth + 1, Seq::empty());
            prog.push(Opcode::JumpIfZero(((prog.len() + inner.len() + depth + 1)) as usize))
                + inner + seq![Opcode::JumpUnlessZero(((prog.len() + depth)) as usize)]
        },
    }
}

/// The opcode sequence after emitting the nodes of `ast` from position `k`
/// on, behind the already emitted `prog`.
pub open spec fn gen_from(ast: Seq<Node>, k: int, depth: int, prog: Seq<Opcode>) -> Seq<Opcode>
    decreases ast, ast.len() - k,
{
    if k < 0 || k >= ast.len() {
        prog
    } else {
        gen_from(ast, k + 1, depth, emit_node(prog, ast[k], depth))
    }
}

/// The flat program a tree generates at a given nesting depth.
pub open spec fn spec_codegen(ast: Seq<Node>, depth: int) -> Seq<Opcode> {
    gen_from(ast, 0, depth, Seq::empty())
}

/// An upper bound on the opcodes one node can emit: one for a leaf, the jump
/// pair plus the body's bound for a loop.
pub open spec fn node_weight(n: Node) -> nat
    decreases n, 0int,
{
    match n {
        Node::Loop(body) => 2 + ast_weight_from(body, 0),
        _ => 1,
    }
}

/// The summed weight of the nodes of `s` from position `k` on.
pub open spec fn ast_weight_from(s: Seq<Node>, k: int) -> nat
    decreases s, s.len() - k,
{
    if k < 0 || k >= s.len() {
        0
    } else {
        node_weight(s[k]) + ast_weight_from(s, k + 1)
    }
}

/// An upper bound on the length of the program a tree generates.
pub open spec fn ast_weight(s: Seq<Node>) -> nat {
    ast_weight_from(s, 0)
}

/// The weight of a tail never exceeds the weight of the sequence.
pub proof fn lemma_weight_from_mono(s: Seq<Node>, j: int, k: int)
    requires
        0 <= j <= k <= s.len(),
    ensures
        ast_weight_from(s, k) <= ast_weight_from(s, j),
    decreases k - j,
{
    if j < k {
        lemma_weight_from_mono(s, j + 1, k);
    }
}

/// Emitting one node adds at most its weight to the program.
pub proof fn lemma_emit_len(prog: Seq<Opcode>, node: Node, depth: int)
    ensures
        prog.len() <= emit_node(prog, node, depth).len() <= prog.len() + node_weight(node),
    decreases node, 0int,
{
    match node {
        Node::Loop(body) => {
            lemma_gen_from_len(body, 0, depth + 1, Seq::empty());
        },
        _ => {},
    }
}

/// Emitting the nodes from position `k` on adds at most their summed weight.
pub proof fn lemma_gen_from_len(ast: Seq<Node>, k: int, depth: int, prog: Seq<Opcode>)
    ensures
        prog.len() <= gen_from(ast, k, depth, prog).len() <= prog.len() + ast_weight_from(ast, k),
    decreases ast, ast.len() - k,
{
    if 0 <= k < ast.len() {
        lemma_emit_len(prog, ast[k], depth);
        lemma_gen_from_len(ast, k + 1, depth, emit_node(prog, ast[k], depth));
    }
}

/// Lowers a whole tree: the instruction sequence a parsed program generates.
pub fn codegen(ast: Ast) -> (r: Program)
    requires
        ast_weight(ast_view(ast@)) <= usize::MAX,
    ensures
        r@ == spec_codegen(ast_view(ast@), 0),
{
    codegen_at_depth(ast, 0)
}

/// Lowers a tree that stands below `depth` enclosing loops.
pub fn codegen_at_depth(ast: Ast, depth: usize) -> (r: Program)
    requires
        depth + ast_weight(ast_view(ast@)) <= usize::MAX,
    ensures
        r@ == spec_codegen(ast_view(ast@), depth as int),
{
    gen_ast(&ast, depth)
}

/// The lowering walk itself: appends what each instruction emits, recursing
/// into loop bodies one depth further down.
fn gen_ast(ast: &Vec<Instruction>, depth: usize) -> (r: Program)
    requires
        depth + ast_weight(ast_view(ast@)) <= usize::MAX,
    ensures
        r@ == spec_codegen(ast_view(ast@), depth as int),
    decreases ast_weight(ast_view(ast@)),
{
    let ghost nodes = ast_view(ast@);
    proof {
        lemma_ast_view_rec(ast@, 0);
    }
    let mut program: Program = Vec::new();
    let n = ast.len();
    let mut i: usize = 0;
    while i < n
        invariant
            n == ast@.len(),
            i <= n,
            nodes == ast_view(ast@),
            nodes.len() == n,
            forall|j: int| 0 <= j < n ==> nodes[j] == instr_view(ast@[j]),
            depth + ast_weight(nodes) <= usize::MAX,
            program@.len() + ast_weight_from(nodes, i as int) <= ast_weight(nodes),
            gen_from(nodes, i as int, depth as int, program@) == spec_codegen(nodes, depth as int),
        decreases n - i,
    {
        let ghost prog0 = program@;
        proof {
            lemma_weight_from_mono(nodes, 0, i as int);
        }
        match &ast[i] {
            Instruction::MoveRight => {
                let m = program.len();
                if m > 0 {
                    let prev = program[m - 1];
                    match prev {
                        Opcode::MoveRight(k) => {
                            let kk = if k == usize::MAX { 0 } else { k + 1 };
                            program[m - 1] = Opcode::MoveRight(kk);
                        },
                        _ => {
                            program.push(Opcode::MoveRight(1));
                        },
                    }
                } else {
                    program.push(Opcode::MoveRight(1));
                }
            },
            Instruction::MoveLeft => {
                let m = program.len();
                if m > 0 {
                    let prev = program[m - 1];
                    match prev {
                        Opcode::MoveLeft(k) => {
                            let kk = if k == usize::MAX { 0 } else { k + 1 };
                            program[m - 1] = Opcode::MoveLeft(kk);
                        },
                        _ => {
                            program.push(Opcode::MoveLeft(1));
                        },
                    }
                } else {
                    program.push(Opcode::MoveLeft(1));
                }
            },
            Instruction::Increment => {
                let m = program.len();
                if m > 0 {
                    let prev = program[m - 1];
                    match prev {
                        Opcode::Add(k) => {
                            let kk = if k == u8::MAX { 0 } else { k + 1 };
                            program[m - 1] = Opcode::Add(kk);
                        },
                        _ => {
                            program.push(Opcode::Add(1));
                        },
                    }
                } else {
                    program.push(Opcode::Add(1));
                }
            },
            Instruction::Decrement => {
                let m = program.len();
                if m > 0 {
                    let prev = program[m - 1];
                    match prev {
                        Opcode::Sub(k) => {
                            let kk = if k == u8::MAX { 0 } else { k + 1 };
                            program[m - 1] = Opcode::Sub(kk);
                        },
                        _ => {
                            program.push(Opcode::Sub(1));
                        },
                    }
                } else {
                    program.push(Opcode::Sub(1));
                }
            },
            Instruction::Write => {
                program.push(Opcode::Write);
            },
            Instruction::Read => {
                program.push(Opcode::Read);
            },
            Instruction::Loop(inner) => {
                proof {
                    assert(nodes[i as int] == instr_view(ast@[i as int]));
                    assert(node_weight(nodes[i as int]) == 2 + ast_weight(ast_view(inner@)));
                    assert(node_weight(nodes[i as int]) <= ast_weight_from(nodes, i as int));
                    lemma_gen_from_len(ast_view(inner@), 0, depth as int + 1, Seq::empty());
                }
                let mut inner_program = gen_ast(inner, depth + 1);
                let loop_start_location = program.len() + depth;
                let delta = inner_program.len() + depth;
                program.push(Opcode::JumpIfZero(program.len() + delta + 1));
                program.append(&mut inner_program);
                program.push(Opcode::JumpUnlessZero(loop_start_location));
                proof {
                    assert(program@ =~= emit_node(prog0, nodes[i as int], depth as int));
                }
            },
        }
        proof {
            assert(program@ == emit_node(prog0, nodes[i as int], depth as int));
            lemma_emit_len(prog0, nodes[i as int], depth as int);
        }
        i = i + 1;
    }
    program
}

/// Code generation is a pure function of the tree: two generations from the
/// same parsed tree, at the same depth, are identical.
pub proof fn lemma_codegen_pure(a: Seq<Node>, b: Seq<Node>, depth: int)
    requires
        a == b,
    ensures
        spec_codegen(a, depth) == spec_codegen(b, depth),
{
}

/// Whether the jump at position `i` of a sequence that stands at absolute
/// offset `off` stores the absolute index of its partner, and the partner
/// stores the jump's own absolute index: a zero-test jump stores the index of
/// its back-jump (so, advanced once, it lands just past it), and a back-jump
/// stores the index of its zero-test jump (so, advanced once, it lands just
/// past it, at the head of the loop's body). A non-jump opcode asks nothing.
pub open spec fn jump_pair_ok(p: Seq<Opcode>, off: int, i: int) -> bool {
    match p[i] {
        Opcode::JumpIfZero(t) => off + i < t && t - off < p.len() && (match p[t - off] {
            Opcode::JumpUnlessZero(u) => u == off + i,
            _ => false,
        }),
        Opcode::JumpUnlessZero(t) => off <= t < off + i && (match p[t - off] {
            Opcode::JumpIfZero(u) => u == off + i,
            _ => false,
        }),
        _ => true,
    }
}

/// Whether every jump of a sequence standing at absolute offset `off` points
/// at its partner.
pub open spec fn jumps_matched_at(p: Seq<Opcode>, off: int) -> bool {
    forall|i: int| 0 <= i < p.len() ==> #[trigger] jump_pair_ok(p, off, i)
}

/// Whether every jump of a whole program points at its partner.
pub open spec fn jumps_matched(p: Seq<Opcode>) -> bool {
    jumps_matched_at(p, 0)
}

/// Whether the jump targets the generator computes are exact for every loop
/// of `ast` from position `k` on, where the opcodes of `prog` were already
/// emitted at this level and the level's sequence comes to stand `mis`
/// positions later in the whole program than the depth normalisation assumes.
/// The depth term accounts for exactly one opcode per enclosing loop — the
/// zero-test jump each level prepends — so a level is exact when `mis` is
/// zero, and a loop's body inherits as displacement the opcodes emitted
/// before the loop at its own level.
pub open spec fn gen_aligned_from(
    ast: Seq<Node>,
    k: int,
    depth: int,
    prog: Seq<Opcode>,
    mis: int,
) -> bool
    decreases ast, ast.len() - k,
{
    if k < 0 || k >= ast.len() {
        true
    } else {
        (match ast[k] {
            Node::Loop(body) => mis == 0 && gen_aligned_from(
                body,
                0,
                depth + 1,
                Seq::empty(),
                mis + prog.len(),
            ),
            _ => true,
        }) && gen_aligned_from(ast, k + 1, depth, emit_node(prog, ast[k], depth), mis)
    }
}

/// Whether a whole tree's generated jump targets are exact: so whenever every
/// loop that encloses another loop stands at the head of its own sequence.
pub open spec fn gen_aligned(ast: Seq<Node>) -> bool {
    gen_aligned_from(ast, 0, 0, Seq::empty(), 0)
}

proof fn lemma_emit_jumps(prog: Seq<Opcode>, node: Node, depth: int, off: int)
    requires
        0 <= depth,
        0 <= off,
        jumps_matched_at(prog, off),
        (match node {
            Node::Loop(body) => off == depth && gen_aligned_from(
                body,
                0,
                depth + 1,
                Seq::empty(),
                prog.len() as int,
            ),
            _ => true,
        }),
        prog.len() + node_weight(node) + depth <= usize::MAX,
    ensures
        jumps_matched_at(emit_node(prog, node, depth), off),
    decreases node, 0int,
{
    let p2 = emit_node(prog, node, depth);
    match node {
        Node::Loop(body) => {
            let inner = gen_from(body, 0, depth + 1, Seq::empty());
            lemma_gen_from_len(body, 0, depth + 1, Seq::empty());
            lemma_gen_jumps(body, 0, depth + 1, Seq::empty(), off + prog.len() + 1);
            let tj = prog.len() + inner.len() + depth + 1;
            let sj = prog.len() + depth;
            assert(p2 == prog.push(Opcode::JumpIfZero(tj as usize)) + inner + seq![
                Opcode::JumpUnlessZero(sj as usize),
            ]);
            assert(p2.len() == prog.len() + inner.len() + 2);
            let off2 = off + prog.len() + 1;
            assert forall|i: int| 0 <= i < p2.len() implies jump_pair_ok(p2, off, i) by {
                if i < prog.len() {
                    assert(p2[i] == prog[i]);
                    assert(jump_pair_ok(prog, off, i));
                    match prog[i] {
                        Opcode::JumpIfZero(t) => {
                            assert(p2[t - off] == prog[t - off]);
                        },
                        Opcode::JumpUnlessZero(t) => {
                            assert(p2[t - off] == prog[t - off]);
                        },
                        _ => {},
                    }
                } else if i == prog.len() {
                    assert(p2[i] == Opcode::JumpIfZero(tj as usize));
                    assert(p2[tj - off] == Opcode::JumpUnlessZero(sj as usize));
                } else if i < prog.len() + 1 + inner.len() {
                    let j = i - prog.len() - 1;
                    assert(p2[i] == inner[j]);
                    assert(jump_pair_ok(inner, off2, j));
                    match inner[j] {
                        Opcode::JumpIfZero(t) => {
                            assert(p2[t - off] == inner[t - off2]);
                        },
                        Opcode::JumpUnlessZero(t) => {
                            assert(p2[t - off] == inner[t - off2]);
                        },
                        _ => {},
                    }
                } else {
                    assert(i == prog.len() + inner.len() + 1);
                    assert(p2[i] == Opcode::JumpUnlessZero(sj as usize));
                    assert(p2[sj - off] == Opcode::JumpIfZero(tj as usize));
                }
            }
        },
        _ => {
            assert forall|i: int| 0 <= i < p2.len() implies jump_pair_ok(p2, off, i) by {
                if p2.len() == prog.len() {
                    // a fold: the last opcode, which is not a jump, was
                    // replaced by another opcode of its own kind
                    if i < prog.len() - 1 {
                        assert(p2[i] == prog[i]);
                        assert(jump_pair_ok(prog, off, i));
                        match prog[i] {
                            Opcode::JumpIfZero(t) => {
                                assert(!(prog[prog.len() - 1] is JumpUnlessZero));
                                assert(t - off != prog.len() - 1);
                                assert(p2[t - off] == prog[t - off]);
                            },
                            Opcode::JumpUnlessZero(t) => {
                                assert(!(prog[prog.len() - 1] is JumpIfZero));
                                assert(t - off != prog.len() - 1);
                                assert(p2[t - off] == prog[t - off]);
                            },
                            _ => {},
                        }
                    }
                } else {
                    // a push of a non-jump opcode
                    if i < prog.len() {
                        assert(p2[i] == prog[i]);
                        assert(jump_pair_ok(prog, off, i));
                        match prog[i] {
                            Opcode::JumpIfZero(t) => {
                                assert(p2[t - off] == prog[t - off]);
                            },
                            Opcode::JumpUnlessZero(t) => {
                                assert(p2[t - off] == prog[t - off]);
                            },
                            _ => {},
                        }
                    }
                }
            }
        },
    }
}

proof fn lemma_gen_jumps(ast: Seq<Node>, k: int, depth: int, prog: Seq<Opcode>, off: int)
    requires
        0 <= k <= ast.len(),
        0 <= depth,
        0 <= off,
        gen_aligned_from(ast, k, depth, prog, off - depth),
        jumps_matched_at(prog, off),
        prog.len() + ast_weight_from(ast, k) + depth <= usize::MAX,
    ensures
        jumps_matched_at(gen_from(ast, k, depth, prog), off),
    decreases ast, ast.len() - k,
{
    if k < ast.len() {
        let node = ast[k];
        let prog2 = emit_node(prog, node, depth);
        match node {
            Node::Loop(body) => {
                assert(off == depth);
            },
            _ => {},
        }
        lemma_emit_jumps(prog, node, depth, off);
        lemma_emit_len(prog, node, depth);
        lemma_gen_jumps(ast, k + 1, depth, prog2, off);
    }
}

/// Appending one node adds its weight.
pub proof fn lemma_weight_push(t: Seq<Node>, x: Node, k: int)
    requires
        0 <= k <= t.len(),
    ensures
        ast_weight_from(t.push(x), k) == ast_weight_from(t, k) + node_weight(x),
    decreases t.len() - k,
{
    if k == t.len() {
        assert(t.push(x)[k] == x);
        assert(ast_weight_from(t.push(x), k + 1) == 0);
    } else {
        assert(t.push(x)[k] == t[k]);
        lemma_weight_push(t, x, k + 1);
    }
}

/// The summed weight of the trees of a parser stack from entry `k` on.
spec fn stack_weight(stack: Seq<Seq<Node>>, k: int) -> nat
    decreases stack.len() - k,
{
    if k < 0 || k >= stack.len() {
        0
    } else {
        ast_weight(stack[k]) + stack_weight(stack, k + 1)
    }
}

proof fn lemma_stack_weight_push(stack: Seq<Seq<Node>>, e: Seq<Node>, k: int)
    requires
        0 <= k <= stack.len(),
    ensures
        stack_weight(stack.push(e), k) == stack_weight(stack, k) + ast_weight(e),
    decreases stack.len() - k,
{
    if k == stack.len() {
        assert(stack.push(e)[k] == e);
        assert(stack_weight(stack.push(e), k + 1) == 0);
    } else {
        assert(stack.push(e)[k] == stack[k]);
        lemma_stack_weight_push(stack, e, k + 1);
    }
}

proof fn lemma_parse_from_weight(s: Seq<char>, i: int, stack: Seq<Seq<Node>>)
    requires
        stack.len() >= 1,
        0 <= i <= s.len(),
        crate::parser::parse_from(s, i, stack) is Some,
    ensures
        ast_weight(crate::parser::parse_from(s, i, stack)->Some_0) + 1 <= stack_weight(stack, 0)
            + stack.len() + s.len() - i,
    decreases s.len() - i,
{
    if i >= s.len() {
        assert(stack_weight(stack, 0) == ast_weight(stack[0]) + stack_weight(stack, 1));
    } else {
        let c = s[i];
        if c == '[' {
            let stack2 = stack.push(Seq::empty());
            lemma_stack_weight_push(stack, Seq::<Node>::empty(), 0);
            lemma_parse_from_weight(s, i + 1, stack2);
        } else if c == ']' {
            let top = stack.last();
            let rest = stack.drop_last();
            let merged = rest.last().push(Node::Loop(top));
            let stack2 = rest.update(rest.len() - 1, merged);
            assert(stack =~= rest.push(top));
            lemma_stack_weight_push(rest, top, 0);
            assert(stack2 =~= rest.drop_last().push(merged));
            lemma_stack_weight_push(rest.drop_last(), merged, 0);
            assert(rest =~= rest.drop_last().push(rest.last()));
            lemma_stack_weight_push(rest.drop_last(), rest.last(), 0);
            lemma_weight_push(rest.last(), Node::Loop(top), 0);
            lemma_parse_from_weight(s, i + 1, stack2);
        } else if crate::parser::is_op_char(c) {
            let merged = stack.last().push(crate::parser::leaf_node(c));
            let stack2 = stack.update(stack.len() - 1, merged);
            assert(stack2 =~= stack.drop_last().push(merged));
            lemma_stack_weight_push(stack.drop_last(), merged, 0);
            assert(stack =~= stack.drop_last().push(stack.last()));
            lemma_stack_weight_push(stack.drop_last(), stack.last(), 0);
            lemma_weight_push(stack.last(), crate::parser::leaf_node(c), 0);
            lemma_parse_from_weight(s, i + 1, stack2);
        } else {
            lemma_parse_from_weight(s, i + 1, stack);
        }
    }
}

/// A parsed tree weighs at most one unit per source character, so the
/// generator's size bound holds for every tree the parser returns.
pub proof fn lemma_parsed_tree_weight(s: Seq<char>)
    requires
        crate::parser::spec_parse(s) is Some,
    ensures
        ast_weight(crate::parser::spec_parse(s)->Some_0) <= s.len(),
{
    let stack = seq![Seq::<Node>::empty()];
    assert(stack_weight(stack, 0) == 0 + stack_weight(stack, 1));
    lemma_parse_from_weight(s, 0, stack);
}

proof fn lemma_loop_free_aligned(ast: Seq<Node>, k: int, depth: int, prog: Seq<Opcode>, mis: int)
    requires
        forall|i: int| 0 <= i < ast.len() ==> !(#[trigger] ast[i] is Loop),
    ensures
        gen_aligned_from(ast, k, depth, prog, mis),
    decreases ast.len() - k,
{
    if 0 <= k < ast.len() {
        lemma_loop_free_aligned(ast, k + 1, depth, emit_node(prog, ast[k], depth), mis);
    }
}

/// A tree of nesting depth at most one — no loop's body holds another loop —
/// is aligned, so its generated jump targets are exact.
pub proof fn lemma_depth_one_aligned(ast: Seq<Node>)
    requires
        forall|i: int, j: int|
            0 <= i < ast.len() && (#[trigger] ast[i] is Loop) && 0 <= j < ast[i]->Loop_0.len()
                ==> !(#[trigger] ast[i]->Loop_0[j] is Loop),
    ensures
        gen_aligned(ast),
{
    lemma_depth_one_aligned_from(ast, 0, 0, Seq::empty());
}

proof fn lemma_depth_one_aligned_from(ast: Seq<Node>, k: int, depth: int, prog: Seq<Opcode>)
    requires
        forall|i: int, j: int|
            0 <= i < ast.len() && (#[trigger] ast[i] is Loop) && 0 <= j < ast[i]->Loop_0.len()
                ==> !(#[trigger] ast[i]->Loop_0[j] is Loop),
    ensures
        gen_aligned_from(ast, k, depth, prog, 0),
    decreases ast.len() - k,
{
    if 0 <= k < ast.len() {
        match ast[k] {
            Node::Loop(body) => {
                lemma_loop_free_aligned(body, 0, depth + 1, Seq::empty(), prog.len() as int);
            },
            _ => {},
        }
        lemma_depth_one_aligned_from(ast, k + 1, depth, emit_node(prog, ast[k], depth));
    }
}

/// Jump address correctness. For a tree in which every loop that encloses
/// another loop stands at the head of its own sequence, every zero-test jump
/// of the generated program stores the index of its matching back-jump — so
/// its taken landing point, one position later, lies immediately past that
/// back-jump — and every back-jump stores the index of its matching zero-test
/// jump.
pub proof fn lemma_jump_targets_matched(ast: Seq<Node>)
    requires
        gen_aligned(ast),
        ast_weight(ast) <= usize::MAX,
    ensures
        jumps_matched(spec_codegen(ast, 0)),
{
    lemma_gen_jumps(ast, 0, 0, Seq::empty(), 0);
}

} // verus!
