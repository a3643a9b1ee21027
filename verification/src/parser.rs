//! Parsing of brainfuck source text into a syntax tree.
//!
//! The six operator characters map to leaf instructions, a matched bracket
//! pair delimits a loop whose body is itself a sequence of instructions, and
//! every other character is inert. The parser fails exactly on sources whose
//! brackets are not balanced.

use vstd::prelude::*;

verus! {

/// A brainfuck ast consists of a list of instructions.
pub type Ast = Vec<Instruction>;

/// The possible nodes of our brainfuck ast. This is essentially a tree.
#[derive(Debug, PartialEq)]
pub enum Instruction {
    /// An instruction to move one cell to the right, represented by `>`.
    MoveRight,
    /// An instruction to move one cell to the left, represented by `<`.
    MoveLeft,
    /// An increment instruction, represented by `+`.
    Increment,
    /// A decrement instruction, represented by `-`.
    Decrement,
    /// A write instruction, represented by `.`.
    Write,
    /// A read instruction, represented by `,`.
    Read,
    /// A loop inbetween `[` and `]`. This node highlights the tree-like nature
    /// of a brainfuck program.
    Loop(Ast),
}

/// The mathematical shape of one instruction: the model that contracts and
/// proofs speak of. A loop body is a sequence of nodes.
pub ghost enum Node {
    MoveRight,
    MoveLeft,
    Increment,
    Decrement,
    Write,
    Read,
    Loop(Seq<Node>),
}

/// The model of one instruction of the executable tree.
pub open spec fn instr_view(i: Instruction) -> Node
    decreases i, 0int,
{
    match i {
        Instruction::MoveRight => Node::MoveRight,
        Instruction::MoveLeft => Node::MoveLeft,
        Instruction::Increment => Node::Increment,
        Instruction::Decrement => Node::Decrement,
        Instruction::Write => Node::Write,
        Instruction::Read => Node::Read,
        Instruction::Loop(body) => Node::Loop(ast_view_rec(body@, 0)),
    }
}

/// The models of the instructions of `s` from position `k` on.
pub open spec fn ast_view_rec(s: Seq<Instruction>, k: int) -> Seq<Node>
    decreases s, s.len() - k,
{
    if k < 0 || k >= s.len() {
        Seq::empty()
    } else {
        seq![instr_view(s[k])] + ast_view_rec(s, k + 1)
    }
}

/// The model of a whole instruction sequence.
pub open spec fn ast_view(s: Seq<Instruction>) -> Seq<Node> {
    ast_view_rec(s, 0)
}

/// The model of a sequence is as long as the sequence and is built pointwise
/// from the models of its instructions.
pub proof fn lemma_ast_view_rec(s: Seq<Instruction>, k: int)
    requires
        0 <= k <= s.len(),
    ensures
        ast_view_rec(s, k).len() == s.len() - k,
        forall|i: int|
            0 <= i < s.len() - k ==> ast_view_rec(s, k)[i] == instr_view(s[k + i]),
    decreases s.len() - k,
{
    if k < s.len() {
        lemma_ast_view_rec(s, k + 1);
    }
}

/// Appending one instruction appends its model.
pub proof fn lemma_ast_view_push(s: Seq<Instruction>, x: Instruction)
    ensures
        ast_view(s.push(x)) == ast_view(s).push(instr_view(x)),
{
    lemma_ast_view_rec(s, 0);
    lemma_ast_view_rec(s.push(x), 0);
    assert(ast_view(s.push(x)) =~= ast_view(s).push(instr_view(x)));
}

/// The six operator characters.
pub open spec fn is_op_char(c: char) -> bool {
    c == '>' || c == '<' || c == '+' || c == '-' || c == '.' || c == ','
}

/// The characters the parser reacts to; everything else is a comment.
pub open spec fn is_code_char(c: char) -> bool {
    is_op_char(c) || c == '[' || c == ']'
}

/// The leaf node one operator character stands for.
pub open spec fn leaf_node(c: char) -> Node {
    if c == '>' {
        Node::MoveRight
    } else if c == '<' {
        Node::MoveLeft
    } else if c == '+' {
        Node::Increment
    } else if c == '-' {
        Node::Decrement
    } else if c == '.' {
        Node::Write
    } else {
        Node::Read
    }
}

/// What parsing `s` from position `i` returns, given the sequences opened so
/// far: the bottom entry of `stack` is the top-level sequence, each further
/// entry the body of one still-open loop. `[` opens a sequence, `]` closes
/// the innermost one into a loop node of the sequence below, an operator
/// extends the innermost sequence, and any other character changes nothing.
/// Parsing fails on a `]` with no open loop and on input that ends with a
/// loop still open.
pub open spec fn parse_from(s: Seq<char>, i: int, stack: Seq<Seq<Node>>) -> Option<Seq<Node>>
    decreases s.len() - i,
{
    if i < 0 || i >= s.len() {
        if stack.len() == 1 {
            Some(stack[0])
        } else {
            None
        }
    } else {
        let c = s[i];
        if c == '[' {
            parse_from(s, i + 1, stack.push(Seq::empty()))
        } else if c == ']' {
            if stack.len() >= 2 {
                let body = stack.last();
                let rest = stack.drop_last();
                parse_from(
                    s,
                    i + 1,
                    rest.update(rest.len() - 1, rest.last().push(Node::Loop(body))),
                )
            } else {
                None
            }
        } else if is_op_char(c) {
            parse_from(s, i + 1, stack.update(stack.len() - 1, stack.last().push(leaf_node(c))))
        } else {
            parse_from(s, i + 1, stack)
        }
    }
}

/// The tree a source parses to, or `None` when its brackets do not match.
pub open spec fn spec_parse(s: Seq<char>) -> Option<Seq<Node>> {
    parse_from(s, 0, seq![Seq::<Node>::empty()])
}

/// The models of the suspended outer sequences together with the sequence
/// under construction, as one parser stack.
pub open spec fn stack_view(stack: Seq<Vec<Instruction>>, cur: Seq<Instruction>) -> Seq<Seq<Node>> {
    Seq::new(stack.len(), |j: int| ast_view(stack[j]@)).push(ast_view(cur))
}

/// Takes a source and parses it into an ast. Returns `None` on parse errors,
/// which are exactly the sources with unmatched brackets.
pub fn parse(source: &str) -> (r: Option<Ast>)
    ensures
        source@.len() <= usize::MAX,
        match r {
            Some(ast) => spec_parse(source@) == Some(ast_view(ast@)),
            None => spec_parse(source@) is None,
        },
{
    let n = source.unicode_len();
    let mut stack: Vec<Ast> = Vec::new();
    let mut cur: Ast = Vec::new();
    let mut i: usize = 0;
    proof {
        assert(stack_view(stack@, cur@) =~= seq![Seq::<Node>::empty()]);
    }
    while i < n
        invariant
            n == source@.len(),
            i <= n,
            parse_from(source@, i as int, stack_view(stack@, cur@)) == spec_parse(source@),
        decreases n - i,
    {
        let c = source.get_char(i);
        let ghost prev_stack = stack_view(stack@, cur@);
        if c == '[' {
            stack.push(cur);
            cur = Vec::new();
            proof {
                assert(stack_view(stack@, cur@) =~= prev_stack.push(Seq::<Node>::empty()));
            }
        } else if c == ']' {
            match stack.pop() {
                Some(mut outer) => {
                    let ghost outer0 = outer@;
                    let ghost body0 = cur@;
                    outer.push(Instruction::Loop(cur));
                    cur = outer;
                    proof {
                        lemma_ast_view_push(outer0, cur@.last());
                        assert(instr_view(cur@.last()) == Node::Loop(ast_view(body0)));
                        let rest = prev_stack.drop_last();
                        assert(rest.last() == ast_view(outer0));
                        assert(prev_stack.last() == ast_view(body0));
                        assert(stack_view(stack@, cur@) =~= rest.update(
                            rest.len() - 1,
                            rest.last().push(Node::Loop(prev_stack.last())),
                        ));
                    }
                },
                None => {
                    return None;
                },
            }
        } else if c == '>' || c == '<' || c == '+' || c == '-' || c == '.' || c == ',' {
            let instr = if c == '>' {
                Instruction::MoveRight
            } else if c == '<' {
                Instruction::MoveLeft
            } else if c == '+' {
                Instruction::Increment
            } else if c == '-' {
                Instruction::Decrement
            } else if c == '.' {
                Instruction::Write
            } else {
                Instruction::Read
            };
            let ghost cur0 = cur@;
            cur.push(instr);
            proof {
                lemma_ast_view_push(cur0, cur@.last());
                assert(stack_view(stack@, cur@) =~= prev_stack.update(
                    prev_stack.len() - 1,
                    prev_stack.last().push(leaf_node(source@[i as int])),
                ));
            }
        }
        i = i + 1;
    }
    if stack.len() == 0 {
        proof {
            assert(stack_view(stack@, cur@).len() == 1);
            assert(stack_view(stack@, cur@)[0] == ast_view(cur@));
        }
        Some(cur)
    } else {
        proof {
            assert(stack_view(stack@, cur@).len() >= 2);
        }
        None
    }
}

/// Whether from position `i` on, with `depth` loops already open, every `]`
/// closes an open loop and every opened loop is closed before the input ends.
pub open spec fn balanced_from(s: Seq<char>, i: int, depth: int) -> bool
    decreases s.len() - i,
{
    if i < 0 || i >= s.len() {
        depth == 0
    } else if s[i] == '[' {
        balanced_from(s, i + 1, depth + 1)
    } else if s[i] == ']' {
        depth > 0 && balanced_from(s, i + 1, depth - 1)
    } else {
        balanced_from(s, i + 1, depth)
    }
}

/// Whether a source's brackets are balanced.
pub open spec fn balanced(s: Seq<char>) -> bool {
    balanced_from(s, 0, 0)
}

proof fn lemma_parse_from_balanced(s: Seq<char>, i: int, stack: Seq<Seq<Node>>)
    requires
        stack.len() >= 1,
    ensures
        (parse_from(s, i, stack) is Some) <==> balanced_from(s, i, stack.len() - 1),
    decreases s.len() - i,
{
    if 0 <= i < s.len() {
        let c = s[i];
        if c == '[' {
            lemma_parse_from_balanced(s, i + 1, stack.push(Seq::empty()));
        } else if c == ']' {
            if stack.len() >= 2 {
                let rest = stack.drop_last();
                lemma_parse_from_balanced(
                    s,
                    i + 1,
                    rest.update(rest.len() - 1, rest.last().push(Node::Loop(stack.last()))),
                );
            }
        } else if is_op_char(c) {
            lemma_parse_from_balanced(
                s,
                i + 1,
                stack.update(stack.len() - 1, stack.last().push(leaf_node(c))),
            );
        } else {
            lemma_parse_from_balanced(s, i + 1, stack);
        }
    }
}

/// Parsing succeeds exactly on sources with balanced brackets: it fails on
/// every source with an excess `]` or an unclosed `[`.
pub proof fn lemma_parse_succeeds_iff_balanced(s: Seq<char>)
    ensures
        (spec_parse(s) is Some) <==> balanced(s),
{
    lemma_parse_from_balanced(s, 0, seq![Seq::<Node>::empty()]);
}

proof fn lemma_parse_from_tail(s: Seq<char>, k: int, j: int, stack: Seq<Seq<Node>>)
    requires
        0 <= k <= j <= s.len() - 1,
    ensures
        parse_from(s.remove(k), j, stack) == parse_from(s, j + 1, stack),
    decreases s.len() - j,
{
    let s2 = s.remove(k);
    s.remove_ensures(k);
    if j < s2.len() {
        let c = s2[j];
        assert(c == s[j + 1]);
        if c == '[' {
            lemma_parse_from_tail(s, k, j + 1, stack.push(Seq::empty()));
        } else if c == ']' {
            if stack.len() >= 2 {
                let rest = stack.drop_last();
                lemma_parse_from_tail(
                    s,
                    k,
                    j + 1,
                    rest.update(rest.len() - 1, rest.last().push(Node::Loop(stack.last()))),
                );
            }
        } else if is_op_char(c) {
            lemma_parse_from_tail(
                s,
                k,
                j + 1,
                stack.update(stack.len() - 1, stack.last().push(leaf_node(c))),
            );
        } else {
            lemma_parse_from_tail(s, k, j + 1, stack);
        }
    }
}

proof fn lemma_parse_from_head(s: Seq<char>, k: int, j: int, stack: Seq<Seq<Node>>)
    requires
        0 <= j <= k < s.len(),
        !is_code_char(s[k]),
    ensures
        parse_from(s.remove(k), j, stack) == parse_from(s, j, stack),
    decreases k - j,
{
    let s2 = s.remove(k);
    s.remove_ensures(k);
    if j == k {
        lemma_parse_from_tail(s, k, k, stack);
        assert(parse_from(s, k, stack) == parse_from(s, k + 1, stack));
    } else {
        let c = s2[j];
        assert(c == s[j]);
        if c == '[' {
            lemma_parse_from_head(s, k, j + 1, stack.push(Seq::empty()));
        } else if c == ']' {
            if stack.len() >= 2 {
                let rest = stack.drop_last();
                lemma_parse_from_head(
                    s,
                    k,
                    j + 1,
                    rest.update(rest.len() - 1, rest.last().push(Node::Loop(stack.last()))),
                );
            }
        } else if is_op_char(c) {
            lemma_parse_from_head(
                s,
                k,
                j + 1,
                stack.update(stack.len() - 1, stack.last().push(leaf_node(c))),
            );
        } else {
            lemma_parse_from_head(s, k, j + 1, stack);
        }
    }
}

/// Removing one character outside the six operators and the two brackets
/// changes neither success nor the parsed tree.
pub proof fn lemma_inert_char_removed(s: Seq<char>, k: int)
    requires
        0 <= k < s.len(),
        !is_code_char(s[k]),
    ensures
        spec_parse(s.remove(k)) == spec_parse(s),
{
    lemma_parse_from_head(s, k, 0, seq![Seq::<Node>::empty()]);
}

/// A source with every inert character removed.
pub open spec fn code_chars(s: Seq<char>) -> Seq<char> {
    s.filter(|c: char| is_code_char(c))
}

proof fn lemma_code_chars_all_code(s: Seq<char>)
    requires
        forall|i: int| 0 <= i < s.len() ==> is_code_char(s[i]),
    ensures
        code_chars(s) == s,
    decreases s.len(),
{
    reveal(Seq::filter);
    if s.len() == 0 {
    } else {
        lemma_code_chars_all_code(s.drop_last());
        assert(is_code_char(s.last()));
        assert(code_chars(s) =~= s);
    }
}

proof fn lemma_code_chars_remove(s: Seq<char>, k: int)
    requires
        0 <= k < s.len(),
        !is_code_char(s[k]),
    ensures
        code_chars(s.remove(k)) == code_chars(s),
    decreases s.len(),
{
    reveal(Seq::filter);
    s.remove_ensures(k);
    let t = s.remove(k);
    if k == s.len() - 1 {
        assert(t =~= s.drop_last());
        assert(!is_code_char(s.last()));
    } else {
        assert(t.len() == s.len() - 1);
        assert(t.drop_last() =~= s.drop_last().remove(k));
        assert(t.last() == s.last());
        lemma_code_chars_remove(s.drop_last(), k);
    }
}

/// Characters outside the six operators and the two brackets are transparent:
/// removing all of them from a source changes neither success nor the parsed
/// tree.
pub proof fn lemma_inert_chars_transparent(s: Seq<char>)
    ensures
        spec_parse(code_chars(s)) == spec_parse(s),
    decreases s.len(),
{
    if exists|k: int| 0 <= k < s.len() && !is_code_char(s[k]) {
        let k = choose|k: int| 0 <= k < s.len() && !is_code_char(s[k]);
        s.remove_ensures(k);
        lemma_code_chars_remove(s, k);
        lemma_inert_chars_transparent(s.remove(k));
        lemma_inert_char_removed(s, k);
    } else {
        lemma_code_chars_all_code(s);
    }
}

} // verus!
