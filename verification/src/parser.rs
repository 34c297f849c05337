use vstd::prelude::*;

use crate::ast::{lemma_nodes_model, lemma_nodes_model_push, node_model, nodes_model, Cmd, Node};
use crate::error::CompileError;
use crate::lexer::{Token, TokenKind};

verus! {

/// The kinds of a sequence of tokens.
pub open spec fn kinds_of(tokens: Seq<Token>) -> Seq<TokenKind> {
    tokens.map_values(|t: Token| t.kind)
}

/// How many loops are open at the end of `kinds`: its `[`s less its `]`s.
pub open spec fn depth(kinds: Seq<TokenKind>) -> int
    decreases kinds.len(),
{
    if kinds.len() == 0 {
        0
    } else if kinds.last() == TokenKind::LoopStart {
        depth(kinds.drop_last()) + 1
    } else if kinds.last() == TokenKind::LoopEnd {
        depth(kinds.drop_last()) - 1
    } else {
        depth(kinds.drop_last())
    }
}

/// No prefix of `kinds` closes more loops than it opens.
pub open spec fn never_negative(kinds: Seq<TokenKind>) -> bool {
    forall|k: int| 0 <= k <= kinds.len() ==> depth(#[trigger] kinds.take(k)) >= 0
}

/// No prefix of `kinds` up to length `n` closes more loops than it opens.
pub open spec fn never_negative_upto(kinds: Seq<TokenKind>, n: int) -> bool {
    forall|k: int| 0 <= k <= n ==> depth(#[trigger] kinds.take(k)) >= 0
}

/// Every `]` closes a `[` before it and every `[` is closed.
pub open spec fn balanced(kinds: Seq<TokenKind>) -> bool {
    never_negative(kinds) && depth(kinds) == 0
}

/// The `]` at `i` is the first one with no `[` to close.
pub open spec fn unmatched_close_at(kinds: Seq<TokenKind>, i: int) -> bool {
    &&& 0 <= i < kinds.len()
    &&& never_negative_upto(kinds, i)
    &&& depth(kinds.take(i + 1)) < 0
}

/// The `[` at `j` is the last one that is never closed: it opens at one less than the final
/// depth and no later `[` opens at that depth.
pub open spec fn unmatched_open_at(kinds: Seq<TokenKind>, j: int) -> bool {
    &&& 0 <= j < kinds.len()
    &&& kinds[j] == TokenKind::LoopStart
    &&& depth(kinds.take(j)) == depth(kinds) - 1
    &&& forall|k: int|
        j < k < kinds.len() && kinds[k] == TokenKind::LoopStart ==> depth(#[trigger] kinds.take(k))
            != depth(kinds) - 1
}

/// The tokens a command is written with; commands that have no token of their own give none.
pub open spec fn flatten_cmd(c: Cmd) -> Seq<TokenKind>
    decreases c,
{
    match c {
        Cmd::Add(d) => if d == 1 {
            seq![TokenKind::Inc]
        } else if d == -1 {
            seq![TokenKind::Dec]
        } else {
            Seq::empty()
        },
        Cmd::Move(d) => if d == 1 {
            seq![TokenKind::Left]
        } else if d == -1 {
            seq![TokenKind::Right]
        } else {
            Seq::empty()
        },
        Cmd::Put => seq![TokenKind::Put],
        Cmd::Get => seq![TokenKind::Get],
        Cmd::Loop(body) => seq![TokenKind::LoopStart] + flatten(body) + seq![TokenKind::LoopEnd],
        _ => Seq::empty(),
    }
}

/// The tokens a program is written with.
pub open spec fn flatten(cmds: Seq<Cmd>) -> Seq<TokenKind>
    decreases cmds,
{
    if cmds.len() == 0 {
        Seq::empty()
    } else {
        flatten(cmds.drop_last()) + flatten_cmd(cmds.last())
    }
}

/// A command that one token, or a bracketed loop, stands for.
pub open spec fn primitive_cmd(c: Cmd) -> bool
    decreases c,
{
    match c {
        Cmd::Add(d) => d == 1 || d == -1,
        Cmd::Move(d) => d == 1 || d == -1,
        Cmd::Put => true,
        Cmd::Get => true,
        Cmd::Loop(body) => primitive(body),
        _ => false,
    }
}

/// Every command of the program, at every depth, is primitive.
pub open spec fn primitive(cmds: Seq<Cmd>) -> bool
    decreases cmds,
{
    cmds.len() == 0 || (primitive(cmds.drop_last()) && primitive_cmd(cmds.last()))
}

/// A loop body that is still being read, with the position of its `[`.
struct Frame {
    open_line: usize,
    open_col: usize,
    nodes: Vec<Node>,
}

/// The models of the bodies on the stack.
spec fn frames_model(stack: Seq<Frame>) -> Seq<Seq<Cmd>> {
    Seq::new(stack.len(), |k: int| nodes_model(stack[k].nodes@))
}

/// The tokens read so far, given the bodies on the stack: each body, then the `[` that
/// opened the next.
spec fn stack_prefix(frames: Seq<Seq<Cmd>>) -> Seq<TokenKind>
    decreases frames.len(),
{
    if frames.len() == 0 {
        Seq::empty()
    } else {
        stack_prefix(frames.drop_last()) + flatten(frames.last()) + seq![TokenKind::LoopStart]
    }
}

proof fn lemma_flatten_push(cmds: Seq<Cmd>, c: Cmd)
    ensures
        flatten(cmds.push(c)) == flatten(cmds) + flatten_cmd(c),
        primitive(cmds.push(c)) == (primitive(cmds) && primitive_cmd(c)),
{
    assert(cmds.push(c).drop_last() =~= cmds);
}

proof fn lemma_depth_push(kinds: Seq<TokenKind>, k: TokenKind)
    ensures
        depth(kinds.push(k)) == depth(kinds) + (if k == TokenKind::LoopStart {
            1int
        } else if k == TokenKind::LoopEnd {
            -1int
        } else {
            0int
        }),
{
    assert(kinds.push(k).drop_last() =~= kinds);
}

/// The tokens are balanced and `program` is the primitive tree written with exactly their
/// kinds.
pub open spec fn parses_to(tokens: Seq<Token>, program: Seq<Cmd>) -> bool {
    &&& balanced(kinds_of(tokens))
    &&& primitive(program)
    &&& flatten(program) == kinds_of(tokens)
}

/// The error names the first `]` that closes nothing or, when there is none but some `[` is
/// left open, the last `[` never closed.
pub open spec fn rejects_with(tokens: Seq<Token>, e: CompileError) -> bool {
    match e {
        CompileError::UnmatchedClose { line, col } => exists|i: int|
            #[trigger] unmatched_close_at(kinds_of(tokens), i) && tokens[i].line == line
                && tokens[i].col == col,
        CompileError::UnmatchedOpen { line, col } => {
            &&& never_negative(kinds_of(tokens))
            &&& depth(kinds_of(tokens)) > 0
            &&& exists|j: int|
                #[trigger] unmatched_open_at(kinds_of(tokens), j) && tokens[j].line == line
                    && tokens[j].col == col
        },
        CompileError::Io(_) => false,
    }
}

/// Builds the program tree of a token sequence: `Ok` with the tree the tokens write when the
/// brackets are balanced, otherwise the error for the offending bracket.
pub fn parse(tokens: &[Token]) -> (res: Result<Vec<Node>, CompileError>)
    ensures
        match res {
            Ok(ast) => parses_to(tokens@, nodes_model(ast@)),
            Err(e) => rejects_with(tokens@, e),
        },
{
    let ghost kinds = kinds_of(tokens@);
    let mut stack: Vec<Frame> = Vec::new();
    let mut current: Vec<Node> = Vec::new();
    let ghost mut opens: Seq<int> = Seq::empty();
    let mut i: usize = 0;

    while i < tokens.len()
        invariant
            i <= tokens.len(),
            kinds == kinds_of(tokens@),
            kinds.len() == tokens.len(),
            never_negative_upto(kinds, i as int),
            depth(kinds.take(i as int)) == stack.len(),
            opens.len() == stack.len(),
            kinds.take(i as int) == stack_prefix(frames_model(stack@)) + flatten(
                nodes_model(current@),
            ),
            primitive(nodes_model(current@)),
            forall|l: int|
                0 <= l < stack.len() ==> primitive(#[trigger] frames_model(stack@)[l]),
            forall|l: int|
                0 <= l < stack.len() ==> {
                    &&& 0 <= #[trigger] opens[l] < i
                    &&& kinds[opens[l]] == TokenKind::LoopStart
                    &&& depth(kinds.take(opens[l])) == l
                    &&& tokens@[opens[l]].line == stack@[l].open_line
                    &&& tokens@[opens[l]].col == stack@[l].open_col
                },
            forall|l: int, k: int|
                #![trigger opens[l], kinds.take(k)]
                0 <= l < stack.len() && opens[l] < k <= i ==> depth(kinds.take(k)) >= l + 1,
        decreases tokens.len() - i,
    {
        let token = &tokens[i];
        let ghost before = kinds.take(i as int);
        let ghost cur_before = nodes_model(current@);
        let ghost frames_before = frames_model(stack@);
        let ghost stack_before = stack@;
        let ghost current_before = current@;
        proof {
            assert(kinds.take(i + 1) =~= before.push(token.kind));
            lemma_depth_push(before, token.kind);
            assert(kinds[i as int] == token.kind);
        }
        match token.kind {
            TokenKind::LoopStart => {
                stack.push(Frame { open_line: token.line, open_col: token.col, nodes: current });
                current = Vec::new();
                proof {
                    opens = opens.push(i as int);
                    assert(frames_model(stack@) =~= frames_before.push(cur_before));
                    assert(stack_prefix(frames_model(stack@)) == stack_prefix(frames_before)
                        + flatten(cur_before) + seq![TokenKind::LoopStart]) by {
                        assert(frames_model(stack@).drop_last() =~= frames_before);
                    }
                    assert(nodes_model(current@) =~= Seq::<Cmd>::empty());
                    assert(kinds.take(i + 1) =~= stack_prefix(frames_model(stack@)) + flatten(
                        nodes_model(current@),
                    ));
                    assert forall|l: int|
                        0 <= l < stack.len() implies primitive(#[trigger] frames_model(stack@)[l]) by {
                        if l < stack.len() - 1 {
                            assert(frames_model(stack@)[l] == frames_before[l]);
                        }
                    }
                }
            },
            TokenKind::LoopEnd => {
                match stack.pop() {
                    None => {
                        proof {
                            assert(unmatched_close_at(kinds, i as int));
                        }
                        return Err(CompileError::UnmatchedClose { line: token.line, col: token.col });
                    },
                    Some(frame) => {
                        let ghost top = nodes_model(frame.nodes@);
                        let ghost parent_before = frame.nodes@;
                        let mut parent = frame.nodes;
                        let ghost inner = current@;
                        parent.push(Node::Loop(current));
                        current = parent;
                        proof {
                            opens = opens.drop_last();
                            let fr = frames_model(stack@);
                            assert(fr =~= frames_before.drop_last());
                            assert(frames_before.last() == top);
                            lemma_nodes_model_push(parent_before, Node::Loop(current@.last()->Loop_0));
                            assert(current@ =~= parent_before.push(current@.last()));
                            assert(node_model(current@.last()) == Cmd::Loop(cur_before));
                            lemma_flatten_push(top, Cmd::Loop(cur_before));
                            assert(kinds.take(i + 1) =~= stack_prefix(fr) + flatten(
                                nodes_model(current@),
                            ));
                            assert forall|l: int|
                                0 <= l < stack.len() implies primitive(#[trigger] frames_model(stack@)[l]) by {
                                assert(frames_model(stack@)[l] == frames_before[l]);
                            }
                        }
                    },
                }
            },
            other => {
                let node = match other {
                    TokenKind::Inc => Node::Add(1),
                    TokenKind::Dec => Node::Add(-1),
                    TokenKind::Left => Node::Move(1),
                    TokenKind::Right => Node::Move(-1),
                    TokenKind::Put => Node::Put,
                    _ => Node::Get,
                };
                current.push(node);
                proof {
                    lemma_nodes_model_push(current_before, node);
                    lemma_flatten_push(cur_before, node_model(node));
                    assert(flatten_cmd(node_model(node)) =~= seq![other]);
                    assert(kinds.take(i + 1) =~= stack_prefix(frames_model(stack@)) + flatten(
                        nodes_model(current@),
                    ));
                }
            },
        }
        i += 1;
    }

    proof {
        assert(kinds.take(tokens.len() as int) =~= kinds);
    }
    if let Some(frame) = stack.pop() {
        proof {
            let j = opens.last();
            assert(unmatched_open_at(kinds, j));
        }
        return Err(CompileError::UnmatchedOpen { line: frame.open_line, col: frame.open_col });
    }
    proof {
        assert(stack_prefix(frames_model(stack@)) =~= Seq::<TokenKind>::empty());
        assert(kinds =~= flatten(nodes_model(current@)));
    }
    Ok(current)
}

/// The depth of a concatenation is the sum of the depths.
pub proof fn lemma_depth_concat(x: Seq<TokenKind>, y: Seq<TokenKind>)
    ensures
        depth(x + y) == depth(x) + depth(y),
    decreases y.len(),
{
    if y.len() == 0 {
        assert(x + y =~= x);
    } else {
        assert((x + y).drop_last() =~= x + y.drop_last());
        lemma_depth_concat(x, y.drop_last());
    }
}

/// The depth of a single token.
proof fn lemma_depth_single(k: TokenKind)
    ensures
        depth(seq![k]) == (if k == TokenKind::LoopStart {
            1int
        } else if k == TokenKind::LoopEnd {
            -1int
        } else {
            0int
        }),
{
    lemma_depth_push(Seq::empty(), k);
    assert(Seq::<TokenKind>::empty().push(k) =~= seq![k]);
}

/// A prefix of a concatenation.
proof fn lemma_take_concat(x: Seq<TokenKind>, y: Seq<TokenKind>, k: int)
    requires
        0 <= k <= x.len() + y.len(),
    ensures
        k <= x.len() ==> (x + y).take(k) == x.take(k),
        k > x.len() ==> (x + y).take(k) == x + y.take(k - x.len()),
{
    if k <= x.len() {
        assert((x + y).take(k) =~= x.take(k));
    } else {
        assert((x + y).take(k) =~= x + y.take(k - x.len()));
    }
}

/// A primitive program is written with balanced brackets, and every primitive command with
/// at least one token.
pub proof fn lemma_primitive_balanced(cmds: Seq<Cmd>)
    requires
        primitive(cmds),
    ensures
        balanced(flatten(cmds)),
    decreases cmds, 1int,
{
    if cmds.len() == 0 {
        assert forall|k: int| 0 <= k <= flatten(cmds).len() implies depth(
            #[trigger] flatten(cmds).take(k),
        ) >= 0 by {
            assert(flatten(cmds).take(k) =~= Seq::<TokenKind>::empty());
        }
    } else {
        let x = flatten(cmds.drop_last());
        let y = flatten_cmd(cmds.last());
        lemma_primitive_balanced(cmds.drop_last());
        lemma_primitive_cmd_balanced(cmds.last());
        lemma_depth_concat(x, y);
        assert forall|k: int| 0 <= k <= (x + y).len() implies depth(#[trigger] (x + y).take(k))
            >= 0 by {
            lemma_take_concat(x, y, k);
            if k > x.len() {
                lemma_depth_concat(x, y.take(k - x.len()));
            }
        }
    }
}

/// A primitive command is written with balanced brackets and at least one token.
pub proof fn lemma_primitive_cmd_balanced(c: Cmd)
    requires
        primitive_cmd(c),
    ensures
        balanced(flatten_cmd(c)),
        flatten_cmd(c).len() >= 1,
    decreases c, 0int,
{
    match c {
        Cmd::Loop(body) => {
            lemma_primitive_balanced(body);
            let f = flatten(body);
            let open = seq![TokenKind::LoopStart];
            let close = seq![TokenKind::LoopEnd];
            let w = open + f + close;
            lemma_depth_single(TokenKind::LoopStart);
            lemma_depth_single(TokenKind::LoopEnd);
            lemma_depth_concat(open, f);
            lemma_depth_concat(open + f, close);
            assert forall|k: int| 0 <= k <= w.len() implies depth(#[trigger] w.take(k)) >= 0 by {
                if k == 0 {
                    assert(w.take(k) =~= Seq::<TokenKind>::empty());
                } else if k <= 1 + f.len() {
                    assert(w.take(k) =~= open + f.take(k - 1));
                    lemma_depth_concat(open, f.take(k - 1));
                } else {
                    assert(w.take(k) =~= w);
                }
            }
        },
        _ => {
            let w = flatten_cmd(c);
            assert(w.len() == 1);
            assert(w =~= seq![w[0]]);
            lemma_depth_single(w[0]);
            assert forall|k: int| 0 <= k <= w.len() implies depth(#[trigger] w.take(k)) >= 0 by {
                if k == 0 {
                    assert(w.take(k) =~= Seq::<TokenKind>::empty());
                } else {
                    assert(w.take(k) =~= w);
                }
            }
        },
    }
}

/// Inside `x [ f ]` with `x` and `f` balanced, every prefix longer than `x` and shorter than
/// the whole has positive depth.
proof fn lemma_open_position(x: Seq<TokenKind>, f: Seq<TokenKind>, k: int)
    requires
        balanced(x),
        balanced(f),
        x.len() < k < x.len() + f.len() + 2,
    ensures
        depth((x + seq![TokenKind::LoopStart] + f + seq![TokenKind::LoopEnd]).take(k)) >= 1,
{
    let open = seq![TokenKind::LoopStart];
    let w = x + open + f + seq![TokenKind::LoopEnd];
    assert(w.take(k) =~= x + open + f.take(k - x.len() - 1));
    lemma_depth_single(TokenKind::LoopStart);
    lemma_depth_concat(x + open, f.take(k - x.len() - 1));
    lemma_depth_concat(x, open);
}

/// Two primitive programs written with the same tokens are the same program.
pub proof fn lemma_flatten_injective(a: Seq<Cmd>, b: Seq<Cmd>)
    requires
        primitive(a),
        primitive(b),
        flatten(a) == flatten(b),
    ensures
        a == b,
    decreases flatten(a).len(),
{
    if a.len() == 0 || b.len() == 0 {
        if a.len() > 0 {
            lemma_primitive_cmd_balanced(a.last());
            assert(flatten(b) =~= Seq::<TokenKind>::empty());
        }
        if b.len() > 0 {
            lemma_primitive_cmd_balanced(b.last());
            assert(flatten(a) =~= Seq::<TokenKind>::empty());
        }
        assert(a =~= b);
    } else {
        let w = flatten(a);
        let (a1, ca) = (a.drop_last(), a.last());
        let (b1, cb) = (b.drop_last(), b.last());
        lemma_primitive_cmd_balanced(ca);
        lemma_primitive_cmd_balanced(cb);
        lemma_primitive_balanced(a1);
        lemma_primitive_balanced(b1);
        let xa = flatten(a1);
        let xb = flatten(b1);
        assert(w.last() == flatten_cmd(ca).last());
        assert(w.last() == flatten_cmd(cb).last());
        assert(primitive_cmd(ca) && primitive_cmd(cb));
        if let (Cmd::Loop(ba), Cmd::Loop(bb)) = (ca, cb) {
            let fa = flatten(ba);
            let fb = flatten(bb);
            lemma_primitive_balanced(ba);
            lemma_primitive_balanced(bb);
            assert(w =~= xa + seq![TokenKind::LoopStart] + fa + seq![TokenKind::LoopEnd]);
            assert(w =~= xb + seq![TokenKind::LoopStart] + fb + seq![TokenKind::LoopEnd]);
            if xa.len() < xb.len() {
                lemma_open_position(xa, fa, xb.len() as int);
                assert(w.take(xb.len() as int) =~= xb);
                assert(false);
            }
            if xb.len() < xa.len() {
                lemma_open_position(xb, fb, xa.len() as int);
                assert(w.take(xa.len() as int) =~= xa);
                assert(false);
            }
            assert(xa =~= w.take(xa.len() as int));
            assert(xb =~= w.take(xb.len() as int));
            assert(fa =~= w.subrange(xa.len() + 1int, w.len() - 1));
            assert(fb =~= w.subrange(xb.len() + 1int, w.len() - 1));
            lemma_flatten_injective(a1, b1);
            lemma_flatten_injective(ba, bb);
            assert(a =~= a1.push(ca));
            assert(b =~= b1.push(cb));
        } else {
            assert(!(ca is Loop) && !(cb is Loop));
            assert(flatten_cmd(ca).len() == 1 && flatten_cmd(cb).len() == 1);
            assert(ca == cb);
            assert(xa =~= w.drop_last());
            assert(xb =~= w.drop_last());
            lemma_flatten_injective(a1, b1);
            assert(a =~= a1.push(ca));
            assert(b =~= b1.push(cb));
        }
    }
}

/// The tree a token sequence parses to is unique.
pub proof fn lemma_parse_unique(tokens: Seq<Token>, a: Seq<Cmd>, b: Seq<Cmd>)
    requires
        parses_to(tokens, a),
        parses_to(tokens, b),
    ensures
        a == b,
{
    lemma_flatten_injective(a, b);
}

} // verus!
