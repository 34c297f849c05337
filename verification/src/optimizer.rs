use vstd::prelude::*;

use crate::ast::{
    lemma_nodes_model, lemma_nodes_model_push, lemma_nodes_model_take, node_model, nodes_model, Cmd,
    Node,
};
use crate::parser::{flatten, flatten_cmd, primitive, primitive_cmd};
use crate::semantics::{
    cell, equivalent, lemma_equivalent_concat, lemma_equivalent_loop, lemma_equivalent_of_runs,
    lemma_equivalent_refl, lemma_equivalent_trans, lemma_run_concat,
    lemma_run_single, run, step, Machine, lemma_equivalent_decrement_loop,
    lemma_equivalent_clear_body_loop, lemma_equivalent_transfer_loops,
    lemma_equivalent_zero_transfer, transfer_body_first, transfer_body_last,
};

verus! {

/// The value fits in an `i64`.
pub open spec fn fits_i64(x: int) -> bool {
    i64::MIN <= x <= i64::MAX
}

/// Appends `Add(d)` to a merged sequence: a zero is dropped, an `Add` at the end absorbs it
/// (and disappears when the sum is zero); `None` when the sum leaves the range of `i64`.
pub open spec fn merge_add(out: Seq<Cmd>, d: int) -> Option<Seq<Cmd>> {
    if d == 0 {
        Some(out)
    } else if out.len() > 0 && out.last() is Add {
        let sum = out.last()->Add_0 + d;
        if !fits_i64(sum) {
            None
        } else if sum == 0 {
            Some(out.drop_last())
        } else {
            Some(out.drop_last().push(Cmd::Add(sum)))
        }
    } else {
        Some(out.push(Cmd::Add(d)))
    }
}

/// Appends `Move(d)` to a merged sequence, as `merge_add` does for `Add`.
pub open spec fn merge_move(out: Seq<Cmd>, d: int) -> Option<Seq<Cmd>> {
    if d == 0 {
        Some(out)
    } else if out.len() > 0 && out.last() is Move {
        let sum = out.last()->Move_0 + d;
        if !fits_i64(sum) {
            None
        } else if sum == 0 {
            Some(out.drop_last())
        } else {
            Some(out.drop_last().push(Cmd::Move(sum)))
        }
    } else {
        Some(out.push(Cmd::Move(d)))
    }
}

/// Appends one command to a merged sequence.
pub open spec fn merge_into(out: Seq<Cmd>, c: Cmd) -> Option<Seq<Cmd>> {
    match c {
        Cmd::Add(d) => merge_add(out, d),
        Cmd::Move(d) => merge_move(out, d),
        _ => Some(out.push(c)),
    }
}

/// Runs of adjacent `Add`s, and of adjacent `Move`s, merged into one (or none, when they
/// cancel), left to right; `None` when a running sum leaves the range of `i64`.
pub open spec fn merged(cmds: Seq<Cmd>) -> Option<Seq<Cmd>>
    decreases cmds.len(),
{
    if cmds.len() == 0 {
        Some(Seq::empty())
    } else {
        match merged(cmds.drop_last()) {
            Some(out) => merge_into(out, cmds.last()),
            None => None,
        }
    }
}

/// No `Add(0)` or `Move(0)`, and no two `Add`s or two `Move`s side by side.
pub open spec fn is_merged(s: Seq<Cmd>) -> bool {
    &&& forall|i: int| 0 <= i < s.len() ==> #[trigger] s[i] != Cmd::Add(0) && s[i] != Cmd::Move(0)
    &&& forall|i: int|
        0 <= i < s.len() - 1 ==> !(#[trigger] s[i] is Add && s[i + 1] is Add) && !(s[i] is Move
            && s[i + 1] is Move)
}

/// The loop body clears the current cell: `[Add(-1)]` or `[Clear]`.
pub open spec fn is_clear_body(body: Seq<Cmd>) -> bool {
    body.len() == 1 && (body[0] == Cmd::Add(-1) || body[0] == Cmd::Clear)
}

/// `Transfer`, or `Clear` when the multiplier is zero.
pub open spec fn transfer_cmd(offset: int, multiplier: int) -> Cmd {
    if multiplier == 0 {
        Cmd::Clear
    } else {
        Cmd::Transfer { offset, multiplier }
    }
}

/// What a loop with an optimized body becomes. `[Add(-1), Move(o), Add(k), Move(-o)]` and
/// `[Move(o), Add(k), Move(-o), Add(-1)]` with `o != 0` become a transfer; a clearing body
/// becomes `Clear`; any other loop stays. `None` when `o` is the least `i64`, whose
/// negation does not exist.
pub open spec fn classify(body: Seq<Cmd>) -> Option<Cmd> {
    if is_clear_body(body) {
        Some(Cmd::Clear)
    } else if body.len() == 4 && body[0] == Cmd::Add(-1) && body[1] is Move && body[2] is Add
        && body[3] is Move && body[1]->Move_0 != 0 {
        let offset = body[1]->Move_0;
        if offset == i64::MIN {
            None
        } else if body[3]->Move_0 == -offset {
            Some(transfer_cmd(offset, body[2]->Add_0))
        } else {
            Some(Cmd::Loop(body))
        }
    } else if body.len() == 4 && body[0] is Move && body[1] is Add && body[2] is Move && body[3]
        == Cmd::Add(-1) && body[0]->Move_0 != 0 {
        let offset = body[0]->Move_0;
        if offset == i64::MIN {
            None
        } else if body[2]->Move_0 == -offset {
            Some(transfer_cmd(offset, body[1]->Add_0))
        } else {
            Some(Cmd::Loop(body))
        }
    } else {
        Some(Cmd::Loop(body))
    }
}

/// The optimized form of a program: every loop body optimized and the loop classified,
/// then adjacent `Add`s and `Move`s merged. `None` when some arithmetic leaves `i64`.
pub open spec fn optimized(cmds: Seq<Cmd>) -> Option<Seq<Cmd>>
    decreases cmds, 2int,
{
    match rewrite_loops(cmds) {
        Some(r) => merged(r),
        None => None,
    }
}

/// Every loop of the sequence replaced by what its optimized body makes of it.
pub open spec fn rewrite_loops(cmds: Seq<Cmd>) -> Option<Seq<Cmd>>
    decreases cmds, 1int,
{
    if cmds.len() == 0 {
        Some(Seq::empty())
    } else {
        match (rewrite_loops(cmds.drop_last()), rewrite(cmds.last())) {
            (Some(r), Some(c)) => Some(r.push(c)),
            _ => None,
        }
    }
}

/// A loop replaced by what its optimized body makes of it; other commands unchanged.
pub open spec fn rewrite(c: Cmd) -> Option<Cmd>
    decreases c, 0int,
{
    match c {
        Cmd::Loop(body) => match optimized(body) {
            Some(b) => classify(b),
            None => None,
        },
        _ => Some(c),
    }
}

/// Merging yields a merged sequence.
pub proof fn lemma_merged_is_merged(cmds: Seq<Cmd>)
    requires
        merged(cmds) is Some,
    ensures
        is_merged(merged(cmds).unwrap()),
    decreases cmds.len(),
{
    if cmds.len() > 0 {
        lemma_merged_is_merged(cmds.drop_last());
        let out = merged(cmds.drop_last()).unwrap();
        let y = merged(cmds).unwrap();
        if y.len() < out.len() {
            assert forall|i: int| 0 <= i < y.len() implies y[i] == out[i] by {}
        } else if y.len() == out.len() && y.len() > 0 {
            assert forall|i: int| 0 <= i < y.len() - 1 implies y[i] == out[i] by {}
        } else if y.len() > 0 {
            assert forall|i: int| 0 <= i < y.len() - 1 implies y[i] == out[i] by {}
        }
    }
}

/// A merged sequence is left as it is by merging.
pub proof fn lemma_merged_fixed(s: Seq<Cmd>)
    requires
        is_merged(s),
    ensures
        merged(s) == Some(s),
    decreases s.len(),
{
    if s.len() > 0 {
        let p = s.drop_last();
        assert(is_merged(p));
        lemma_merged_fixed(p);
        if s.len() > 1 {
            assert(s[s.len() - 2] == p.last());
        }
        assert(p.push(s.last()) =~= s);
    }
}

/// Running two commands that are not loops applies one, then the other.
proof fn lemma_run_pair(a: Cmd, b: Cmd, m: Machine, f: nat)
    requires
        a !is Loop,
        b !is Loop,
    ensures
        run(seq![a, b], m, f) == Some(step(b, step(a, m))),
{
    assert(seq![a, b] =~= seq![a] + seq![b]);
    lemma_run_concat(seq![a], seq![b], m, f);
    lemma_run_single(a, m, f);
    lemma_run_single(b, step(a, m), f);
}

/// `Add(0)` and `Move(0)` do nothing.
proof fn lemma_zero_is_nothing(c: Cmd)
    requires
        c == Cmd::Add(0) || c == Cmd::Move(0),
    ensures
        equivalent(seq![c], Seq::empty()),
{
    let single = seq![c];
    assert forall|m: Machine, f: nat| #[trigger] run(single, m, f) == run(Seq::<Cmd>::empty(), m, f) by {
        lemma_run_single(c, m, f);
        assert(step(c, m).tape =~= m.tape);
        assert(step(c, m) =~= m);
    }
    lemma_equivalent_of_runs(seq![c], Seq::empty());
}

/// Two adjacent `Add`s (or `Move`s) do what their sum does.
proof fn lemma_pair_is_sum(a: Cmd, b: Cmd, sum: int)
    requires
        (a is Add && b is Add && sum == a->Add_0 + b->Add_0) || (a is Move && b is Move && sum
            == a->Move_0 + b->Move_0),
    ensures
        a is Add ==> equivalent(seq![a, b], seq![Cmd::Add(sum)]),
        a is Move ==> equivalent(seq![a, b], seq![Cmd::Move(sum)]),
{
    let c = if a is Add { Cmd::Add(sum) } else { Cmd::Move(sum) };
    let pair = seq![a, b];
    let single = seq![c];
    assert forall|m: Machine, f: nat| #[trigger] run(pair, m, f) == run(single, m, f) by {
        lemma_run_pair(a, b, m, f);
        lemma_run_single(c, m, f);
        if a is Add {
            let x = cell(m) as int;
            vstd::arithmetic::div_mod::lemma_add_mod_noop_right(b->Add_0, x + a->Add_0, 256);
            assert(step(b, step(a, m)).tape =~= step(c, m).tape);
        }
        assert(step(b, step(a, m)) =~= step(c, m));
    }
    lemma_equivalent_of_runs(seq![a, b], seq![c]);
}

/// Appending one command to a merged sequence keeps its meaning.
proof fn lemma_merge_into_equivalent(out: Seq<Cmd>, c: Cmd)
    requires
        merge_into(out, c) is Some,
    ensures
        equivalent(out.push(c), merge_into(out, c).unwrap()),
{
    let y = merge_into(out, c).unwrap();
    lemma_equivalent_refl(out);
    if c == Cmd::Add(0) || c == Cmd::Move(0) {
        lemma_zero_is_nothing(c);
        lemma_equivalent_concat(out, out, seq![c], Seq::empty());
        assert(out + seq![c] =~= out.push(c));
        assert(out + Seq::<Cmd>::empty() =~= out);
    } else if (c is Add && out.len() > 0 && out.last() is Add) || (c is Move && out.len() > 0
        && out.last() is Move) {
        let p = out.drop_last();
        let a = out.last();
        lemma_equivalent_refl(p);
        assert(out.push(c) =~= p + seq![a, c]);
        if c is Add {
            let sum = a->Add_0 + c->Add_0;
            lemma_pair_is_sum(a, c, sum);
            if sum == 0 {
                lemma_zero_is_nothing(Cmd::Add(0));
                lemma_equivalent_trans(seq![a, c], seq![Cmd::Add(sum)], Seq::empty());
                lemma_equivalent_concat(p, p, seq![a, c], Seq::empty());
                assert(p + Seq::<Cmd>::empty() =~= y);
            } else {
                lemma_equivalent_concat(p, p, seq![a, c], seq![Cmd::Add(sum)]);
                assert(p + seq![Cmd::Add(sum)] =~= y);
            }
        } else {
            let sum = a->Move_0 + c->Move_0;
            lemma_pair_is_sum(a, c, sum);
            if sum == 0 {
                lemma_zero_is_nothing(Cmd::Move(0));
                lemma_equivalent_trans(seq![a, c], seq![Cmd::Move(sum)], Seq::empty());
                lemma_equivalent_concat(p, p, seq![a, c], Seq::empty());
                assert(p + Seq::<Cmd>::empty() =~= y);
            } else {
                lemma_equivalent_concat(p, p, seq![a, c], seq![Cmd::Move(sum)]);
                assert(p + seq![Cmd::Move(sum)] =~= y);
            }
        }
    } else {
        lemma_equivalent_refl(out.push(c));
    }
}

/// Merging keeps the meaning of a program.
pub proof fn lemma_merged_equivalent(cmds: Seq<Cmd>)
    requires
        merged(cmds) is Some,
    ensures
        equivalent(cmds, merged(cmds).unwrap()),
    decreases cmds.len(),
{
    if cmds.len() == 0 {
        assert(merged(cmds).unwrap() =~= cmds);
        lemma_equivalent_refl(cmds);
    } else {
        let p = cmds.drop_last();
        let c = cmds.last();
        lemma_merged_equivalent(p);
        let out = merged(p).unwrap();
        lemma_equivalent_refl(seq![c]);
        lemma_equivalent_concat(p, out, seq![c], seq![c]);
        assert(p + seq![c] =~= cmds);
        assert(out + seq![c] =~= out.push(c));
        lemma_merge_into_equivalent(out, c);
        lemma_equivalent_trans(cmds, out.push(c), merged(cmds).unwrap());
    }
}

/// `r` is `s` with every command rewritten.
pub open spec fn rewrites_to(s: Seq<Cmd>, r: Seq<Cmd>) -> bool {
    &&& s.len() == r.len()
    &&& forall|i: int| 0 <= i < s.len() ==> rewrite(#[trigger] s[i]) == Some(r[i])
}

/// `rewrite_loops` rewrites element by element.
pub proof fn lemma_rewrite_loops_elementwise(s: Seq<Cmd>)
    ensures
        rewrite_loops(s) is Some <==> forall|i: int| 0 <= i < s.len() ==> rewrite(#[trigger] s[i]) is Some,
        rewrite_loops(s) is Some ==> rewrites_to(s, rewrite_loops(s).unwrap()),
        forall|r: Seq<Cmd>| #[trigger] rewrites_to(s, r) ==> rewrite_loops(s) == Some(r),
    decreases s.len(),
{
    if s.len() > 0 {
        let p = s.drop_last();
        lemma_rewrite_loops_elementwise(p);
        if rewrite_loops(s) is Some {
            let r = rewrite_loops(s).unwrap();
            assert forall|i: int| 0 <= i < s.len() implies rewrite(#[trigger] s[i]) == Some(r[i]) by {
                if i < s.len() - 1 {
                    assert(s[i] == p[i]);
                }
            }
        }
        if forall|i: int| 0 <= i < s.len() ==> rewrite(#[trigger] s[i]) is Some {
            assert forall|i: int| 0 <= i < p.len() implies rewrite(#[trigger] p[i]) is Some by {
                assert(p[i] == s[i]);
            }
        } else {
            let j = choose|j: int| 0 <= j < s.len() && !(rewrite(#[trigger] s[j]) is Some);
            if j < s.len() - 1 {
                assert(p[j] == s[j]);
            }
        }
        assert forall|r: Seq<Cmd>| #[trigger] rewrites_to(s, r) implies rewrite_loops(s) == Some(r) by {
            let rp = r.drop_last();
            assert forall|i: int| 0 <= i < p.len() implies rewrite(#[trigger] p[i]) == Some(rp[i]) by {
                assert(p[i] == s[i]);
            }
            assert(rewrites_to(p, rp));
            assert(rewrite(s.last()) == Some(r.last()));
            assert(rp.push(r.last()) =~= r);
        }
    } else {
        assert forall|r: Seq<Cmd>| #[trigger] rewrites_to(s, r) implies rewrite_loops(s) == Some(r) by {
            assert(r =~= Seq::<Cmd>::empty());
        }
    }
}

/// Rewriting keeps `Add`s and `Move`s as they are and turns anything else into something
/// that is neither.
pub proof fn lemma_rewrite_kind(c: Cmd)
    requires
        rewrite(c) is Some,
    ensures
        (c is Add || c is Move) ==> rewrite(c) == Some(c),
        !(c is Add || c is Move) ==> !(rewrite(c).unwrap() is Add || rewrite(c).unwrap() is Move),
{
}

/// Rewriting commutes with appending an `Add` or a `Move` to a merged sequence.
proof fn lemma_rewrite_merge_into(o: Seq<Cmd>, c: Cmd)
    requires
        c is Add || c is Move,
    ensures
        (match merge_into(o, c) {
            Some(y) => rewrite_loops(y),
            None => None,
        }) == (match rewrite_loops(o) {
            Some(ro) => merge_into(ro, c),
            None => None,
        }),
{
    lemma_rewrite_loops_elementwise(o);
    match rewrite_loops(o) {
        Some(ro) => {
            if o.len() > 0 {
                lemma_rewrite_kind(o.last());
                assert(ro.last() == rewrite(o.last()).unwrap());
            }
            match merge_into(o, c) {
                Some(y) => {
                    lemma_rewrite_loops_elementwise(y);
                    let ry = merge_into(ro, c).unwrap();
                    assert forall|i: int| 0 <= i < y.len() implies rewrite(#[trigger] y[i]) == Some(ry[i]) by {
                        if i < o.len() && y[i] == o[i] {
                            assert(rewrite(o[i]) == Some(ro[i]));
                        } else {
                            lemma_rewrite_kind(y[i]);
                        }
                    }
                    assert(rewrites_to(y, ry));
                },
                None => {},
            }
        },
        None => {
            let j = choose|j: int| 0 <= j < o.len() && !(rewrite(#[trigger] o[j]) is Some);
            match merge_into(o, c) {
                Some(y) => {
                    lemma_rewrite_loops_elementwise(y);
                    assert(y[j] == o[j]);
                },
                None => {},
            }
        },
    }
}

/// Rewriting loops and merging commute.
pub proof fn lemma_rewrite_merged_commute(x: Seq<Cmd>)
    ensures
        (match merged(x) {
            Some(a) => rewrite_loops(a),
            None => None,
        }) == (match rewrite_loops(x) {
            Some(r) => merged(r),
            None => None,
        }),
    decreases x.len(),
{
    if x.len() > 0 {
        let p = x.drop_last();
        let c = x.last();
        lemma_rewrite_merged_commute(p);
        lemma_rewrite_loops_elementwise(x);
        lemma_rewrite_loops_elementwise(p);
        if rewrite_loops(p) is Some && rewrite(c) is Some {
            let rp = rewrite_loops(p).unwrap();
            let d = rewrite(c).unwrap();
            assert(rewrite_loops(x) == Some(rp.push(d)));
            assert(rp.push(d).drop_last() =~= rp);
            lemma_rewrite_kind(c);
            match merged(p) {
                Some(o) => {
                    if c is Add || c is Move {
                        lemma_rewrite_merge_into(o, c);
                    } else {
                        lemma_rewrite_loops_elementwise(o);
                        lemma_rewrite_loops_elementwise(o.push(c));
                        if rewrite_loops(o) is Some {
                            let ro = rewrite_loops(o).unwrap();
                            assert(rewrites_to(o.push(c), ro.push(d)));
                        } else {
                            let j = choose|j: int| 0 <= j < o.len() && !(rewrite(#[trigger] o[j]) is Some);
                            assert(o.push(c)[j] == o[j]);
                        }
                    }
                },
                None => {},
            }
        } else if rewrite_loops(p) is Some {
            // the last command fails to rewrite
            match merged(p) {
                Some(o) => {
                    assert(!(c is Add || c is Move));
                    lemma_rewrite_loops_elementwise(o.push(c));
                    assert(o.push(c)[o.len() as int] == c);
                },
                None => {},
            }
        } else {
            match merged(p) {
                Some(o) => {
                    lemma_rewrite_loops_elementwise(o);
                    let j = choose|j: int| 0 <= j < o.len() && !(rewrite(#[trigger] o[j]) is Some);
                    if c is Add || c is Move {
                        lemma_rewrite_merge_into(o, c);
                    } else {
                        lemma_rewrite_loops_elementwise(o.push(c));
                        assert(o.push(c)[j] == o[j]);
                    }
                },
                None => {},
            }
        }
    }
}

/// A loop with an optimized body is equivalent to what `classify` makes of it.
pub proof fn lemma_classify_equivalent(body: Seq<Cmd>)
    requires
        classify(body) is Some,
    ensures
        equivalent(seq![Cmd::Loop(body)], seq![classify(body).unwrap()]),
{
    let lp = seq![Cmd::Loop(body)];
    if is_clear_body(body) {
        if body[0] == Cmd::Add(-1) {
            assert(body =~= seq![Cmd::Add(-1)]);
            lemma_equivalent_decrement_loop();
        } else {
            assert(body =~= seq![Cmd::Clear]);
            lemma_equivalent_clear_body_loop();
        }
    } else if classify(body) == Some(Cmd::Loop(body)) {
        lemma_equivalent_refl(lp);
    } else {
        let (offset, multiplier) = if body[0] == Cmd::Add(-1) {
            assert(body =~= transfer_body_first(body[1]->Move_0, body[2]->Add_0));
            (body[1]->Move_0, body[2]->Add_0)
        } else {
            assert(body =~= transfer_body_last(body[0]->Move_0, body[1]->Add_0));
            (body[0]->Move_0, body[1]->Add_0)
        };
        lemma_equivalent_transfer_loops(offset, multiplier);
        if multiplier == 0 {
            lemma_equivalent_zero_transfer(offset);
            lemma_equivalent_trans(
                lp,
                seq![Cmd::Transfer { offset, multiplier }],
                seq![Cmd::Clear],
            );
        }
    }
}

/// Optimizing keeps the meaning of a program.
pub proof fn lemma_optimized_equivalent(cmds: Seq<Cmd>)
    requires
        optimized(cmds) is Some,
    ensures
        equivalent(cmds, optimized(cmds).unwrap()),
    decreases cmds, 2int,
{
    let r = rewrite_loops(cmds).unwrap();
    lemma_rewrite_loops_equivalent(cmds);
    lemma_merged_equivalent(r);
    lemma_equivalent_trans(cmds, r, optimized(cmds).unwrap());
}

/// Rewriting the loops of a program keeps its meaning.
pub proof fn lemma_rewrite_loops_equivalent(cmds: Seq<Cmd>)
    requires
        rewrite_loops(cmds) is Some,
    ensures
        equivalent(cmds, rewrite_loops(cmds).unwrap()),
    decreases cmds, 1int,
{
    if cmds.len() == 0 {
        assert(rewrite_loops(cmds).unwrap() =~= cmds);
        lemma_equivalent_refl(cmds);
    } else {
        let p = cmds.drop_last();
        let c = cmds.last();
        lemma_rewrite_loops_equivalent(p);
        lemma_rewrite_equivalent(c);
        let rp = rewrite_loops(p).unwrap();
        let d = rewrite(c).unwrap();
        lemma_equivalent_concat(p, rp, seq![c], seq![d]);
        assert(p + seq![c] =~= cmds);
        assert(rp + seq![d] =~= rewrite_loops(cmds).unwrap());
    }
}

/// Rewriting one command keeps its meaning.
pub proof fn lemma_rewrite_equivalent(c: Cmd)
    requires
        rewrite(c) is Some,
    ensures
        equivalent(seq![c], seq![rewrite(c).unwrap()]),
    decreases c, 0int,
{
    match c {
        Cmd::Loop(body) => {
            let b = optimized(body).unwrap();
            lemma_optimized_equivalent(body);
            lemma_equivalent_loop(body, b);
            lemma_classify_equivalent(b);
            lemma_equivalent_trans(seq![c], seq![Cmd::Loop(b)], seq![rewrite(c).unwrap()]);
        },
        _ => {
            lemma_equivalent_refl(seq![c]);
        },
    }
}

/// A prefix of a sequence whose merge stays in range merges in range too.
pub proof fn lemma_merged_prefix(s: Seq<Cmd>, i: int)
    requires
        0 <= i <= s.len(),
        merged(s) is Some,
    ensures
        merged(s.take(i)) is Some,
    decreases s.len(),
{
    if i < s.len() {
        assert(s.drop_last().take(i) =~= s.take(i));
        lemma_merged_prefix(s.drop_last(), i);
    } else {
        assert(s.take(i) =~= s);
    }
}

/// Merging one command more.
pub proof fn lemma_merged_push(s: Seq<Cmd>, c: Cmd)
    ensures
        merged(s.push(c)) == (match merged(s) {
            Some(o) => merge_into(o, c),
            None => None,
        }),
{
    assert(s.push(c).drop_last() =~= s);
}

/// The absolute value.
pub open spec fn abs(x: int) -> int {
    if x < 0 {
        -x
    } else {
        x
    }
}

/// The sum of the absolute values of all the amounts a command carries.
pub open spec fn magnitude_cmd(c: Cmd) -> int
    decreases c,
{
    match c {
        Cmd::Add(d) => abs(d),
        Cmd::Move(d) => abs(d),
        Cmd::Loop(body) => magnitude(body),
        Cmd::Transfer { offset, multiplier } => abs(offset) + abs(multiplier),
        _ => 0,
    }
}

/// The sum of the absolute values of all the amounts a program carries, at every depth.
pub open spec fn magnitude(cmds: Seq<Cmd>) -> int
    decreases cmds,
{
    if cmds.len() == 0 {
        0
    } else {
        magnitude(cmds.drop_last()) + magnitude_cmd(cmds.last())
    }
}

proof fn lemma_magnitude_nonneg(cmds: Seq<Cmd>)
    ensures
        magnitude(cmds) >= 0,
    decreases cmds, 1int,
{
    if cmds.len() > 0 {
        lemma_magnitude_nonneg(cmds.drop_last());
        lemma_magnitude_cmd_nonneg(cmds.last());
    }
}

proof fn lemma_magnitude_cmd_nonneg(c: Cmd)
    ensures
        magnitude_cmd(c) >= 0,
    decreases c, 0int,
{
    if let Cmd::Loop(body) = c {
        lemma_magnitude_nonneg(body);
    }
}

proof fn lemma_magnitude_push(cmds: Seq<Cmd>, c: Cmd)
    ensures
        magnitude(cmds.push(c)) == magnitude(cmds) + magnitude_cmd(c),
{
    assert(cmds.push(c).drop_last() =~= cmds);
}

/// Merging stays in range, and never grows the magnitude, when the magnitude fits in `i64`.
pub proof fn lemma_merged_magnitude(cmds: Seq<Cmd>)
    requires
        magnitude(cmds) <= i64::MAX,
    ensures
        merged(cmds) is Some,
        magnitude(merged(cmds).unwrap()) <= magnitude(cmds),
    decreases cmds.len(),
{
    if cmds.len() > 0 {
        let p = cmds.drop_last();
        let c = cmds.last();
        lemma_magnitude_nonneg(p);
        lemma_magnitude_cmd_nonneg(c);
        lemma_merged_magnitude(p);
        let o = merged(p).unwrap();
        lemma_magnitude_nonneg(o);
        if o.len() > 0 {
            lemma_magnitude_nonneg(o.drop_last());
            lemma_magnitude_cmd_nonneg(o.last());
            assert(o.drop_last().push(o.last()) =~= o);
            lemma_magnitude_push(o.drop_last(), o.last());
        }
        match c {
            Cmd::Add(d) => {
                if d != 0 && o.len() > 0 && o.last() is Add {
                    lemma_magnitude_push(o.drop_last(), Cmd::Add(o.last()->Add_0 + d));
                } else if d != 0 {
                    lemma_magnitude_push(o, c);
                }
            },
            Cmd::Move(d) => {
                if d != 0 && o.len() > 0 && o.last() is Move {
                    lemma_magnitude_push(o.drop_last(), Cmd::Move(o.last()->Move_0 + d));
                } else if d != 0 {
                    lemma_magnitude_push(o, c);
                }
            },
            _ => {
                lemma_magnitude_push(o, c);
            },
        }
    }
}

/// Optimizing stays in range, and never grows the magnitude, when the magnitude fits in `i64`.
pub proof fn lemma_optimized_magnitude(cmds: Seq<Cmd>)
    requires
        magnitude(cmds) <= i64::MAX,
    ensures
        optimized(cmds) is Some,
        magnitude(optimized(cmds).unwrap()) <= magnitude(cmds),
    decreases cmds, 2int,
{
    lemma_rewrite_loops_magnitude(cmds);
    lemma_merged_magnitude(rewrite_loops(cmds).unwrap());
}

/// Rewriting loops stays in range, and never grows the magnitude, when it fits in `i64`.
pub proof fn lemma_rewrite_loops_magnitude(cmds: Seq<Cmd>)
    requires
        magnitude(cmds) <= i64::MAX,
    ensures
        rewrite_loops(cmds) is Some,
        magnitude(rewrite_loops(cmds).unwrap()) <= magnitude(cmds),
    decreases cmds, 1int,
{
    if cmds.len() > 0 {
        let p = cmds.drop_last();
        let c = cmds.last();
        lemma_magnitude_nonneg(p);
        lemma_magnitude_cmd_nonneg(c);
        lemma_rewrite_loops_magnitude(p);
        lemma_rewrite_magnitude(c);
        lemma_magnitude_push(rewrite_loops(p).unwrap(), rewrite(c).unwrap());
    }
}

/// Rewriting a command stays in range, and never grows its magnitude, when it fits in `i64`.
pub proof fn lemma_rewrite_magnitude(c: Cmd)
    requires
        magnitude_cmd(c) <= i64::MAX,
    ensures
        rewrite(c) is Some,
        magnitude_cmd(rewrite(c).unwrap()) <= magnitude_cmd(c),
    decreases c, 0int,
{
    if let Cmd::Loop(body) = c {
        lemma_optimized_magnitude(body);
        let b = optimized(body).unwrap();
        lemma_magnitude_nonneg(b);
        if b.len() == 4 {
            let e = Seq::<Cmd>::empty();
            assert(e.push(b[0]) =~= seq![b[0]]);
            assert(seq![b[0]].push(b[1]) =~= seq![b[0], b[1]]);
            assert(seq![b[0], b[1]].push(b[2]) =~= seq![b[0], b[1], b[2]]);
            assert(seq![b[0], b[1], b[2]].push(b[3]) =~= b);
            lemma_magnitude_push(e, b[0]);
            lemma_magnitude_push(seq![b[0]], b[1]);
            lemma_magnitude_push(seq![b[0], b[1]], b[2]);
            lemma_magnitude_push(seq![b[0], b[1], b[2]], b[3]);
            lemma_magnitude_cmd_nonneg(b[0]);
            lemma_magnitude_cmd_nonneg(b[1]);
            lemma_magnitude_cmd_nonneg(b[2]);
            lemma_magnitude_cmd_nonneg(b[3]);
            assert(magnitude(b) == magnitude_cmd(b[0]) + magnitude_cmd(b[1]) + magnitude_cmd(b[2])
                + magnitude_cmd(b[3]));
        }
    }
}

/// A primitive program carries no more magnitude than it has tokens.
pub proof fn lemma_primitive_magnitude(cmds: Seq<Cmd>)
    requires
        primitive(cmds),
    ensures
        magnitude(cmds) <= flatten(cmds).len(),
    decreases cmds, 1int,
{
    if cmds.len() > 0 {
        lemma_primitive_magnitude(cmds.drop_last());
        lemma_primitive_cmd_magnitude(cmds.last());
    }
}

/// A primitive command carries no more magnitude than it has tokens.
pub proof fn lemma_primitive_cmd_magnitude(c: Cmd)
    requires
        primitive_cmd(c),
    ensures
        magnitude_cmd(c) <= flatten_cmd(c).len(),
    decreases c, 0int,
{
    if let Cmd::Loop(body) = c {
        lemma_primitive_magnitude(body);
    }
}

/// The form the optimizer leaves a program in: merged, and every loop, at every depth, has a
/// body in this form that is neither a clearing loop nor a transfer loop.
pub open spec fn in_normal_form(cmds: Seq<Cmd>) -> bool
    decreases cmds, 2int,
{
    is_merged(cmds) && loops_in_normal_form(cmds)
}

/// Every loop of the sequence is in normal form.
pub open spec fn loops_in_normal_form(cmds: Seq<Cmd>) -> bool
    decreases cmds, 1int,
{
    cmds.len() == 0 || (loops_in_normal_form(cmds.drop_last()) && loop_in_normal_form(
        cmds.last(),
    ))
}

/// A loop is in normal form when its body is and `classify` leaves it a loop.
pub open spec fn loop_in_normal_form(c: Cmd) -> bool
    decreases c, 0int,
{
    match c {
        Cmd::Loop(body) => in_normal_form(body) && classify(body) == Some(Cmd::Loop(body)),
        _ => true,
    }
}

proof fn lemma_loops_in_normal_form_elementwise(s: Seq<Cmd>)
    ensures
        loops_in_normal_form(s) <==> forall|i: int| 0 <= i < s.len() ==> loop_in_normal_form(#[trigger] s[i]),
    decreases s.len(),
{
    if s.len() > 0 {
        lemma_loops_in_normal_form_elementwise(s.drop_last());
        if forall|i: int| 0 <= i < s.len() ==> loop_in_normal_form(#[trigger] s[i]) {
            assert forall|i: int| 0 <= i < s.drop_last().len() implies loop_in_normal_form(
                #[trigger] s.drop_last()[i],
            ) by {
                assert(s.drop_last()[i] == s[i]);
            }
        }
        if loops_in_normal_form(s) {
            assert forall|i: int| 0 <= i < s.len() implies loop_in_normal_form(#[trigger] s[i]) by {
                if i < s.len() - 1 {
                    assert(s.drop_last()[i] == s[i]);
                }
            }
        }
    }
}

/// The optimizer's output is in normal form.
pub proof fn lemma_optimized_normal_form(cmds: Seq<Cmd>)
    requires
        optimized(cmds) is Some,
    ensures
        in_normal_form(optimized(cmds).unwrap()),
    decreases cmds, 2int,
{
    let r = rewrite_loops(cmds).unwrap();
    let y = optimized(cmds).unwrap();
    lemma_rewrite_loops_elementwise(cmds);
    lemma_merged_is_merged(r);
    lemma_merged_keeps_others(r);
    assert forall|j: int| 0 <= j < r.len() implies loop_in_normal_form(#[trigger] r[j]) by {
        lemma_rewrite_normal_form(cmds[j]);
    }
    assert forall|i: int| 0 <= i < y.len() implies loop_in_normal_form(#[trigger] y[i]) by {
        if !(y[i] is Add || y[i] is Move) {
            let j = choose|j: int| 0 <= j < r.len() && r[j] == #[trigger] y[i];
            assert(loop_in_normal_form(r[j]));
        }
    }
    lemma_loops_in_normal_form_elementwise(y);
}

/// What a command is rewritten to is in normal form.
pub proof fn lemma_rewrite_normal_form(c: Cmd)
    requires
        rewrite(c) is Some,
    ensures
        loop_in_normal_form(rewrite(c).unwrap()),
    decreases c, 0int,
{
    if let Cmd::Loop(body) = c {
        lemma_optimized_normal_form(body);
    }
}

/// A program in normal form is left as it is by the optimizer.
pub proof fn lemma_normal_form_fixed(cmds: Seq<Cmd>)
    requires
        in_normal_form(cmds),
    ensures
        optimized(cmds) == Some(cmds),
    decreases cmds, 2int,
{
    lemma_loops_in_normal_form_elementwise(cmds);
    assert forall|i: int| 0 <= i < cmds.len() implies rewrite(#[trigger] cmds[i]) == Some(cmds[i]) by {
        lemma_normal_loop_fixed(cmds[i]);
    }
    lemma_rewrite_loops_elementwise(cmds);
    assert(rewrites_to(cmds, cmds));
    lemma_merged_fixed(cmds);
}

/// A loop in normal form is rewritten to itself.
proof fn lemma_normal_loop_fixed(c: Cmd)
    requires
        loop_in_normal_form(c),
    ensures
        rewrite(c) == Some(c),
    decreases c, 0int,
{
    if let Cmd::Loop(body) = c {
        lemma_normal_form_fixed(body);
    }
}

/// Optimizing twice gives what optimizing once gives.
pub proof fn lemma_optimize_idempotent(cmds: Seq<Cmd>)
    requires
        optimized(cmds) is Some,
    ensures
        optimized(optimized(cmds).unwrap()) == optimized(cmds),
{
    lemma_optimized_normal_form(cmds);
    lemma_normal_form_fixed(optimized(cmds).unwrap());
}

/// Merging `[Add(-1), Move(o), Add(0), Move(-o)]` or `[Move(o), Add(0), Move(-o), Add(-1)]`
/// leaves `[Add(-1)]`.
proof fn lemma_merged_cancelled_transfer(o: int)
    requires
        o != 0,
        fits_i64(o),
        fits_i64(-o),
    ensures
        merged(seq![Cmd::Add(-1), Cmd::Move(o), Cmd::Add(0), Cmd::Move(-o)]) == Some(seq![Cmd::Add(-1)]),
        merged(seq![Cmd::Move(o), Cmd::Add(0), Cmd::Move(-o), Cmd::Add(-1)]) == Some(seq![Cmd::Add(-1)]),
{
    let e = Seq::<Cmd>::empty();
    let a = seq![Cmd::Add(-1), Cmd::Move(o), Cmd::Add(0), Cmd::Move(-o)];
    lemma_merged_push(e, Cmd::Add(-1));
    assert(e.push(Cmd::Add(-1)) =~= seq![Cmd::Add(-1)]);
    lemma_merged_push(seq![Cmd::Add(-1)], Cmd::Move(o));
    assert(seq![Cmd::Add(-1)].push(Cmd::Move(o)) =~= seq![Cmd::Add(-1), Cmd::Move(o)]);
    lemma_merged_push(seq![Cmd::Add(-1), Cmd::Move(o)], Cmd::Add(0));
    assert(seq![Cmd::Add(-1), Cmd::Move(o)].push(Cmd::Add(0)) =~= seq![Cmd::Add(-1), Cmd::Move(o), Cmd::Add(0)]);
    lemma_merged_push(seq![Cmd::Add(-1), Cmd::Move(o), Cmd::Add(0)], Cmd::Move(-o));
    assert(seq![Cmd::Add(-1), Cmd::Move(o), Cmd::Add(0)].push(Cmd::Move(-o)) =~= a);
    assert(seq![Cmd::Add(-1), Cmd::Move(o)].drop_last() =~= seq![Cmd::Add(-1)]);

    let b = seq![Cmd::Move(o), Cmd::Add(0), Cmd::Move(-o), Cmd::Add(-1)];
    lemma_merged_push(e, Cmd::Move(o));
    assert(e.push(Cmd::Move(o)) =~= seq![Cmd::Move(o)]);
    lemma_merged_push(seq![Cmd::Move(o)], Cmd::Add(0));
    assert(seq![Cmd::Move(o)].push(Cmd::Add(0)) =~= seq![Cmd::Move(o), Cmd::Add(0)]);
    lemma_merged_push(seq![Cmd::Move(o), Cmd::Add(0)], Cmd::Move(-o));
    assert(seq![Cmd::Move(o), Cmd::Add(0)].push(Cmd::Move(-o)) =~= seq![Cmd::Move(o), Cmd::Add(0), Cmd::Move(-o)]);
    lemma_merged_push(seq![Cmd::Move(o), Cmd::Add(0), Cmd::Move(-o)], Cmd::Add(-1));
    assert(seq![Cmd::Move(o), Cmd::Add(0), Cmd::Move(-o)].push(Cmd::Add(-1)) =~= b);
    assert(seq![Cmd::Move(o)].drop_last() =~= e);
    assert(e.push(Cmd::Add(-1)) =~= seq![Cmd::Add(-1)]);
}

/// Optimizing a one-loop program whose body has no loops: the body is optimized, then
/// classified.
proof fn lemma_optimized_single_loop(body: Seq<Cmd>, ob: Seq<Cmd>, c: Cmd)
    requires
        optimized(body) == Some(ob),
        classify(ob) == Some(c),
        !(c is Add || c is Move),
    ensures
        optimized(seq![Cmd::Loop(body)]) == Some(seq![c]),
{
    lemma_rewrite_loops_elementwise(seq![Cmd::Loop(body)]);
    assert(rewrites_to(seq![Cmd::Loop(body)], seq![c]));
    lemma_merged_fixed(seq![c]);
}

/// A loop body without loops rewrites to itself.
proof fn lemma_rewrite_loops_flat(body: Seq<Cmd>)
    requires
        forall|i: int| 0 <= i < body.len() ==> !(#[trigger] body[i] is Loop),
    ensures
        rewrite_loops(body) == Some(body),
{
    lemma_rewrite_loops_elementwise(body);
    assert(rewrites_to(body, body));
}

/// Transfer loops are recognized whatever the sign of the offset: a loop that decrements the
/// current cell once and adds `multiplier` to the cell `offset` away, returning to where it
/// started, in either order, becomes `Transfer { offset, multiplier }`, or `Clear` when the
/// multiplier is zero.
pub proof fn lemma_transfer_loops_recognized(offset: int, multiplier: int)
    requires
        offset != 0,
        i64::MIN < offset <= i64::MAX,
        fits_i64(multiplier),
    ensures
        optimized(
            seq![Cmd::Loop(seq![Cmd::Add(-1), Cmd::Move(offset), Cmd::Add(multiplier), Cmd::Move(-offset)])],
        ) == Some(
            seq![if multiplier == 0 { Cmd::Clear } else { Cmd::Transfer { offset, multiplier } }],
        ),
        optimized(
            seq![Cmd::Loop(seq![Cmd::Move(offset), Cmd::Add(multiplier), Cmd::Move(-offset), Cmd::Add(-1)])],
        ) == Some(
            seq![if multiplier == 0 { Cmd::Clear } else { Cmd::Transfer { offset, multiplier } }],
        ),
{
    let a = seq![Cmd::Add(-1), Cmd::Move(offset), Cmd::Add(multiplier), Cmd::Move(-offset)];
    let b = seq![Cmd::Move(offset), Cmd::Add(multiplier), Cmd::Move(-offset), Cmd::Add(-1)];
    lemma_rewrite_loops_flat(a);
    lemma_rewrite_loops_flat(b);
    if multiplier == 0 {
        lemma_merged_cancelled_transfer(offset);
        assert(classify(seq![Cmd::Add(-1)]) == Some(Cmd::Clear));
        lemma_optimized_single_loop(a, seq![Cmd::Add(-1)], Cmd::Clear);
        lemma_optimized_single_loop(b, seq![Cmd::Add(-1)], Cmd::Clear);
    } else {
        assert(is_merged(a));
        assert(is_merged(b));
        lemma_merged_fixed(a);
        lemma_merged_fixed(b);
        let t = Cmd::Transfer { offset, multiplier };
        assert(classify(a) == Some(t));
        assert(classify(b) == Some(t));
        lemma_optimized_single_loop(a, a, t);
        lemma_optimized_single_loop(b, b, t);
    }
}

/// The body of a transfer loop: decrement the cell, go `o` cells away with `o != 0`, add,
/// come back; or go, add, come back, then decrement.
pub open spec fn transfer_shaped(body: Seq<Cmd>) -> bool {
    &&& body.len() == 4
    &&& {
        ||| body[0] == Cmd::Add(-1) && body[1] is Move && body[1]->Move_0 != 0 && body[2] is Add
            && body[3] == Cmd::Move(-body[1]->Move_0)
        ||| body[3] == Cmd::Add(-1) && body[0] is Move && body[0]->Move_0 != 0 && body[1] is Add
            && body[2] == Cmd::Move(-body[0]->Move_0)
    }
}

/// No loop of the sequence, at any depth, has a transfer loop's body or `[Add(-1)]`.
pub open spec fn no_idiom_loops(cmds: Seq<Cmd>) -> bool
    decreases cmds, 1int,
{
    cmds.len() == 0 || (no_idiom_loops(cmds.drop_last()) && no_idiom_loop(cmds.last()))
}

/// The command is no loop, or a loop whose body is neither a transfer loop's nor `[Add(-1)]`
/// and holds no such loop.
pub open spec fn no_idiom_loop(c: Cmd) -> bool
    decreases c, 0int,
{
    match c {
        Cmd::Loop(body) => !transfer_shaped(body) && body != seq![Cmd::Add(-1)] && no_idiom_loops(
            body,
        ),
        _ => true,
    }
}

proof fn lemma_normal_form_no_idiom_loops(cmds: Seq<Cmd>)
    requires
        loops_in_normal_form(cmds),
    ensures
        no_idiom_loops(cmds),
    decreases cmds, 1int,
{
    if cmds.len() > 0 {
        lemma_normal_form_no_idiom_loops(cmds.drop_last());
        lemma_normal_form_no_idiom_loop(cmds.last());
    }
}

proof fn lemma_normal_form_no_idiom_loop(c: Cmd)
    requires
        loop_in_normal_form(c),
    ensures
        no_idiom_loop(c),
    decreases c, 0int,
{
    if let Cmd::Loop(body) = c {
        assert(in_normal_form(body));
        lemma_normal_form_no_idiom_loops(body);
        if body =~= seq![Cmd::Add(-1)] {
            assert(is_clear_body(body));
        }
        if transfer_shaped(body) {
            assert(classify(body) != Some(Cmd::Loop(body)));
        }
    }
}

/// No loop that the optimizer leaves, at any depth, is one it recognizes: none has the body
/// of a transfer loop, whatever the sign of its offset, and none is `[-]`.
pub proof fn lemma_optimized_has_no_idiom_loops(cmds: Seq<Cmd>)
    requires
        optimized(cmds) is Some,
    ensures
        no_idiom_loops(optimized(cmds).unwrap()),
{
    lemma_optimized_normal_form(cmds);
    lemma_normal_form_no_idiom_loops(optimized(cmds).unwrap());
}

/// Appends `Add(delta)` to a merged vector of nodes.
fn push_add(out: &mut Vec<Node>, delta: i64)
    requires
        merge_add(nodes_model(old(out)@), delta as int) is Some,
    ensures
        nodes_model(final(out)@) == merge_add(nodes_model(old(out)@), delta as int).unwrap(),
{
    if delta == 0 {
        return;
    }
    let len = out.len();
    proof {
        lemma_nodes_model(out@);
    }
    if len > 0 {
        if let Node::Add(current) = &out[len - 1] {
            let current = *current;
            let ghost before = out@;
            assert(out@.drop_last().push(out@.last()) =~= out@);
            assert(nodes_model(before).drop_last() == nodes_model(before.drop_last()));
            let sum = current + delta;
            if sum == 0 {
                out.pop();
                assert(out@ =~= before.drop_last());
            } else {
                out.pop();
                out.push(Node::Add(sum));
                assert(out@ =~= before.drop_last().push(Node::Add(sum)));
                proof {
                    lemma_nodes_model_push(before.drop_last(), Node::Add(sum));
                }
            }
            return;
        }
    }
    let ghost before = out@;
    out.push(Node::Add(delta));
    proof {
        lemma_nodes_model_push(before, Node::Add(delta));
    }
}

/// Appends `Move(delta)` to a merged vector of nodes.
fn push_move(out: &mut Vec<Node>, delta: i64)
    requires
        merge_move(nodes_model(old(out)@), delta as int) is Some,
    ensures
        nodes_model(final(out)@) == merge_move(nodes_model(old(out)@), delta as int).unwrap(),
{
    if delta == 0 {
        return;
    }
    let len = out.len();
    proof {
        lemma_nodes_model(out@);
    }
    if len > 0 {
        if let Node::Move(current) = &out[len - 1] {
            let current = *current;
            let ghost before = out@;
            assert(out@.drop_last().push(out@.last()) =~= out@);
            assert(nodes_model(before).drop_last() == nodes_model(before.drop_last()));
            let sum = current + delta;
            if sum == 0 {
                out.pop();
                assert(out@ =~= before.drop_last());
            } else {
                out.pop();
                out.push(Node::Move(sum));
                assert(out@ =~= before.drop_last().push(Node::Move(sum)));
                proof {
                    lemma_nodes_model_push(before.drop_last(), Node::Move(sum));
                }
            }
            return;
        }
    }
    let ghost before = out@;
    out.push(Node::Move(delta));
    proof {
        lemma_nodes_model_push(before, Node::Move(delta));
    }
}

/// Merges runs of adjacent `Add`s and of adjacent `Move`s.
fn aggregate(nodes: Vec<Node>) -> (out: Vec<Node>)
    requires
        merged(nodes_model(nodes@)) is Some,
    ensures
        nodes_model(out@) == merged(nodes_model(nodes@)).unwrap(),
{
    let ghost all = nodes@;
    let mut out: Vec<Node> = Vec::new();
    for node in it: nodes
        invariant
            it.seq() == all,
            merged(nodes_model(all)) is Some,
            merged(nodes_model(all.take(it.index() as int))) == Some(nodes_model(out@)),
    {
        let ghost i = it.index() as int;
        proof {
            lemma_nodes_model(all);
            lemma_nodes_model_take(all, i + 1);
            lemma_merged_prefix(nodes_model(all), i + 1);
            lemma_nodes_model_take(all, i);
            assert(all.take(i + 1) =~= all.take(i).push(all[i]));
            lemma_nodes_model_push(all.take(i), all[i]);
            lemma_merged_push(nodes_model(all.take(i)), node_model(all[i]));
        }
        let ghost before = out@;
        match node {
            Node::Add(delta) => push_add(&mut out, delta),
            Node::Move(delta) => push_move(&mut out, delta),
            other => {
                out.push(other);
                proof {
                    lemma_nodes_model_push(before, other);
                }
            },
        }
    }
    proof {
        assert(all.take(all.len() as int) =~= all);
    }
    out
}

/// Merging keeps every command other than `Add` and `Move` from its input.
pub proof fn lemma_merged_keeps_others(x: Seq<Cmd>)
    requires
        merged(x) is Some,
    ensures
        forall|i: int|
            0 <= i < merged(x).unwrap().len() && !(merged(x).unwrap()[i] is Add
                || merged(x).unwrap()[i] is Move) ==> exists|j: int|
                0 <= j < x.len() && x[j] == #[trigger] merged(x).unwrap()[i],
    decreases x.len(),
{
    if x.len() > 0 {
        let p = x.drop_last();
        lemma_merged_keeps_others(p);
        let o = merged(p).unwrap();
        let a = merged(x).unwrap();
        assert forall|i: int|
            0 <= i < a.len() && !(a[i] is Add || a[i] is Move) implies exists|j: int|
                0 <= j < x.len() && x[j] == #[trigger] a[i] by {
            if i < o.len() && a[i] == o[i] {
                let j = choose|j: int| 0 <= j < p.len() && p[j] == #[trigger] o[i];
                assert(x[j] == p[j]);
            } else {
                assert(x[x.len() - 1] == a[i]);
            }
        }
    }
}

/// The loop body clears the current cell.
fn is_clear_loop(body: &[Node]) -> (res: bool)
    ensures
        res == is_clear_body(nodes_model(body@)),
{
    proof {
        lemma_nodes_model(body@);
    }
    if body.len() != 1 {
        return false;
    }
    match &body[0] {
        Node::Add(delta) => *delta == -1,
        Node::Clear => true,
        _ => false,
    }
}

/// Recognizes a transfer loop body.
fn recognize_transfer(body: &[Node]) -> (res: Option<Node>)
    requires
        classify(nodes_model(body@)) is Some,
        !is_clear_body(nodes_model(body@)),
    ensures
        res is Some ==> classify(nodes_model(body@)) == Some(node_model(res.unwrap())),
        res is None ==> classify(nodes_model(body@)) == Some(Cmd::Loop(nodes_model(body@))),
{
    proof {
        lemma_nodes_model(body@);
    }
    if body.len() != 4 {
        return None;
    }
    match (&body[0], &body[1], &body[2], &body[3]) {
        (
            Node::Add(dec),
            Node::Move(offset),
            Node::Add(multiplier),
            Node::Move(back),
        ) if *dec == -1 && *offset != 0 && *back == -*offset => {
            Some(make_transfer(*offset, *multiplier))
        },
        (
            Node::Move(offset),
            Node::Add(multiplier),
            Node::Move(back),
            Node::Add(dec),
        ) if *dec == -1 && *offset != 0 && *back == -*offset => {
            Some(make_transfer(*offset, *multiplier))
        },
        _ => None,
    }
}

/// `Transfer`, or `Clear` when the multiplier is zero.
fn make_transfer(offset: i64, multiplier: i64) -> (res: Node)
    ensures
        node_model(res) == transfer_cmd(offset as int, multiplier as int),
{
    if multiplier == 0 {
        Node::Clear
    } else {
        Node::Transfer { offset, multiplier }
    }
}

/// Optimizes a sequence of nodes: merges, optimizes and classifies every loop, merges again.
fn optimize_nodes(nodes: Vec<Node>) -> (out: Vec<Node>)
    requires
        optimized(nodes_model(nodes@)) is Some,
    ensures
        nodes_model(out@) == optimized(nodes_model(nodes@)).unwrap(),
    decreases nodes_model(nodes@),
{
    let ghost x = nodes_model(nodes@);
    proof {
        lemma_rewrite_merged_commute(x);
    }
    let aggregated = aggregate(nodes);
    let ghost a = nodes_model(aggregated@);
    let ghost target = optimized(x).unwrap();
    proof {
        lemma_merged_is_merged(x);
        lemma_merged_keeps_others(x);
        lemma_rewrite_loops_elementwise(a);
        lemma_nodes_model(aggregated@);
        assert(rewrite_loops(a) == Some(target));
    }
    let ghost all = aggregated@;
    let mut out: Vec<Node> = Vec::new();
    for node in it: aggregated
        invariant
            it.seq() == all,
            a == nodes_model(all),
            a.len() == all.len(),
            is_merged(a),
            rewrites_to(a, target),
            x == nodes_model(nodes@),
            merged(x) == Some(a),
            forall|i: int|
                0 <= i < a.len() && !(a[i] is Add || a[i] is Move) ==> exists|j: int|
                    0 <= j < x.len() && x[j] == #[trigger] a[i],
            forall|i: int| 0 <= i < all.len() ==> #[trigger] a[i] == node_model(all[i]),
            nodes_model(out@) == target.take(it.index() as int),
    {
        let ghost i = it.index() as int;
        let ghost before = out@;
        proof {
            assert(target.take(i + 1) =~= target.take(i).push(target[i]));
            assert(a[i] == node_model(all[i]));
        }
        match node {
            Node::Loop(body) => {
                proof {
                    let j = choose|j: int| 0 <= j < x.len() && x[j] == #[trigger] a[i];
                    assert(decreases_to!(x => x[j]));
                }
                let body = optimize_nodes(body);
                if is_clear_loop(body.as_slice()) {
                    out.push(Node::Clear);
                } else if let Some(transfer) = recognize_transfer(body.as_slice()) {
                    out.push(transfer);
                } else {
                    let ghost inner = body@;
                    out.push(Node::Loop(body));
                    proof {
                        assert(node_model(Node::Loop(body)) == Cmd::Loop(nodes_model(inner)));
                    }
                }
                proof {
                    lemma_nodes_model_push(before, out@.last());
                    assert(out@ =~= before.push(out@.last()));
                }
            },
            Node::Add(delta) if delta == 0 => {},
            Node::Move(delta) if delta == 0 => {},
            node => {
                out.push(node);
                proof {
                    lemma_nodes_model_push(before, node);
                }
            },
        }
    }
    proof {
        assert(target.take(a.len() as int) =~= target);
        lemma_merged_is_merged(rewrite_loops(x).unwrap());
        lemma_merged_fixed(target);
    }
    aggregate(out)
}

/// Optimizes a program: `optimized` of the input's model, which means the same as the input
/// and is in normal form.
pub fn optimize(program: Vec<Node>) -> (out: Vec<Node>)
    requires
        optimized(nodes_model(program@)) is Some,
    ensures
        nodes_model(out@) == optimized(nodes_model(program@)).unwrap(),
        equivalent(nodes_model(program@), nodes_model(out@)),
        in_normal_form(nodes_model(out@)),
        no_idiom_loops(nodes_model(out@)),
{
    proof {
        lemma_optimized_equivalent(nodes_model(program@));
        lemma_optimized_normal_form(nodes_model(program@));
        lemma_optimized_has_no_idiom_loops(nodes_model(program@));
    }
    optimize_nodes(program)
}

} // verus!
