use vstd::prelude::*;

use crate::ast::Cmd;

verus! {

/// The abstract machine that a program runs on: an unbounded tape of byte cells, all zero at
/// first, a data pointer, the input still to be read and the output written so far.
#[verifier::ext_equal]
pub struct Machine {
    pub tape: spec_fn(int) -> u8,
    pub ptr: int,
    pub input: Seq<u8>,
    pub output: Seq<u8>,
}

/// Reduces an integer to a byte, modulo 256.
pub open spec fn wrap(x: int) -> u8 {
    (x % 256) as u8
}

/// The cell under the data pointer.
pub open spec fn cell(m: Machine) -> u8 {
    (m.tape)(m.ptr)
}

/// The machine with cell `at` set to `v`.
pub open spec fn set_cell(m: Machine, at: int, v: u8) -> Machine {
    Machine { tape: |i: int| if i == at { v } else { (m.tape)(i) }, ..m }
}

/// The machine after `Transfer { offset, multiplier }`: the current cell is cleared and its old
/// value, times `multiplier`, is added (modulo 256) to the cell `offset` places away.
pub open spec fn transfer_result(m: Machine, offset: int, multiplier: int) -> Machine {
    let v = cell(m);
    let cleared = set_cell(m, m.ptr, 0);
    let target = m.ptr + offset;
    set_cell(cleared, target, wrap((cleared.tape)(target) + v * multiplier))
}

/// One command other than a loop, applied to the machine.
pub open spec fn step(c: Cmd, m: Machine) -> Machine {
    match c {
        Cmd::Add(d) => set_cell(m, m.ptr, wrap(cell(m) + d)),
        Cmd::Move(d) => Machine { ptr: m.ptr + d, ..m },
        Cmd::Put => Machine { output: m.output.push(cell(m)), ..m },
        Cmd::Get => if m.input.len() > 0 {
            Machine { input: m.input.drop_first(), ..set_cell(m, m.ptr, m.input[0]) }
        } else {
            set_cell(m, m.ptr, 0)
        },
        Cmd::Clear => set_cell(m, m.ptr, 0),
        Cmd::Transfer { offset, multiplier } => transfer_result(m, offset, multiplier),
        Cmd::Loop(_) => m,
    }
}

/// Runs a sequence of commands with `fuel` bounding the iterations of every loop; `None` when
/// some loop needs more.
pub open spec fn run(cmds: Seq<Cmd>, m: Machine, fuel: nat) -> Option<Machine>
    decreases fuel, cmds,
{
    if cmds.len() == 0 {
        Some(m)
    } else {
        match run_cmd(cmds[0], m, fuel) {
            Some(m1) => run(cmds.subrange(1, cmds.len() as int), m1, fuel),
            None => None,
        }
    }
}

/// Runs one command.
pub open spec fn run_cmd(c: Cmd, m: Machine, fuel: nat) -> Option<Machine>
    decreases fuel, c,
{
    match c {
        Cmd::Loop(body) => run_loop(body, m, fuel),
        _ => Some(step(c, m)),
    }
}

/// Runs a loop: while the current cell is not zero, run the body.
pub open spec fn run_loop(body: Seq<Cmd>, m: Machine, fuel: nat) -> Option<Machine>
    decreases fuel, body,
{
    if cell(m) == 0 {
        Some(m)
    } else if fuel == 0 {
        None
    } else {
        match run(body, m, (fuel - 1) as nat) {
            Some(m1) => run_loop(body, m1, (fuel - 1) as nat),
            None => None,
        }
    }
}

/// Started on `m`, the program stops, in state `t`.
pub open spec fn halts_with(cmds: Seq<Cmd>, m: Machine, t: Machine) -> bool {
    exists|fuel: nat| run(cmds, m, fuel) == Some(t)
}

/// Two programs are equivalent when, from every starting machine, they stop in the same
/// state or both run forever.
pub open spec fn equivalent(a: Seq<Cmd>, b: Seq<Cmd>) -> bool {
    forall|m: Machine, t: Machine|
        #![trigger halts_with(a, m, t)]
        #![trigger halts_with(b, m, t)]
        halts_with(a, m, t) <==> halts_with(b, m, t)
}

/// More fuel never changes a result that was reached.
pub proof fn lemma_run_monotone(cmds: Seq<Cmd>, m: Machine, f: nat, g: nat)
    requires
        f <= g,
        run(cmds, m, f) is Some,
    ensures
        run(cmds, m, g) == run(cmds, m, f),
    decreases f, cmds,
{
    if cmds.len() > 0 {
        lemma_run_cmd_monotone(cmds[0], m, f, g);
        let m1 = run_cmd(cmds[0], m, f).unwrap();
        lemma_run_monotone(cmds.subrange(1, cmds.len() as int), m1, f, g);
    }
}

/// More fuel never changes a result that was reached, for one command.
pub proof fn lemma_run_cmd_monotone(c: Cmd, m: Machine, f: nat, g: nat)
    requires
        f <= g,
        run_cmd(c, m, f) is Some,
    ensures
        run_cmd(c, m, g) == run_cmd(c, m, f),
    decreases f, c,
{
    if let Cmd::Loop(body) = c {
        lemma_run_loop_monotone(body, m, f, g);
    }
}

/// More fuel never changes a result that was reached, for a loop.
pub proof fn lemma_run_loop_monotone(body: Seq<Cmd>, m: Machine, f: nat, g: nat)
    requires
        f <= g,
        run_loop(body, m, f) is Some,
    ensures
        run_loop(body, m, g) == run_loop(body, m, f),
    decreases f, body,
{
    if cell(m) != 0 {
        lemma_run_monotone(body, m, (f - 1) as nat, (g - 1) as nat);
        let m1 = run(body, m, (f - 1) as nat).unwrap();
        lemma_run_loop_monotone(body, m1, (f - 1) as nat, (g - 1) as nat);
    }
}

/// Running `a + b` runs `a`, then `b` from where `a` stopped.
pub proof fn lemma_run_concat(a: Seq<Cmd>, b: Seq<Cmd>, m: Machine, f: nat)
    ensures
        run(a + b, m, f) == (match run(a, m, f) {
            Some(m1) => run(b, m1, f),
            None => None,
        }),
    decreases a.len(),
{
    if a.len() > 0 {
        assert((a + b)[0] == a[0]);
        assert((a + b).subrange(1, (a + b).len() as int) =~= a.subrange(1, a.len() as int) + b);
        match run_cmd(a[0], m, f) {
            Some(m1) => lemma_run_concat(a.subrange(1, a.len() as int), b, m1, f),
            None => {},
        }
    } else {
        assert(a + b =~= b);
    }
}

/// A program of one command runs that command.
pub proof fn lemma_run_single(c: Cmd, m: Machine, f: nat)
    ensures
        run(seq![c], m, f) == run_cmd(c, m, f),
{
    assert(seq![c].subrange(1, 1) =~= Seq::<Cmd>::empty());
    if let Some(m1) = run_cmd(c, m, f) {
        assert(run(Seq::<Cmd>::empty(), m1, f) == Some(m1));
    }
}

/// Every program is equivalent to itself; the relation is symmetric and transitive.
pub proof fn lemma_equivalent_refl(a: Seq<Cmd>)
    ensures
        equivalent(a, a),
{
}

pub proof fn lemma_equivalent_sym(a: Seq<Cmd>, b: Seq<Cmd>)
    requires
        equivalent(a, b),
    ensures
        equivalent(b, a),
{
}

pub proof fn lemma_equivalent_trans(a: Seq<Cmd>, b: Seq<Cmd>, c: Seq<Cmd>)
    requires
        equivalent(a, b),
        equivalent(b, c),
    ensures
        equivalent(a, c),
{
    assert forall|m: Machine, t: Machine| halts_with(a, m, t) <==> halts_with(c, m, t) by {
        assert(halts_with(a, m, t) <==> halts_with(b, m, t));
        assert(halts_with(b, m, t) <==> halts_with(c, m, t));
    }
}

/// One direction of the concatenation congruence.
proof fn lemma_concat_halts(a: Seq<Cmd>, a2: Seq<Cmd>, b: Seq<Cmd>, b2: Seq<Cmd>, m: Machine, t: Machine)
    requires
        equivalent(a, a2),
        equivalent(b, b2),
        halts_with(a + b, m, t),
    ensures
        halts_with(a2 + b2, m, t),
{
    let f = choose|f: nat| run(a + b, m, f) == Some(t);
    lemma_run_concat(a, b, m, f);
    let m1 = run(a, m, f).unwrap();
    assert(halts_with(a, m, m1));
    assert(halts_with(b, m1, t));
    assert(halts_with(a2, m, m1));
    assert(halts_with(b2, m1, t));
    let g1 = choose|g: nat| run(a2, m, g) == Some(m1);
    let g2 = choose|g: nat| run(b2, m1, g) == Some(t);
    let g: nat = if g1 <= g2 { g2 } else { g1 };
    lemma_run_monotone(a2, m, g1, g);
    lemma_run_monotone(b2, m1, g2, g);
    lemma_run_concat(a2, b2, m, g);
    assert(run(a2 + b2, m, g) == Some(t));
}

/// Equivalence is a congruence for concatenation.
pub proof fn lemma_equivalent_concat(a: Seq<Cmd>, a2: Seq<Cmd>, b: Seq<Cmd>, b2: Seq<Cmd>)
    requires
        equivalent(a, a2),
        equivalent(b, b2),
    ensures
        equivalent(a + b, a2 + b2),
{
    assert forall|m: Machine, t: Machine|
        halts_with(a + b, m, t) <==> halts_with(a2 + b2, m, t) by {
        if halts_with(a + b, m, t) {
            lemma_concat_halts(a, a2, b, b2, m, t);
        }
        if halts_with(a2 + b2, m, t) {
            lemma_equivalent_sym(a, a2);
            lemma_equivalent_sym(b, b2);
            lemma_concat_halts(a2, a, b2, b, m, t);
        }
    }
}

/// One direction of the loop congruence, for a given amount of fuel.
proof fn lemma_loop_halts(b: Seq<Cmd>, b2: Seq<Cmd>, m: Machine, f: nat) -> (g: nat)
    requires
        equivalent(b, b2),
        run_loop(b, m, f) is Some,
    ensures
        run_loop(b2, m, g) == run_loop(b, m, f),
    decreases f,
{
    if cell(m) == 0 {
        0
    } else {
        let m1 = run(b, m, (f - 1) as nat).unwrap();
        let t = run_loop(b, m1, (f - 1) as nat).unwrap();
        assert(halts_with(b, m, m1));
        assert(halts_with(b2, m, m1));
        let g1 = choose|g: nat| run(b2, m, g) == Some(m1);
        let g2 = lemma_loop_halts(b, b2, m1, (f - 1) as nat);
        let g: nat = if g1 <= g2 { g2 } else { g1 };
        lemma_run_monotone(b2, m, g1, g);
        lemma_run_loop_monotone(b2, m1, g2, g);
        (g + 1) as nat
    }
}

/// Equivalence is a congruence for loops: equivalent bodies make equivalent loops.
pub proof fn lemma_equivalent_loop(b: Seq<Cmd>, b2: Seq<Cmd>)
    requires
        equivalent(b, b2),
    ensures
        equivalent(seq![Cmd::Loop(b)], seq![Cmd::Loop(b2)]),
{
    assert forall|m: Machine, t: Machine|
        halts_with(seq![Cmd::Loop(b)], m, t) <==> halts_with(seq![Cmd::Loop(b2)], m, t) by {
        if halts_with(seq![Cmd::Loop(b)], m, t) {
            let f = choose|f: nat| run(seq![Cmd::Loop(b)], m, f) == Some(t);
            lemma_run_single(Cmd::Loop(b), m, f);
            let g = lemma_loop_halts(b, b2, m, f);
            lemma_run_single(Cmd::Loop(b2), m, g);
        }
        if halts_with(seq![Cmd::Loop(b2)], m, t) {
            lemma_equivalent_sym(b, b2);
            let f = choose|f: nat| run(seq![Cmd::Loop(b2)], m, f) == Some(t);
            lemma_run_single(Cmd::Loop(b2), m, f);
            let g = lemma_loop_halts(b2, b, m, f);
            lemma_run_single(Cmd::Loop(b), m, g);
        }
    }
}

/// A loop that decrements the current cell runs as many times as the cell holds and clears it.
pub proof fn lemma_decrement_loop(m: Machine, f: nat)
    ensures
        run_loop(seq![Cmd::Add(-1)], m, f) == (if f >= cell(m) {
            Some(set_cell(m, m.ptr, 0))
        } else {
            None
        }),
    decreases cell(m),
{
    let body = seq![Cmd::Add(-1)];
    if cell(m) == 0 {
        assert(set_cell(m, m.ptr, 0) =~= m);
    } else if f > 0 {
        lemma_run_single(Cmd::Add(-1), m, (f - 1) as nat);
        let m1 = step(Cmd::Add(-1), m);
        assert(cell(m1) == cell(m) - 1);
        lemma_decrement_loop(m1, (f - 1) as nat);
        assert(set_cell(m1, m1.ptr, 0) =~= set_cell(m, m.ptr, 0));
    }
}

/// A loop whose body only clears the cell clears it.
pub proof fn lemma_clear_body_loop(m: Machine, f: nat)
    ensures
        run_loop(seq![Cmd::Clear], m, f) == (if f >= 1 || cell(m) == 0 {
            Some(set_cell(m, m.ptr, 0))
        } else {
            None
        }),
{
    if cell(m) == 0 {
        assert(set_cell(m, m.ptr, 0) =~= m);
    } else if f > 0 {
        lemma_run_single(Cmd::Clear, m, (f - 1) as nat);
        let m1 = set_cell(m, m.ptr, 0);
        assert(run_loop(seq![Cmd::Clear], m1, (f - 1) as nat) == Some(m1));
    }
}

/// The body `[-, move offset, add multiplier, move back]` of a transfer loop.
pub open spec fn transfer_body_first(offset: int, multiplier: int) -> Seq<Cmd> {
    seq![Cmd::Add(-1), Cmd::Move(offset), Cmd::Add(multiplier), Cmd::Move(-offset)]
}

/// The body `[move offset, add multiplier, move back, -]` of a transfer loop.
pub open spec fn transfer_body_last(offset: int, multiplier: int) -> Seq<Cmd> {
    seq![Cmd::Move(offset), Cmd::Add(multiplier), Cmd::Move(-offset), Cmd::Add(-1)]
}

/// One round of a transfer loop: the current cell loses one, the target cell gains
/// `multiplier`.
pub open spec fn transfer_round(m: Machine, offset: int, multiplier: int) -> Machine {
    let lowered = set_cell(m, m.ptr, wrap(cell(m) - 1));
    set_cell(lowered, m.ptr + offset, wrap((m.tape)(m.ptr + offset) + multiplier))
}

proof fn lemma_transfer_bodies(offset: int, multiplier: int, m: Machine, f: nat)
    requires
        offset != 0,
    ensures
        run(transfer_body_first(offset, multiplier), m, f) is Some,
        run(transfer_body_first(offset, multiplier), m, f).unwrap() =~= transfer_round(
            m,
            offset,
            multiplier,
        ),
        run(transfer_body_last(offset, multiplier), m, f) is Some,
        run(transfer_body_last(offset, multiplier), m, f).unwrap() =~= transfer_round(
            m,
            offset,
            multiplier,
        ),
{
    reveal_with_fuel(run, 5);
    let a = transfer_body_first(offset, multiplier);
    assert(a.subrange(1, 4) =~= seq![Cmd::Move(offset), Cmd::Add(multiplier), Cmd::Move(-offset)]);
    assert(a.subrange(1, 4).subrange(1, 3) =~= seq![Cmd::Add(multiplier), Cmd::Move(-offset)]);
    assert(a.subrange(1, 4).subrange(1, 3).subrange(1, 2) =~= seq![Cmd::Move(-offset)]);
    assert(a.subrange(1, 4).subrange(1, 3).subrange(1, 2).subrange(1, 1) =~= Seq::<Cmd>::empty());
    let b = transfer_body_last(offset, multiplier);
    assert(b.subrange(1, 4) =~= seq![Cmd::Add(multiplier), Cmd::Move(-offset), Cmd::Add(-1)]);
    assert(b.subrange(1, 4).subrange(1, 3) =~= seq![Cmd::Move(-offset), Cmd::Add(-1)]);
    assert(b.subrange(1, 4).subrange(1, 3).subrange(1, 2) =~= seq![Cmd::Add(-1)]);
    assert(b.subrange(1, 4).subrange(1, 3).subrange(1, 2).subrange(1, 1) =~= Seq::<Cmd>::empty());
    let ra = run(a, m, f).unwrap();
    let rb = run(b, m, f).unwrap();
    assert(ra.tape =~= transfer_round(m, offset, multiplier).tape);
    assert(rb.tape =~= transfer_round(m, offset, multiplier).tape);
}

/// Adding `multiplier` to a byte, then `n` times more, adds it `n + 1` times.
proof fn lemma_wrap_repeat(t: int, multiplier: int, n: int)
    ensures
        wrap(wrap(t + multiplier) + n * multiplier) == wrap(t + (n + 1) * multiplier),
{
    vstd::arithmetic::div_mod::lemma_add_mod_noop_right(n * multiplier, t + multiplier, 256);
    assert(n * multiplier + (t + multiplier) == t + (n + 1) * multiplier) by (nonlinear_arith);
}

/// A transfer loop runs as many times as the current cell holds and ends as `Transfer` does.
pub proof fn lemma_transfer_loop(offset: int, multiplier: int, m: Machine, f: nat)
    requires
        offset != 0,
    ensures
        run_loop(transfer_body_first(offset, multiplier), m, f) == (if f >= cell(m) {
            Some(transfer_result(m, offset, multiplier))
        } else {
            None
        }),
        run_loop(transfer_body_last(offset, multiplier), m, f) == (if f >= cell(m) {
            Some(transfer_result(m, offset, multiplier))
        } else {
            None
        }),
    decreases cell(m),
{
    if cell(m) == 0 {
        assert(transfer_result(m, offset, multiplier).tape =~= m.tape);
        assert(transfer_result(m, offset, multiplier) =~= m);
    } else if f > 0 {
        lemma_transfer_bodies(offset, multiplier, m, (f - 1) as nat);
        let m1 = transfer_round(m, offset, multiplier);
        assert(cell(m1) == cell(m) - 1);
        lemma_transfer_loop(offset, multiplier, m1, (f - 1) as nat);
        let t = (m.tape)(m.ptr + offset) as int;
        lemma_wrap_repeat(t, multiplier, cell(m) - 1);
        assert(transfer_result(m1, offset, multiplier).tape =~= transfer_result(
            m,
            offset,
            multiplier,
        ).tape);
        assert(transfer_result(m1, offset, multiplier) =~= transfer_result(m, offset, multiplier));
    }
}

/// Two programs that give the same result for every machine and every amount of fuel are
/// equivalent.
pub proof fn lemma_equivalent_of_runs(a: Seq<Cmd>, b: Seq<Cmd>)
    requires
        forall|m: Machine, f: nat| #[trigger] run(a, m, f) == run(b, m, f),
    ensures
        equivalent(a, b),
{
    assert forall|m: Machine, t: Machine| halts_with(a, m, t) <==> halts_with(b, m, t) by {
        if halts_with(a, m, t) {
            let f = choose|f: nat| run(a, m, f) == Some(t);
            assert(run(b, m, f) == Some(t));
        }
        if halts_with(b, m, t) {
            let f = choose|f: nat| run(b, m, f) == Some(t);
            assert(run(a, m, f) == Some(t));
        }
    }
}

/// A loop that, whenever it stops, ends as the command `c` does, and that stops within 256
/// rounds, is equivalent to `c`.
pub proof fn lemma_loop_as_command(body: Seq<Cmd>, c: Cmd)
    requires
        c !is Loop,
        forall|m: Machine, f: nat|
            #[trigger] run_loop(body, m, f) is Some ==> run_loop(body, m, f) == Some(step(c, m)),
        forall|m: Machine| #[trigger] run_loop(body, m, 256) == Some(step(c, m)),
    ensures
        equivalent(seq![Cmd::Loop(body)], seq![c]),
{
    assert forall|m: Machine, t: Machine|
        halts_with(seq![Cmd::Loop(body)], m, t) <==> halts_with(seq![c], m, t) by {
        if halts_with(seq![Cmd::Loop(body)], m, t) {
            let f = choose|f: nat| run(seq![Cmd::Loop(body)], m, f) == Some(t);
            lemma_run_single(Cmd::Loop(body), m, f);
            assert(run_loop(body, m, f) is Some);
            lemma_run_single(c, m, 0);
            assert(run(seq![c], m, 0) == Some(t));
        }
        if halts_with(seq![c], m, t) {
            let f = choose|f: nat| run(seq![c], m, f) == Some(t);
            lemma_run_single(c, m, f);
            lemma_run_single(Cmd::Loop(body), m, 256);
            assert(run_loop(body, m, 256) == Some(step(c, m)));
            assert(run(seq![Cmd::Loop(body)], m, 256) == Some(t));
        }
    }
}

/// `[-]` is equivalent to `Clear`.
pub proof fn lemma_equivalent_decrement_loop()
    ensures
        equivalent(seq![Cmd::Loop(seq![Cmd::Add(-1)])], seq![Cmd::Clear]),
{
    assert forall|m: Machine, f: nat|
        #[trigger] run_loop(seq![Cmd::Add(-1)], m, f) is Some implies run_loop(
            seq![Cmd::Add(-1)],
            m,
            f,
        ) == Some(step(Cmd::Clear, m)) by {
        lemma_decrement_loop(m, f);
    }
    assert forall|m: Machine|
        #[trigger] run_loop(seq![Cmd::Add(-1)], m, 256) == Some(step(Cmd::Clear, m)) by {
        lemma_decrement_loop(m, 256);
    }
    lemma_loop_as_command(seq![Cmd::Add(-1)], Cmd::Clear);
}

/// A loop around `Clear` is equivalent to `Clear`.
pub proof fn lemma_equivalent_clear_body_loop()
    ensures
        equivalent(seq![Cmd::Loop(seq![Cmd::Clear])], seq![Cmd::Clear]),
{
    assert forall|m: Machine, f: nat|
        #[trigger] run_loop(seq![Cmd::Clear], m, f) is Some implies run_loop(seq![Cmd::Clear], m, f)
            == Some(step(Cmd::Clear, m)) by {
        lemma_clear_body_loop(m, f);
    }
    assert forall|m: Machine| #[trigger] run_loop(seq![Cmd::Clear], m, 256) == Some(step(Cmd::Clear, m)) by {
        lemma_clear_body_loop(m, 256);
    }
    lemma_loop_as_command(seq![Cmd::Clear], Cmd::Clear);
}

/// Both shapes of transfer loop are equivalent to `Transfer`.
pub proof fn lemma_equivalent_transfer_loops(offset: int, multiplier: int)
    requires
        offset != 0,
    ensures
        equivalent(
            seq![Cmd::Loop(transfer_body_first(offset, multiplier))],
            seq![Cmd::Transfer { offset, multiplier }],
        ),
        equivalent(
            seq![Cmd::Loop(transfer_body_last(offset, multiplier))],
            seq![Cmd::Transfer { offset, multiplier }],
        ),
{
    let c = Cmd::Transfer { offset, multiplier };
    let a = transfer_body_first(offset, multiplier);
    let b = transfer_body_last(offset, multiplier);
    assert forall|m: Machine, f: nat|
        #[trigger] run_loop(a, m, f) is Some implies run_loop(a, m, f) == Some(step(c, m)) by {
        lemma_transfer_loop(offset, multiplier, m, f);
    }
    assert forall|m: Machine| #[trigger] run_loop(a, m, 256) == Some(step(c, m)) by {
        lemma_transfer_loop(offset, multiplier, m, 256);
    }
    lemma_loop_as_command(a, c);
    assert forall|m: Machine, f: nat|
        #[trigger] run_loop(b, m, f) is Some implies run_loop(b, m, f) == Some(step(c, m)) by {
        lemma_transfer_loop(offset, multiplier, m, f);
    }
    assert forall|m: Machine| #[trigger] run_loop(b, m, 256) == Some(step(c, m)) by {
        lemma_transfer_loop(offset, multiplier, m, 256);
    }
    lemma_loop_as_command(b, c);
}

/// A transfer with multiplier zero is equivalent to `Clear`.
pub proof fn lemma_equivalent_zero_transfer(offset: int)
    requires
        offset != 0,
    ensures
        equivalent(seq![Cmd::Transfer { offset, multiplier: 0 }], seq![Cmd::Clear]),
{
    assert forall|m: Machine, f: nat|
        #[trigger] run(seq![Cmd::Transfer { offset, multiplier: 0 }], m, f) == run(
            seq![Cmd::Clear],
            m,
            f,
        ) by {
        lemma_run_single(Cmd::Transfer { offset, multiplier: 0 }, m, f);
        lemma_run_single(Cmd::Clear, m, f);
        assert(transfer_result(m, offset, 0).tape =~= set_cell(m, m.ptr, 0).tape);
        assert(transfer_result(m, offset, 0) =~= set_cell(m, m.ptr, 0));
    }
    lemma_equivalent_of_runs(seq![Cmd::Transfer { offset, multiplier: 0 }], seq![Cmd::Clear]);
}

} // verus!
