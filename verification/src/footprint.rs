use vstd::prelude::*;

use crate::ast::Cmd;
use crate::native::{
    cmd_code, cmds_code, data_offset, emittable, lemma_data_offset_bounds, lemma_le_bytes_len,
    loop_fits, loops_fit, transfer_tail,
};
use crate::optimizer::{merged, optimized, rewrite, rewrite_loops};
use crate::parser::{flatten, flatten_cmd, primitive, primitive_cmd};

verus! {

/// The number of commands of a program, counting those inside loops.
pub open spec fn size(cmds: Seq<Cmd>) -> int
    decreases cmds,
{
    if cmds.len() == 0 {
        0
    } else {
        size(cmds.drop_last()) + size_cmd(cmds.last())
    }
}

/// One for the command, plus the commands inside it.
pub open spec fn size_cmd(c: Cmd) -> int
    decreases c,
{
    match c {
        Cmd::Loop(body) => 1 + size(body),
        _ => 1,
    }
}

proof fn lemma_size_nonneg(cmds: Seq<Cmd>)
    ensures
        size(cmds) >= 0,
    decreases cmds,
{
    if cmds.len() > 0 {
        lemma_size_nonneg(cmds.drop_last());
        if let Cmd::Loop(body) = cmds.last() {
            lemma_size_nonneg(body);
            assert(size_cmd(cmds.last()) == 1 + size(body));
        } else {
            assert(size_cmd(cmds.last()) == 1);
        }
    }
}

proof fn lemma_size_push(cmds: Seq<Cmd>, c: Cmd)
    ensures
        size(cmds.push(c)) == size(cmds) + size_cmd(c),
{
    assert(cmds.push(c).drop_last() =~= cmds);
}

/// Merging never adds a command.
pub proof fn lemma_merged_size(cmds: Seq<Cmd>)
    ensures
        merged(cmds) matches Some(m) ==> size(m) <= size(cmds),
    decreases cmds.len(),
{
    if cmds.len() > 0 {
        let p = cmds.drop_last();
        let c = cmds.last();
        lemma_merged_size(p);
        if let Some(o) = merged(p) {
            if o.len() > 0 {
                assert(o.drop_last().push(o.last()) =~= o);
                lemma_size_push(o.drop_last(), o.last());
                lemma_size_nonneg(o.drop_last());
            }
            lemma_size_push(o, c);
            match c {
                Cmd::Add(d) => {
                    if d != 0 && o.len() > 0 && o.last() is Add {
                        lemma_size_push(o.drop_last(), Cmd::Add(o.last()->Add_0 + d));
                    }
                },
                Cmd::Move(d) => {
                    if d != 0 && o.len() > 0 && o.last() is Move {
                        lemma_size_push(o.drop_last(), Cmd::Move(o.last()->Move_0 + d));
                    }
                },
                _ => {},
            }
        }
    }
}

/// Optimizing never adds a command, at any depth.
pub proof fn lemma_optimized_size(cmds: Seq<Cmd>)
    ensures
        optimized(cmds) matches Some(o) ==> size(o) <= size(cmds),
    decreases cmds, 2int,
{
    lemma_rewrite_loops_size(cmds);
    if let Some(r) = rewrite_loops(cmds) {
        lemma_merged_size(r);
    }
}

/// Rewriting loops never adds a command.
pub proof fn lemma_rewrite_loops_size(cmds: Seq<Cmd>)
    ensures
        rewrite_loops(cmds) matches Some(r) ==> size(r) <= size(cmds),
    decreases cmds, 1int,
{
    if cmds.len() > 0 {
        lemma_rewrite_loops_size(cmds.drop_last());
        lemma_rewrite_size(cmds.last());
        if let (Some(r), Some(c)) = (rewrite_loops(cmds.drop_last()), rewrite(cmds.last())) {
            lemma_size_push(r, c);
        }
    }
}

/// Rewriting a command never adds a command.
pub proof fn lemma_rewrite_size(c: Cmd)
    ensures
        rewrite(c) matches Some(r) ==> size_cmd(r) <= size_cmd(c),
    decreases c, 0int,
{
    if let Cmd::Loop(body) = c {
        lemma_optimized_size(body);
        lemma_size_nonneg(body);
    }
}

/// A primitive program has no more commands than tokens.
pub proof fn lemma_primitive_size(cmds: Seq<Cmd>)
    requires
        primitive(cmds),
    ensures
        size(cmds) <= flatten(cmds).len(),
    decreases cmds,
{
    if cmds.len() > 0 {
        lemma_primitive_size(cmds.drop_last());
        let c = cmds.last();
        assert(primitive_cmd(c));
        if let Cmd::Loop(body) = c {
            assert(primitive(body));
            lemma_primitive_size(body);
            assert(size_cmd(c) == 1 + size(body));
            assert(flatten_cmd(c).len() == flatten(body).len() + 2);
        } else {
            assert(size_cmd(c) == 1);
            assert(flatten_cmd(c).len() == 1);
        }
    }
}

/// No command's own code is longer than 35 bytes; a loop adds 18 bytes to its body's code.
pub proof fn lemma_cmd_code_size(c: Cmd)
    ensures
        cmd_code(c).len() <= 35 * size_cmd(c),
    decreases c,
{
    lemma_le_bytes_len();
    match c {
        Cmd::Loop(body) => {
            lemma_cmds_code_size(body);
        },
        Cmd::Transfer { offset, multiplier } => {
            assert(transfer_tail(offset, multiplier as u8).len() <= 21);
        },
        _ => {},
    }
}

/// A program's code has at most 35 bytes per command.
pub proof fn lemma_cmds_code_size(cmds: Seq<Cmd>)
    ensures
        cmds_code(cmds).len() <= 35 * size(cmds),
    decreases cmds,
{
    if cmds.len() > 0 {
        lemma_cmds_code_size(cmds.drop_last());
        lemma_cmd_code_size(cmds.last());
    }
}

/// Every loop fits the 32-bit jumps whenever the code of the whole program, plus the 18 bytes
/// of a loop's tests and jumps, stays within `i32::MAX` bytes: no loop can be longer than the
/// program it is part of.
pub proof fn lemma_loops_fit_within_rel32(cmds: Seq<Cmd>)
    requires
        cmds_code(cmds).len() + 18 <= i32::MAX,
    ensures
        loops_fit(cmds),
    decreases cmds,
{
    if cmds.len() > 0 {
        lemma_loops_fit_within_rel32(cmds.drop_last());
        lemma_loop_fits_within_rel32(cmds.last());
    }
}

/// A command fits the 32-bit jumps whenever its code, plus 18 bytes, stays within
/// `i32::MAX` bytes.
pub proof fn lemma_loop_fits_within_rel32(c: Cmd)
    requires
        cmd_code(c).len() + 18 <= i32::MAX,
    ensures
        loop_fits(c),
    decreases c,
{
    lemma_le_bytes_len();
    if let Cmd::Loop(body) = c {
        assert(cmd_code(c).len() == cmds_code(body).len() + 18);
        lemma_loops_fit_within_rel32(body);
    }
}

/// A program whose code is at most a billion bytes can be emitted.
pub proof fn lemma_emittable_when_small(cmds: Seq<Cmd>)
    requires
        cmds_code(cmds).len() <= 1_000_000_000,
    ensures
        emittable(cmds),
{
    lemma_loops_fit_within_rel32(cmds);
    lemma_data_offset_bounds(cmds);
}

/// A program with at most twenty million commands, counting those inside loops, can be
/// emitted.
pub proof fn lemma_emittable_when_few(cmds: Seq<Cmd>)
    requires
        size(cmds) <= 20_000_000,
    ensures
        emittable(cmds),
{
    lemma_cmds_code_size(cmds);
    lemma_emittable_when_small(cmds);
}

} // verus!
