use vstd::prelude::*;
use vstd::pervasive::VecAdditionalExecFns;

use vstd::bytes::{
    spec_u16_from_le_bytes, spec_u32_from_le_bytes, spec_u64_from_le_bytes, spec_u16_to_le_bytes, spec_u32_to_le_bytes, spec_u64_to_le_bytes, u16_to_le_bytes,
    u32_to_le_bytes, u64_to_le_bytes,
};

use crate::ast::{lemma_nodes_model, node_model, nodes_model, Cmd, Node};

verus! {

/// Virtual address at which the file is loaded.
pub const BASE: u64 = 0x0040_0000;

/// Size of a memory page, the alignment of both segments.
pub const PAGE_SIZE: u64 = 0x1000;

/// Size of the ELF header.
pub const EHDR_SIZE: u64 = 64;

/// Size of one program header.
pub const PHDR_SIZE: u64 = 56;

/// Number of program headers: one for the code, one for the tape.
pub const PROGRAM_HEADER_COUNT: u64 = 2;

/// Size of all headers; the code starts right after them.
pub const HEADERS_SIZE: u64 = EHDR_SIZE + PROGRAM_HEADER_COUNT * PHDR_SIZE;

/// Number of tape cells.
pub const TAPE_SIZE: u64 = 30_000;

/// The value fits in an `i32`.
pub open spec fn fits_i32(v: int) -> bool {
    i32::MIN <= v <= i32::MAX
}

/// A 32-bit immediate: the value as an `i32`, in little-endian bytes.
pub open spec fn imm32(v: int) -> Seq<u8> {
    spec_u32_to_le_bytes((v as i32) as u32)
}

/// A 64-bit immediate, in little-endian bytes.
pub open spec fn imm64(v: int) -> Seq<u8> {
    spec_u64_to_le_bytes(v as u64)
}

/// `add byte [rbx], imm8` for `Add(d)`; nothing when `d` is a multiple of 256.
pub open spec fn add_code(d: int) -> Seq<u8> {
    if (d as u8) == 0 {
        Seq::empty()
    } else {
        seq![0x80u8, 0x03u8, d as u8]
    }
}

/// `add rbx, imm32`, or `movabs rax, imm64; add rbx, rax` for `Move(d)`; nothing when `d` is 0.
pub open spec fn move_code(d: int) -> Seq<u8> {
    if d == 0 {
        Seq::empty()
    } else if fits_i32(d) {
        seq![0x48u8, 0x81u8, 0xC3u8] + imm32(d)
    } else {
        seq![0x48u8, 0xB8u8] + imm64(d) + seq![0x48u8, 0x01u8, 0xC3u8]
    }
}

/// `mov byte [rbx], 0`.
pub open spec fn clear_code() -> Seq<u8> {
    seq![0xC6u8, 0x03u8, 0x00u8]
}

/// `write(1, rbx, 1)`.
pub open spec fn put_code() -> Seq<u8> {
    seq![0xB8u8] + imm32(1) + seq![0xBFu8] + imm32(1) + seq![0x48u8, 0x89u8, 0xDEu8] + seq![0xBAu8]
        + imm32(1) + seq![0x0Fu8, 0x05u8]
}

/// `read(0, rbx, 1)`, then the cell is cleared unless a byte was read.
pub open spec fn get_code() -> Seq<u8> {
    seq![0xB8u8] + imm32(0) + seq![0x31u8, 0xFFu8] + seq![0x48u8, 0x89u8, 0xDEu8] + seq![0xBAu8]
        + imm32(1) + seq![0x0Fu8, 0x05u8] + seq![0x48u8, 0x85u8, 0xC0u8] + seq![0x7Fu8, 0x03u8]
        + clear_code()
}

/// A loop around the code of its body: test the cell and jump past the loop when it is zero;
/// at the end, test again and jump back to the start when it is not.
pub open spec fn loop_code(body: Seq<u8>) -> Seq<u8> {
    seq![0x80u8, 0x3Bu8, 0x00u8, 0x0Fu8, 0x84u8] + imm32(body.len() + 9int) + body + seq![
        0x80u8,
        0x3Bu8,
        0x00u8,
        0x0Fu8,
        0x85u8,
    ] + imm32(-(body.len() + 18))
}

/// `add rcx, imm32`, or `movabs rdx, imm64; add rcx, rdx`; nothing when `v` is 0.
pub open spec fn add_rcx_code(v: int) -> Seq<u8> {
    if v == 0 {
        Seq::empty()
    } else if fits_i32(v) {
        seq![0x48u8, 0x81u8, 0xC1u8] + imm32(v)
    } else {
        seq![0x48u8, 0xBAu8] + imm64(v) + seq![0x48u8, 0x01u8, 0xD1u8]
    }
}

/// The part of a transfer that runs only when the cell was not zero: address the target cell,
/// multiply, add.
pub open spec fn transfer_tail(offset: int, multiplier: u8) -> Seq<u8> {
    seq![0x48u8, 0x8Du8, 0x0Bu8] + add_rcx_code(offset) + seq![0x6Bu8, 0xC0u8, multiplier] + seq![
        0x00u8,
        0x01u8,
    ]
}

/// `Transfer { offset, multiplier }`: load and clear the cell, then, unless it was zero, add
/// it times the multiplier to the target cell. Just a clear when the multiplier is a multiple
/// of 256.
pub open spec fn transfer_code(offset: int, multiplier: int) -> Seq<u8> {
    let m = multiplier as u8;
    if m == 0 {
        clear_code()
    } else {
        seq![0x0Fu8, 0xB6u8, 0x03u8] + clear_code() + seq![0x85u8, 0xC0u8] + seq![0x0Fu8, 0x84u8]
            + imm32(transfer_tail(offset, m).len() as int) + transfer_tail(offset, m)
    }
}

/// `exit(0)`.
pub open spec fn exit_code() -> Seq<u8> {
    seq![0x31u8, 0xFFu8] + seq![0xB8u8] + imm32(60) + seq![0x0Fu8, 0x05u8]
}

/// `movabs rbx, tape_addr`: the data pointer starts at the tape.
pub open spec fn init_code(tape_addr: u64) -> Seq<u8> {
    seq![0x48u8, 0xBBu8] + spec_u64_to_le_bytes(tape_addr)
}

/// The machine code of one command.
pub open spec fn cmd_code(c: Cmd) -> Seq<u8>
    decreases c,
{
    match c {
        Cmd::Add(d) => add_code(d),
        Cmd::Move(d) => move_code(d),
        Cmd::Put => put_code(),
        Cmd::Get => get_code(),
        Cmd::Loop(body) => loop_code(cmds_code(body)),
        Cmd::Clear => clear_code(),
        Cmd::Transfer { offset, multiplier } => transfer_code(offset, multiplier),
    }
}

/// The machine code of a sequence of commands, one after the other.
pub open spec fn cmds_code(cmds: Seq<Cmd>) -> Seq<u8>
    decreases cmds,
{
    if cmds.len() == 0 {
        Seq::empty()
    } else {
        cmds_code(cmds.drop_last()) + cmd_code(cmds.last())
    }
}

/// The whole program: point at the tape, run the commands, exit.
pub open spec fn program_code(cmds: Seq<Cmd>, tape_addr: u64) -> Seq<u8> {
    init_code(tape_addr) + cmds_code(cmds) + exit_code()
}

/// Every loop's jumps fit in 32 bits.
pub open spec fn loops_fit(cmds: Seq<Cmd>) -> bool
    decreases cmds,
{
    cmds.len() == 0 || (loops_fit(cmds.drop_last()) && loop_fits(cmds.last()))
}

/// The loop's jumps, and those of every loop inside it, fit in 32 bits.
pub open spec fn loop_fits(c: Cmd) -> bool
    decreases c,
{
    match c {
        Cmd::Loop(body) => cmds_code(body).len() + 18 <= i32::MAX && loops_fit(body),
        _ => true,
    }
}

/// Little-endian encodings have two, four and eight bytes.
pub proof fn lemma_le_bytes_len()
    ensures
        forall|x: u16| #[trigger] spec_u16_to_le_bytes(x).len() == 2,
        forall|x: u32| #[trigger] spec_u32_to_le_bytes(x).len() == 4,
        forall|x: u64| #[trigger] spec_u64_to_le_bytes(x).len() == 8,
{
    vstd::bytes::lemma_auto_spec_u16_to_from_le_bytes();
    vstd::bytes::lemma_auto_spec_u32_to_from_le_bytes();
    vstd::bytes::lemma_auto_spec_u64_to_from_le_bytes();
}

/// A little-endian 32-bit field read back as a signed integer.
pub open spec fn read_i32(bytes: Seq<u8>) -> int {
    (spec_u32_from_le_bytes(bytes) as i32) as int
}

/// A little-endian 64-bit field read back as a signed integer.
pub open spec fn read_i64(bytes: Seq<u8>) -> int {
    (spec_u64_from_le_bytes(bytes) as i64) as int
}

/// A 32-bit immediate reads back as the value it was made from, and a 64-bit one too.
pub proof fn lemma_imm_read_back(v: int)
    ensures
        fits_i32(v) ==> read_i32(imm32(v)) == v,
        i64::MIN <= v <= i64::MAX ==> read_i64(imm64(v)) == v,
{
    vstd::bytes::lemma_auto_spec_u32_to_from_le_bytes();
    vstd::bytes::lemma_auto_spec_u64_to_from_le_bytes();
    if fits_i32(v) {
        let w = v as i32;
        assert((w as u32) as i32 == w) by (bit_vector);
        assert(spec_u32_to_le_bytes(w as u32).len() == 4);
        assert(imm32(v) == spec_u32_to_le_bytes(w as u32));
    }
    if i64::MIN <= v <= i64::MAX {
        let w = v as i64;
        assert((w as u64) as i64 == w) by (bit_vector);
        assert(spec_u64_to_le_bytes(w as u64).len() == 8);
        assert(imm64(v) == spec_u64_to_le_bytes(w as u64));
    }
}

/// `Add(d)` adds `d` modulo 256 to the byte at `rbx`: `add byte [rbx], imm8` with the
/// immediate equal to `d` modulo 256, or nothing when that is zero.
pub proof fn lemma_add_code_fields(d: int)
    requires
        i64::MIN <= d <= i64::MAX,
    ensures
        d % 256 == 0 ==> add_code(d).len() == 0,
        d % 256 != 0 ==> add_code(d).len() == 3 && add_code(d).subrange(0, 2) == seq![0x80u8, 0x03u8]
            && add_code(d)[2] as int == d % 256,
{
    let w = d as i64;
    assert((w as u8) as int == (w as int) % 256) by (bit_vector);
    if d % 256 != 0 {
        assert(add_code(d).subrange(0, 2) =~= seq![0x80u8, 0x03u8]);
    }
}

/// `Move(d)` adds `d`, signed, to `rbx`: `add rbx, imm32` whose immediate reads back as `d`
/// when it fits in 32 bits, otherwise `movabs rax, imm64; add rbx, rax` whose immediate reads
/// back as `d`; nothing when `d` is zero.
pub proof fn lemma_move_code_fields(d: int)
    requires
        i64::MIN <= d <= i64::MAX,
    ensures
        d == 0 ==> move_code(d).len() == 0,
        d != 0 && fits_i32(d) ==> move_code(d).len() == 7 && move_code(d).subrange(0, 3) == seq![
            0x48u8,
            0x81u8,
            0xC3u8,
        ] && read_i32(move_code(d).subrange(3, 7)) == d,
        !fits_i32(d) ==> move_code(d).len() == 13 && move_code(d).subrange(0, 2) == seq![
            0x48u8,
            0xB8u8,
        ] && read_i64(move_code(d).subrange(2, 10)) == d && move_code(d).subrange(10, 13) == seq![
            0x48u8,
            0x01u8,
            0xC3u8,
        ],
{
    lemma_le_bytes_len();
    lemma_imm_read_back(d);
    let c = move_code(d);
    if d != 0 && fits_i32(d) {
        assert(c.subrange(0, 3) =~= seq![0x48u8, 0x81u8, 0xC3u8]);
        assert(c.subrange(3, 7) =~= imm32(d));
    } else if !fits_i32(d) {
        assert(c.subrange(0, 2) =~= seq![0x48u8, 0xB8u8]);
        assert(c.subrange(2, 10) =~= imm64(d));
        assert(c.subrange(10, 13) =~= seq![0x48u8, 0x01u8, 0xC3u8]);
    }
}

/// The code of `Transfer { offset, multiplier }` with a multiplier that is not a multiple of
/// 256: `movzx eax, byte [rbx]; mov byte [rbx], 0; test eax, eax; jz` over the rest, landing
/// at the end; `lea rcx, [rbx]`; `rcx` is advanced by exactly `offset`, signed (`add rcx,
/// imm32` or `movabs rdx, imm64; add rcx, rdx`, the immediate reading back as `offset`);
/// `imul eax, eax, imm8` with the multiplier's low byte; `add byte [rcx], al`.
pub proof fn lemma_transfer_code_fields(offset: int, multiplier: int)
    requires
        offset != 0,
        i64::MIN <= offset <= i64::MAX,
        i64::MIN <= multiplier <= i64::MAX,
        multiplier % 256 != 0,
    ensures
        ({
            let c = transfer_code(offset, multiplier);
            let n = if fits_i32(offset) { 7int } else { 13int };
            &&& c.len() == 22 + n
            &&& c.subrange(0, 10) == seq![
                0x0Fu8,
                0xB6u8,
                0x03u8,
                0xC6u8,
                0x03u8,
                0x00u8,
                0x85u8,
                0xC0u8,
                0x0Fu8,
                0x84u8,
            ]
            &&& read_i32(c.subrange(10, 14)) == c.len() - 14
            &&& c.subrange(14, 17) == seq![0x48u8, 0x8Du8, 0x0Bu8]
            &&& fits_i32(offset) ==> c.subrange(17, 20) == seq![0x48u8, 0x81u8, 0xC1u8] && read_i32(
                c.subrange(20, 24),
            ) == offset
            &&& !fits_i32(offset) ==> c.subrange(17, 19) == seq![0x48u8, 0xBAu8] && read_i64(
                c.subrange(19, 27),
            ) == offset && c.subrange(27, 30) == seq![0x48u8, 0x01u8, 0xD1u8]
            &&& c.subrange(17 + n, 22 + n) == seq![0x6Bu8, 0xC0u8, c[19 + n], 0x00u8, 0x01u8]
            &&& c[19 + n] as int == multiplier % 256
        }),
{
    lemma_le_bytes_len();
    lemma_imm_read_back(offset);
    let w = multiplier as i64;
    assert((w as u8) as int == (w as int) % 256) by (bit_vector);
    let m = multiplier as u8;
    let tail = transfer_tail(offset, m);
    let n = if fits_i32(offset) { 7int } else { 13int };
    assert(tail.len() == 8 + n);
    lemma_imm_read_back(tail.len() as int);
    let c = transfer_code(offset, multiplier);
    assert(c.subrange(0, 10) =~= seq![
        0x0Fu8,
        0xB6u8,
        0x03u8,
        0xC6u8,
        0x03u8,
        0x00u8,
        0x85u8,
        0xC0u8,
        0x0Fu8,
        0x84u8,
    ]);
    assert(c.subrange(10, 14) =~= imm32(tail.len() as int));
    assert(c.subrange(14, 17) =~= seq![0x48u8, 0x8Du8, 0x0Bu8]);
    if fits_i32(offset) {
        assert(c.subrange(17, 20) =~= seq![0x48u8, 0x81u8, 0xC1u8]);
        assert(c.subrange(20, 24) =~= imm32(offset));
    } else {
        assert(c.subrange(17, 19) =~= seq![0x48u8, 0xBAu8]);
        assert(c.subrange(19, 27) =~= imm64(offset));
        assert(c.subrange(27, 30) =~= seq![0x48u8, 0x01u8, 0xD1u8]);
    }
    assert(c.subrange(17 + n, 22 + n) =~= seq![0x6Bu8, 0xC0u8, m, 0x00u8, 0x01u8]);
}

/// A loop's forward jump lands right after the loop and its backward jump lands on the
/// loop's first instruction: `cmp byte [rbx], 0; je` to the end, the body, `cmp byte [rbx],
/// 0; jne` to the start.
pub proof fn lemma_loop_code_fields(body: Seq<u8>)
    requires
        body.len() + 18 <= i32::MAX,
    ensures
        ({
            let c = loop_code(body);
            &&& c.len() == body.len() + 18
            &&& c.subrange(0, 5) == seq![0x80u8, 0x3Bu8, 0x00u8, 0x0Fu8, 0x84u8]
            &&& 9 + read_i32(c.subrange(5, 9)) == c.len()
            &&& c.subrange(9, 9 + body.len() as int) == body
            &&& c.subrange(9 + body.len() as int, 14 + body.len() as int) == seq![
                0x80u8,
                0x3Bu8,
                0x00u8,
                0x0Fu8,
                0x85u8,
            ]
            &&& c.len() + read_i32(c.subrange(14 + body.len() as int, c.len() as int)) == 0
        }),
{
    lemma_le_bytes_len();
    lemma_imm_read_back(body.len() + 9int);
    lemma_imm_read_back(-(body.len() + 18int));
    let c = loop_code(body);
    let b = body.len() as int;
    assert(c.subrange(0, 5) =~= seq![0x80u8, 0x3Bu8, 0x00u8, 0x0Fu8, 0x84u8]);
    assert(c.subrange(5, 9) =~= imm32(b + 9));
    assert(c.subrange(9, 9 + b) =~= body);
    assert(c.subrange(9 + b, 14 + b) =~= seq![0x80u8, 0x3Bu8, 0x00u8, 0x0Fu8, 0x85u8]);
    assert(c.subrange(14 + b, c.len() as int) =~= imm32(-(b + 18)));
}

/// The length of the program's code does not depend on where the tape is.
pub proof fn lemma_code_len_independent_of_tape(cmds: Seq<Cmd>, a: u64, b: u64)
    ensures
        program_code(cmds, a).len() == program_code(cmds, b).len(),
{
    lemma_le_bytes_len();
}

/// The code of a prefix one command longer.
proof fn lemma_cmds_code_take(s: Seq<Cmd>, i: int)
    requires
        0 <= i < s.len(),
    ensures
        cmds_code(s.take(i + 1)) == cmds_code(s.take(i)) + cmd_code(s[i]),
{
    assert(s.take(i + 1).drop_last() =~= s.take(i));
}

/// A prefix has no more code than the whole.
proof fn lemma_cmds_code_prefix_len(s: Seq<Cmd>, i: int)
    requires
        0 <= i <= s.len(),
    ensures
        cmds_code(s.take(i)).len() <= cmds_code(s).len(),
    decreases s.len(),
{
    if i < s.len() {
        assert(s.drop_last().take(i) =~= s.take(i));
        lemma_cmds_code_prefix_len(s.drop_last(), i);
    } else {
        assert(s.take(i) =~= s);
    }
}

/// Every loop of a sequence whose loops fit fits.
proof fn lemma_loops_fit_each(s: Seq<Cmd>, i: int)
    requires
        loops_fit(s),
        0 <= i < s.len(),
    ensures
        loop_fits(s[i]),
    decreases s.len(),
{
    if i < s.len() - 1 {
        assert(s.drop_last()[i] == s[i]);
        lemma_loops_fit_each(s.drop_last(), i);
    }
}

/// Machine code being written, and the address of the tape it works on.
struct CodeGen {
    code: Vec<u8>,
    tape_addr: u64,
}

impl CodeGen {
    /// An empty code buffer for the given tape address.
    fn new(tape_addr: u64) -> (cg: Self)
        ensures
            cg.code@ == Seq::<u8>::empty(),
            cg.tape_addr == tape_addr,
    {
        Self { code: Vec::new(), tape_addr }
    }

    /// Appends a little-endian `u32`.
    fn emit_u32(&mut self, value: u32)
        ensures
            final(self).code@ == old(self).code@ + spec_u32_to_le_bytes(value),
            final(self).tape_addr == old(self).tape_addr,
    {
        let mut bytes = u32_to_le_bytes(value);
        self.code.append(&mut bytes);
    }

    /// Appends a little-endian `u64`.
    fn emit_u64(&mut self, value: u64)
        ensures
            final(self).code@ == old(self).code@ + spec_u64_to_le_bytes(value),
            final(self).tape_addr == old(self).tape_addr,
    {
        let mut bytes = u64_to_le_bytes(value);
        self.code.append(&mut bytes);
    }

    /// `movabs rbx, imm64`.
    fn movabs_rbx(&mut self, imm: u64)
        ensures
            final(self).code@ == old(self).code@ + seq![0x48u8, 0xBBu8] + spec_u64_to_le_bytes(imm),
            final(self).tape_addr == old(self).tape_addr,
    {
        self.code.push(0x48);
        self.code.push(0xBB);
        self.emit_u64(imm);
        proof {
            assert(self.code@ =~= old(self).code@ + seq![0x48u8, 0xBBu8] + spec_u64_to_le_bytes(imm));
        }
    }

    /// `movabs rax, imm64`.
    fn movabs_rax(&mut self, imm: u64)
        ensures
            final(self).code@ == old(self).code@ + seq![0x48u8, 0xB8u8] + spec_u64_to_le_bytes(imm),
            final(self).tape_addr == old(self).tape_addr,
    {
        self.code.push(0x48);
        self.code.push(0xB8);
        self.emit_u64(imm);
        proof {
            assert(self.code@ =~= old(self).code@ + seq![0x48u8, 0xB8u8] + spec_u64_to_le_bytes(imm));
        }
    }

    /// `movabs rdx, imm64`.
    fn movabs_rdx(&mut self, imm: u64)
        ensures
            final(self).code@ == old(self).code@ + seq![0x48u8, 0xBAu8] + spec_u64_to_le_bytes(imm),
            final(self).tape_addr == old(self).tape_addr,
    {
        self.code.push(0x48);
        self.code.push(0xBA);
        self.emit_u64(imm);
        proof {
            assert(self.code@ =~= old(self).code@ + seq![0x48u8, 0xBAu8] + spec_u64_to_le_bytes(imm));
        }
    }

    /// `mov eax, imm32`.
    fn mov_eax_imm32(&mut self, imm: u32)
        ensures
            final(self).code@ == old(self).code@ + seq![0xB8u8] + spec_u32_to_le_bytes(imm),
            final(self).tape_addr == old(self).tape_addr,
    {
        self.code.push(0xB8);
        self.emit_u32(imm);
    }

    /// `mov edi, imm32`.
    fn mov_edi_imm32(&mut self, imm: u32)
        ensures
            final(self).code@ == old(self).code@ + seq![0xBFu8] + spec_u32_to_le_bytes(imm),
            final(self).tape_addr == old(self).tape_addr,
    {
        self.code.push(0xBF);
        self.emit_u32(imm);
    }

    /// `mov edx, imm32`.
    fn mov_edx_imm32(&mut self, imm: u32)
        ensures
            final(self).code@ == old(self).code@ + seq![0xBAu8] + spec_u32_to_le_bytes(imm),
            final(self).tape_addr == old(self).tape_addr,
    {
        self.code.push(0xBA);
        self.emit_u32(imm);
    }

    /// `xor edi, edi`.
    fn xor_edi(&mut self)
        ensures
            final(self).code@ == old(self).code@ + seq![0x31u8, 0xFFu8],
            final(self).tape_addr == old(self).tape_addr,
    {
        self.code.extend_from_slice(&[0x31, 0xFF]);
        proof {
            assert(self.code@ =~= old(self).code@ + seq![0x31u8, 0xFFu8]);
        }
    }

    /// `mov rsi, rbx`.
    fn mov_rsi_rbx(&mut self)
        ensures
            final(self).code@ == old(self).code@ + seq![0x48u8, 0x89u8, 0xDEu8],
            final(self).tape_addr == old(self).tape_addr,
    {
        self.code.extend_from_slice(&[0x48, 0x89, 0xDE]);
        proof {
            assert(self.code@ =~= old(self).code@ + seq![0x48u8, 0x89u8, 0xDEu8]);
        }
    }

    /// `syscall`.
    fn syscall(&mut self)
        ensures
            final(self).code@ == old(self).code@ + seq![0x0Fu8, 0x05u8],
            final(self).tape_addr == old(self).tape_addr,
    {
        self.code.extend_from_slice(&[0x0F, 0x05]);
        proof {
            assert(self.code@ =~= old(self).code@ + seq![0x0Fu8, 0x05u8]);
        }
    }

    /// `cmp byte [rbx], 0`.
    fn cmp_byte_rbx_zero(&mut self)
        ensures
            final(self).code@ == old(self).code@ + seq![0x80u8, 0x3Bu8, 0x00u8],
            final(self).tape_addr == old(self).tape_addr,
    {
        self.code.extend_from_slice(&[0x80, 0x3B, 0x00]);
        proof {
            assert(self.code@ =~= old(self).code@ + seq![0x80u8, 0x3Bu8, 0x00u8]);
        }
    }

    /// Points `rbx` at the tape.
    fn emit_init(&mut self)
        ensures
            final(self).code@ == old(self).code@ + init_code(old(self).tape_addr),
            final(self).tape_addr == old(self).tape_addr,
    {
        self.movabs_rbx(self.tape_addr);
        proof {
            assert(self.code@ =~= old(self).code@ + init_code(old(self).tape_addr));
        }
    }

    /// `exit(0)`.
    fn emit_exit(&mut self)
        ensures
            final(self).code@ == old(self).code@ + exit_code(),
            final(self).tape_addr == old(self).tape_addr,
    {
        self.xor_edi();
        self.mov_eax_imm32(60);
        self.syscall();
        proof {
            assert(self.code@ =~= old(self).code@ + exit_code());
        }
    }

    /// Writes the current cell to standard output.
    fn emit_put(&mut self)
        ensures
            final(self).code@ == old(self).code@ + put_code(),
            final(self).tape_addr == old(self).tape_addr,
    {
        self.mov_eax_imm32(1);
        self.mov_edi_imm32(1);
        self.mov_rsi_rbx();
        self.mov_edx_imm32(1);
        self.syscall();
        proof {
            assert(self.code@ =~= old(self).code@ + put_code());
        }
    }

    /// Reads one byte of standard input into the current cell; zero when none is read.
    fn emit_get(&mut self)
        ensures
            final(self).code@ == old(self).code@ + get_code(),
            final(self).tape_addr == old(self).tape_addr,
    {
        self.mov_eax_imm32(0);
        self.xor_edi();
        self.mov_rsi_rbx();
        self.mov_edx_imm32(1);
        self.syscall();

        self.code.extend_from_slice(&[0x48, 0x85, 0xC0]);
        self.code.extend_from_slice(&[0x7F, 0x03]);
        self.emit_clear();
        proof {
            assert(self.code@ =~= old(self).code@ + get_code());
        }
    }

    /// Adds `delta` (modulo 256) to the current cell.
    fn emit_add(&mut self, delta: i64)
        ensures
            final(self).code@ == old(self).code@ + add_code(delta as int),
            final(self).tape_addr == old(self).tape_addr,
    {
        let imm = delta as u8;
        if imm == 0 {
            proof {
                assert(self.code@ =~= old(self).code@ + add_code(delta as int));
            }
            return;
        }
        self.code.extend_from_slice(&[0x80, 0x03, imm]);
        proof {
            assert(self.code@ =~= old(self).code@ + add_code(delta as int));
        }
    }

    /// Moves the data pointer by `delta`.
    fn emit_move(&mut self, delta: i64)
        ensures
            final(self).code@ == old(self).code@ + move_code(delta as int),
            final(self).tape_addr == old(self).tape_addr,
    {
        if delta == 0 {
            proof {
                assert(self.code@ =~= old(self).code@ + move_code(delta as int));
            }
            return;
        }
        if delta >= i32::MIN as i64 && delta <= i32::MAX as i64 {
            self.code.extend_from_slice(&[0x48, 0x81, 0xC3]);
            self.emit_u32(delta as i32 as u32);
        } else {
            self.movabs_rax(delta as u64);
            self.code.extend_from_slice(&[0x48, 0x01, 0xC3]);
        }
        proof {
            assert(self.code@ =~= old(self).code@ + move_code(delta as int));
        }
    }

    /// Adds `value` to `rcx`.
    fn emit_add_rcx_imm64(&mut self, value: i64)
        ensures
            final(self).code@ == old(self).code@ + add_rcx_code(value as int),
            final(self).tape_addr == old(self).tape_addr,
    {
        if value == 0 {
            proof {
                assert(self.code@ =~= old(self).code@ + add_rcx_code(value as int));
            }
            return;
        }
        if value >= i32::MIN as i64 && value <= i32::MAX as i64 {
            self.code.extend_from_slice(&[0x48, 0x81, 0xC1]);
            self.emit_u32(value as i32 as u32);
        } else {
            self.movabs_rdx(value as u64);
            self.code.extend_from_slice(&[0x48, 0x01, 0xD1]);
        }
        proof {
            assert(self.code@ =~= old(self).code@ + add_rcx_code(value as int));
        }
    }

    /// A conditional jump `0F opcode2 rel32` with the distance left at zero; returns where the
    /// distance stands.
    fn emit_jcc_rel32_placeholder(&mut self, opcode2: u8) -> (patch_pos: usize)
        ensures
            final(self).code@ == old(self).code@ + seq![0x0Fu8, opcode2, 0u8, 0u8, 0u8, 0u8],
            final(self).tape_addr == old(self).tape_addr,
            patch_pos == old(self).code@.len() + 2,
    {
        self.code.push(0x0F);
        self.code.push(opcode2);

        let patch_pos = self.code.len();
        self.code.extend_from_slice(&[0u8; 4]);
        proof {
            assert(self.code@ =~= old(self).code@ + seq![0x0Fu8, opcode2, 0u8, 0u8, 0u8, 0u8]);
        }
        patch_pos
    }

    /// `je rel32`, distance to be patched.
    fn emit_je_rel32_placeholder(&mut self) -> (patch_pos: usize)
        ensures
            final(self).code@ == old(self).code@ + seq![0x0Fu8, 0x84u8, 0u8, 0u8, 0u8, 0u8],
            final(self).tape_addr == old(self).tape_addr,
            patch_pos == old(self).code@.len() + 2,
    {
        self.emit_jcc_rel32_placeholder(0x84)
    }

    /// `jz rel32`, distance to be patched.
    fn emit_jz_rel32_placeholder(&mut self) -> (patch_pos: usize)
        ensures
            final(self).code@ == old(self).code@ + seq![0x0Fu8, 0x84u8, 0u8, 0u8, 0u8, 0u8],
            final(self).tape_addr == old(self).tape_addr,
            patch_pos == old(self).code@.len() + 2,
    {
        self.emit_jcc_rel32_placeholder(0x84)
    }

    /// Writes at `patch_pos` the distance from the end of the jump to `target`.
    fn patch_rel32(&mut self, patch_pos: usize, target: usize)
        requires
            patch_pos + 4 <= old(self).code@.len(),
            target <= i64::MAX,
            patch_pos + 4 <= i64::MAX,
            fits_i32(target - (patch_pos + 4)),
        ensures
            final(self).code@ == old(self).code@.take(patch_pos as int) + imm32(
                target - (patch_pos + 4),
            ) + old(self).code@.skip(patch_pos + 4),
            final(self).tape_addr == old(self).tape_addr,
    {
        let rel = target as i64 - (patch_pos as i64 + 4);
        let rel32 = rel as i32;
        let bytes = u32_to_le_bytes(#[verifier::truncate] (rel32 as u32));
        proof {
            lemma_le_bytes_len();
        }
        // The length is a `usize`, so none of the positions below overflows.
        let _len: usize = self.code.len();
        self.code.set(patch_pos, bytes[0]);
        self.code.set(patch_pos + 1, bytes[1]);
        self.code.set(patch_pos + 2, bytes[2]);
        self.code.set(patch_pos + 3, bytes[3]);
        proof {
            assert(self.code@ =~= old(self).code@.take(patch_pos as int) + imm32(
                target - (patch_pos + 4),
            ) + old(self).code@.skip(patch_pos + 4));
        }
    }

    /// `jne` back to `target`.
    fn emit_jne_to(&mut self, target: usize)
        requires
            target <= old(self).code@.len(),
            old(self).code@.len() + 6 <= i64::MAX,
            fits_i32(target - (old(self).code@.len() + 6)),
        ensures
            final(self).code@ == old(self).code@ + seq![0x0Fu8, 0x85u8] + imm32(
                target - (old(self).code@.len() + 6),
            ),
            final(self).tape_addr == old(self).tape_addr,
    {
        let patch = self.emit_jcc_rel32_placeholder(0x85);
        self.patch_rel32(patch, target);
        proof {
            assert(self.code@ =~= old(self).code@ + seq![0x0Fu8, 0x85u8] + imm32(
                target - (old(self).code@.len() + 6),
            ));
        }
    }

    /// Moves the current cell, times `multiplier`, into the cell `offset` places away.
    fn emit_transfer(&mut self, offset: i64, multiplier: i64)
        requires
            old(self).code@.len() + transfer_code(offset as int, multiplier as int).len() <= i64::MAX,
        ensures
            final(self).code@ == old(self).code@ + transfer_code(offset as int, multiplier as int),
            final(self).tape_addr == old(self).tape_addr,
    {
        let multiplier_mod = multiplier as u8;

        if multiplier_mod == 0 {
            self.emit_clear();
            return;
        }

        proof {
            lemma_le_bytes_len();
        }
        self.code.extend_from_slice(&[0x0F, 0xB6, 0x03]);

        self.emit_clear();

        self.code.extend_from_slice(&[0x85, 0xC0]);
        let ghost head = self.code@;
        let skip_patch = self.emit_jz_rel32_placeholder();
        let ghost placeholder = self.code@;

        self.code.extend_from_slice(&[0x48, 0x8D, 0x0B]);
        self.emit_add_rcx_imm64(offset);

        assert((multiplier_mod as i8) as u8 == multiplier_mod) by (bit_vector);
        self.code.push(0x6B);
        self.code.push(0xC0);
        self.code.push(multiplier_mod as i8 as u8);

        self.code.extend_from_slice(&[0x00, 0x01]);
        let ghost tail = transfer_tail(offset as int, multiplier_mod);
        proof {
            assert(self.code@ =~= placeholder + tail);
        }

        let end = self.code.len();
        self.patch_rel32(skip_patch, end);
        proof {
            assert(self.code@ =~= head + seq![0x0Fu8, 0x84u8] + imm32(tail.len() as int) + tail);
            assert(self.code@ =~= old(self).code@ + transfer_code(offset as int, multiplier as int));
        }
    }

    /// A loop around `body`.
    fn emit_loop(&mut self, body: &[Node])
        requires
            loop_fits(Cmd::Loop(nodes_model(body@))),
            old(self).code@.len() + loop_code(cmds_code(nodes_model(body@))).len() <= i64::MAX,
        ensures
            final(self).code@ == old(self).code@ + loop_code(cmds_code(nodes_model(body@))),
            final(self).tape_addr == old(self).tape_addr,
        decreases nodes_model(body@), 1int,
    {
        let ghost inner = cmds_code(nodes_model(body@));
        proof {
            lemma_le_bytes_len();
        }
        let start = self.code.len();

        self.cmp_byte_rbx_zero();
        let end_patch = self.emit_je_rel32_placeholder();

        self.emit_nodes(body);

        self.cmp_byte_rbx_zero();
        let ghost before_jump = self.code@;
        self.emit_jne_to(start);

        let end = self.code.len();
        let ghost before_patch = self.code@;
        self.patch_rel32(end_patch, end);
        proof {
            assert(before_patch =~= old(self).code@ + seq![0x80u8, 0x3Bu8, 0x00u8, 0x0Fu8, 0x84u8, 0u8, 0u8, 0u8, 0u8] + inner + seq![0x80u8, 0x3Bu8, 0x00u8, 0x0Fu8, 0x85u8] + imm32(-(inner.len() + 18)));
            assert(self.code@ =~= old(self).code@ + loop_code(inner));
        }
    }

    /// The code of one node.
    fn emit_node(&mut self, node: &Node)
        requires
            loop_fits(node_model(*node)),
            old(self).code@.len() + cmd_code(node_model(*node)).len() <= i64::MAX,
        ensures
            final(self).code@ == old(self).code@ + cmd_code(node_model(*node)),
            final(self).tape_addr == old(self).tape_addr,
        decreases node_model(*node), 0int,
    {
        match node {
            Node::Add(delta) => self.emit_add(*delta),
            Node::Move(delta) => self.emit_move(*delta),
            Node::Put => self.emit_put(),
            Node::Get => self.emit_get(),
            Node::Loop(body) => self.emit_loop(body.as_slice()),
            Node::Clear => self.emit_clear(),
            Node::Transfer { offset, multiplier } => {
                self.emit_transfer(*offset, *multiplier);
            },
        }
    }

    /// The code of each node, in order.
    fn emit_nodes(&mut self, nodes: &[Node])
        requires
            loops_fit(nodes_model(nodes@)),
            old(self).code@.len() + cmds_code(nodes_model(nodes@)).len() <= i64::MAX,
        ensures
            final(self).code@ == old(self).code@ + cmds_code(nodes_model(nodes@)),
            final(self).tape_addr == old(self).tape_addr,
        decreases nodes_model(nodes@), 0int,
    {
        let ghost model = nodes_model(nodes@);
        proof {
            lemma_nodes_model(nodes@);
        }
        let mut i: usize = 0;
        while i < nodes.len()
            invariant
                i <= nodes.len(),
                model == nodes_model(nodes@),
                model.len() == nodes@.len(),
                forall|j: int| 0 <= j < nodes@.len() ==> #[trigger] model[j] == node_model(nodes@[j]),
                loops_fit(model),
                old(self).code@.len() + cmds_code(model).len() <= i64::MAX,
                self.code@ == old(self).code@ + cmds_code(model.take(i as int)),
                self.tape_addr == old(self).tape_addr,
            decreases nodes.len() - i,
        {
            proof {
                lemma_cmds_code_take(model, i as int);
                lemma_cmds_code_prefix_len(model, i + 1);
                lemma_loops_fit_each(model, i as int);
                assert(decreases_to!(model => model[i as int]));
            }
            self.emit_node(&nodes[i]);
            proof {
                assert(self.code@ =~= old(self).code@ + cmds_code(model.take(i + 1)));
            }
            i += 1;
        }
        proof {
            assert(model.take(nodes.len() as int) =~= model);
        }
    }

    /// `mov byte [rbx], 0`.
    fn emit_clear(&mut self)
        ensures
            final(self).code@ == old(self).code@ + clear_code(),
            final(self).tape_addr == old(self).tape_addr,
    {
        self.code.extend_from_slice(&[0xC6, 0x03, 0x00]);
        proof {
            assert(self.code@ =~= old(self).code@ + clear_code());
        }
    }
}

/// The machine code of a whole program for a tape at `tape_addr`.
pub fn emit_program(program: &[Node], tape_addr: u64) -> (code: Vec<u8>)
    requires
        loops_fit(nodes_model(program@)),
        cmds_code(nodes_model(program@)).len() + 19 <= i64::MAX,
    ensures
        code@ == program_code(nodes_model(program@), tape_addr),
{
    proof {
        lemma_le_bytes_len();
    }
    let mut cg = CodeGen::new(tape_addr);
    cg.emit_init();
    cg.emit_nodes(program);
    cg.emit_exit();
    proof {
        assert(cg.code@ =~= program_code(nodes_model(program@), tape_addr));
    }
    cg.code
}

/// `value` rounded up to a multiple of `align`.
pub open spec fn spec_align_up(value: int, align: int) -> int {
    ((value + align - 1) / align) * align
}

/// Length of the whole program's code: 10 bytes to set up, the commands, 9 bytes to exit.
pub open spec fn code_size(cmds: Seq<Cmd>) -> int {
    cmds_code(cmds).len() + 19int
}

/// File offset of the tape segment: the first page boundary after headers and code.
pub open spec fn data_offset(cmds: Seq<Cmd>) -> int {
    spec_align_up(HEADERS_SIZE + code_size(cmds), PAGE_SIZE as int)
}

/// Address of the tape.
pub open spec fn tape_addr(cmds: Seq<Cmd>) -> int {
    BASE + data_offset(cmds)
}

/// `n` zero bytes.
pub open spec fn zeros(n: int) -> Seq<u8> {
    Seq::new(n as nat, |i: int| 0u8)
}

/// The ELF header and the two program headers: a 64-bit little-endian executable for x86-64
/// whose entry is right after the headers; one read-and-execute segment from the start of the
/// file to the end of the code, one read-and-write segment of `TAPE_SIZE` bytes at
/// `data_offset`, mapped at `tape_addr`.
pub open spec fn elf_headers(code_end: u64, data_offset: u64, tape_addr: u64) -> Seq<u8> {
    seq![0x7fu8, 0x45u8, 0x4cu8, 0x46u8, 2u8, 1u8, 1u8, 0u8, 0u8, 0u8, 0u8, 0u8, 0u8, 0u8, 0u8, 0u8]
        + spec_u16_to_le_bytes(2) + spec_u16_to_le_bytes(62) + spec_u32_to_le_bytes(1)
        + spec_u64_to_le_bytes((BASE + HEADERS_SIZE) as u64) + spec_u64_to_le_bytes(EHDR_SIZE)
        + spec_u64_to_le_bytes(0) + spec_u32_to_le_bytes(0) + spec_u16_to_le_bytes(EHDR_SIZE as u16)
        + spec_u16_to_le_bytes(PHDR_SIZE as u16) + spec_u16_to_le_bytes(PROGRAM_HEADER_COUNT as u16)
        + spec_u16_to_le_bytes(0) + spec_u16_to_le_bytes(0) + spec_u16_to_le_bytes(0)
        + spec_u32_to_le_bytes(1) + spec_u32_to_le_bytes(5) + spec_u64_to_le_bytes(0)
        + spec_u64_to_le_bytes(BASE) + spec_u64_to_le_bytes(BASE) + spec_u64_to_le_bytes(code_end)
        + spec_u64_to_le_bytes(data_offset) + spec_u64_to_le_bytes(PAGE_SIZE)
        + spec_u32_to_le_bytes(1) + spec_u32_to_le_bytes(6) + spec_u64_to_le_bytes(data_offset)
        + spec_u64_to_le_bytes(tape_addr) + spec_u64_to_le_bytes(tape_addr)
        + spec_u64_to_le_bytes(TAPE_SIZE) + spec_u64_to_le_bytes(TAPE_SIZE)
        + spec_u64_to_le_bytes(PAGE_SIZE)
}

/// The file: headers, code, zeros up to `data_offset`, then the zeroed tape.
pub open spec fn elf_file(code: Seq<u8>, data_offset: u64, tape_addr: u64) -> Seq<u8> {
    elf_headers((HEADERS_SIZE + code.len()) as u64, data_offset, tape_addr) + code + zeros(
        data_offset - HEADERS_SIZE - code.len(),
    ) + zeros(TAPE_SIZE as int)
}

/// The executable for a program.
pub open spec fn elf_image(cmds: Seq<Cmd>) -> Seq<u8> {
    elf_file(
        program_code(cmds, tape_addr(cmds) as u64),
        data_offset(cmds) as u64,
        tape_addr(cmds) as u64,
    )
}

/// The program can be emitted: every loop's jumps fit in 32 bits and the file fits in memory.
pub open spec fn emittable(cmds: Seq<Cmd>) -> bool {
    loops_fit(cmds) && data_offset(cmds) + TAPE_SIZE <= isize::MAX
}

/// The 16-bit little-endian field at `at`.
pub open spec fn field_u16(bytes: Seq<u8>, at: int) -> int {
    spec_u16_from_le_bytes(bytes.subrange(at, at + 2)) as int
}

/// The 32-bit little-endian field at `at`.
pub open spec fn field_u32(bytes: Seq<u8>, at: int) -> int {
    spec_u32_from_le_bytes(bytes.subrange(at, at + 4)) as int
}

/// The 64-bit little-endian field at `at`.
pub open spec fn field_u64(bytes: Seq<u8>, at: int) -> int {
    spec_u64_from_le_bytes(bytes.subrange(at, at + 8)) as int
}

/// The tape segment starts on a page boundary past the end of the code.
pub proof fn lemma_data_offset_bounds(cmds: Seq<Cmd>)
    ensures
        data_offset(cmds) % 4096 == 0,
        HEADERS_SIZE + code_size(cmds) <= data_offset(cmds) < HEADERS_SIZE + code_size(cmds) + 4096,
{
    let v = HEADERS_SIZE + code_size(cmds);
    assert(v >= 0);
    let q = (v + 4095) / 4096;
    assert(q * 4096 <= v + 4095 < q * 4096 + 4096) by (nonlinear_arith)
        requires q == (v + 4095) / 4096;
    assert((q * 4096) % 4096 == 0) by (nonlinear_arith);
}

/// The fields of the headers read back as what a 64-bit x86-64 ELF executable with two
/// loadable segments needs.
proof fn lemma_elf_header_fields(code_end: u64, data_offset: u64, tape_addr: u64)
    ensures
        ({
            let h = elf_headers(code_end, data_offset, tape_addr);
            &&& h.len() == 176
            &&& h.subrange(0, 8) == seq![0x7fu8, 0x45u8, 0x4cu8, 0x46u8, 2u8, 1u8, 1u8, 0u8]
            &&& field_u16(h, 16) == 2
            &&& field_u16(h, 18) == 62
            &&& field_u32(h, 20) == 1
            &&& field_u64(h, 24) == 0x40_0000 + 176
            &&& field_u64(h, 32) == 64
            &&& field_u16(h, 52) == 64
            &&& field_u16(h, 54) == 56
            &&& field_u16(h, 56) == 2
            &&& field_u32(h, 64) == 1
            &&& field_u32(h, 68) == 5
            &&& field_u64(h, 72) == 0
            &&& field_u64(h, 80) == 0x40_0000
            &&& field_u64(h, 96) == code_end
            &&& field_u64(h, 104) == data_offset
            &&& field_u32(h, 120) == 1
            &&& field_u32(h, 124) == 6
            &&& field_u64(h, 128) == data_offset
            &&& field_u64(h, 136) == tape_addr
            &&& field_u64(h, 152) == 30000
            &&& field_u64(h, 160) == 30000
        }),
{
    lemma_le_bytes_len();
    vstd::bytes::lemma_auto_spec_u16_to_from_le_bytes();
    vstd::bytes::lemma_auto_spec_u32_to_from_le_bytes();
    vstd::bytes::lemma_auto_spec_u64_to_from_le_bytes();
    let h = elf_headers(code_end, data_offset, tape_addr);
    assert(h.subrange(0, 8) =~= seq![0x7fu8, 0x45u8, 0x4cu8, 0x46u8, 2u8, 1u8, 1u8, 0u8]);
    assert(h.subrange(16, 18) =~= spec_u16_to_le_bytes(2));
    assert(h.subrange(18, 20) =~= spec_u16_to_le_bytes(62));
    assert(h.subrange(20, 24) =~= spec_u32_to_le_bytes(1));
    assert(h.subrange(24, 32) =~= spec_u64_to_le_bytes((BASE + HEADERS_SIZE) as u64));
    assert(h.subrange(32, 40) =~= spec_u64_to_le_bytes(EHDR_SIZE));
    assert(h.subrange(52, 54) =~= spec_u16_to_le_bytes(EHDR_SIZE as u16));
    assert(h.subrange(54, 56) =~= spec_u16_to_le_bytes(PHDR_SIZE as u16));
    assert(h.subrange(56, 58) =~= spec_u16_to_le_bytes(PROGRAM_HEADER_COUNT as u16));
    assert(h.subrange(64, 68) =~= spec_u32_to_le_bytes(1));
    assert(h.subrange(68, 72) =~= spec_u32_to_le_bytes(5));
    assert(h.subrange(72, 80) =~= spec_u64_to_le_bytes(0));
    assert(h.subrange(80, 88) =~= spec_u64_to_le_bytes(BASE));
    assert(h.subrange(96, 104) =~= spec_u64_to_le_bytes(code_end));
    assert(h.subrange(104, 112) =~= spec_u64_to_le_bytes(data_offset));
    assert(h.subrange(120, 124) =~= spec_u32_to_le_bytes(1));
    assert(h.subrange(124, 128) =~= spec_u32_to_le_bytes(6));
    assert(h.subrange(128, 136) =~= spec_u64_to_le_bytes(data_offset));
    assert(h.subrange(136, 144) =~= spec_u64_to_le_bytes(tape_addr));
    assert(h.subrange(152, 160) =~= spec_u64_to_le_bytes(TAPE_SIZE));
    assert(h.subrange(160, 168) =~= spec_u64_to_le_bytes(TAPE_SIZE));
}

/// The executable is a self-consistent ELF64 file that Linux loads: the ELF header says where
/// the program headers are, how large each one is and how many there are, and they end
/// exactly where the code begins, which is the entry point. The first program header maps the
/// headers and the code readable and executable at the base address; the second maps the
/// tape, readable and writable, at the address that the code points `rbx` at, from the page
/// boundary in the file where the zeroed tape lies. The file ends with the tape.
pub proof fn lemma_elf_image_loadable(cmds: Seq<Cmd>)
    requires
        emittable(cmds),
    ensures
        ({
            let f = elf_image(cmds);
            let code = program_code(cmds, tape_addr(cmds) as u64);
            let phoff = field_u64(f, 32);
            let phentsize = field_u16(f, 54);
            let phnum = field_u16(f, 56);
            let entry = field_u64(f, 24);
            &&& f.len() == data_offset(cmds) + 30000
            &&& f.subrange(0, 8) == seq![0x7fu8, 0x45u8, 0x4cu8, 0x46u8, 2u8, 1u8, 1u8, 0u8]
            &&& field_u16(f, 16) == 2
            &&& field_u16(f, 18) == 62
            &&& field_u16(f, 52) == 64
            &&& phoff == 64
            &&& phentsize == 56
            &&& phnum == 2
            &&& phoff + phnum * phentsize == entry - 0x40_0000
            &&& entry == 0x40_0000 + 176
            &&& f.subrange(176, 176 + code.len() as int) == code
            &&& field_u32(f, phoff) == 1
            &&& field_u32(f, phoff + 4) == 5
            &&& field_u64(f, phoff + 8) == 0
            &&& field_u64(f, phoff + 16) == 0x40_0000
            &&& field_u64(f, phoff + 32) == 176 + code.len()
            &&& field_u64(f, phoff + 40) == data_offset(cmds)
            &&& field_u32(f, phoff + phentsize) == 1
            &&& field_u32(f, phoff + phentsize + 4) == 6
            &&& field_u64(f, phoff + phentsize + 8) == data_offset(cmds)
            &&& field_u64(f, phoff + phentsize + 16) == tape_addr(cmds)
            &&& field_u64(f, phoff + phentsize + 32) == 30000
            &&& field_u64(f, phoff + phentsize + 40) == 30000
            &&& tape_addr(cmds) == 0x40_0000 + data_offset(cmds)
            &&& data_offset(cmds) % 4096 == 0
            &&& 176 + code.len() <= data_offset(cmds)
            &&& field_u64(code, 2) == tape_addr(cmds)
            &&& f.subrange(data_offset(cmds), f.len() as int) == Seq::new(30000, |i: int| 0u8)
        }),
{
    lemma_le_bytes_len();
    vstd::bytes::lemma_auto_spec_u64_to_from_le_bytes();
    lemma_data_offset_bounds(cmds);
    let d = data_offset(cmds);
    let t = tape_addr(cmds);
    let code = program_code(cmds, t as u64);
    assert(code.len() == code_size(cmds));
    let code_end = (HEADERS_SIZE + code.len()) as u64;
    lemma_elf_header_fields(code_end, d as u64, t as u64);
    let h = elf_headers(code_end, d as u64, t as u64);
    let f = elf_image(cmds);
    assert(f.subrange(0, 176) =~= h);
    assert forall|a: int, b: int| 0 <= a <= b <= 176 implies #[trigger] f.subrange(a, b) == h.subrange(a, b) by {
        assert(f.subrange(a, b) =~= h.subrange(a, b));
    }
    assert(f.subrange(176, 176 + code.len() as int) =~= code);
    assert(f.subrange(d, f.len() as int) =~= Seq::new(30000, |i: int| 0u8));
    assert(code.subrange(2, 10) =~= spec_u64_to_le_bytes(t as u64));
}

/// Rounds `value` up to a multiple of `align`.
fn align_up(value: u64, align: u64) -> (res: u64)
    requires
        align > 0,
        value + align <= u64::MAX,
    ensures
        res == spec_align_up(value as int, align as int),
{
    proof {
        assert(((value + align - 1) / (align as int)) * align <= value + align - 1) by (nonlinear_arith)
            requires align > 0, value + align - 1 >= 0;
    }
    ((value + align - 1) / align) * align
}

/// Appends a little-endian `u16`.
fn push_u16(out: &mut Vec<u8>, value: u16)
    ensures
        final(out)@ == old(out)@ + spec_u16_to_le_bytes(value),
{
    let mut bytes = u16_to_le_bytes(value);
    out.append(&mut bytes);
}

/// Appends a little-endian `u32`.
fn push_u32(out: &mut Vec<u8>, value: u32)
    ensures
        final(out)@ == old(out)@ + spec_u32_to_le_bytes(value),
{
    let mut bytes = u32_to_le_bytes(value);
    out.append(&mut bytes);
}

/// Appends a little-endian `u64`.
fn push_u64(out: &mut Vec<u8>, value: u64)
    ensures
        final(out)@ == old(out)@ + spec_u64_to_le_bytes(value),
{
    let mut bytes = u64_to_le_bytes(value);
    out.append(&mut bytes);
}

/// Lays out the executable around `code`.
fn build_elf(code: &[u8], data_offset: u64, tape_addr: u64) -> (out: Vec<u8>)
    requires
        HEADERS_SIZE + code@.len() <= data_offset,
        data_offset + TAPE_SIZE <= isize::MAX,
    ensures
        out@ == elf_file(code@, data_offset, tape_addr),
{
    let code_end = HEADERS_SIZE + code.len() as u64;

    let file_size = data_offset + TAPE_SIZE;
    let entry = BASE + HEADERS_SIZE;

    let mut out: Vec<u8> = Vec::with_capacity(file_size as usize);

    out.extend_from_slice(&[0x7f, 0x45, 0x4c, 0x46, 2, 1, 1, 0, 0, 0, 0, 0, 0, 0, 0, 0]);

    push_u16(&mut out, 2);
    push_u16(&mut out, 62);
    push_u32(&mut out, 1);
    push_u64(&mut out, entry);
    push_u64(&mut out, EHDR_SIZE);
    push_u64(&mut out, 0);
    push_u32(&mut out, 0);
    push_u16(&mut out, EHDR_SIZE as u16);
    push_u16(&mut out, PHDR_SIZE as u16);
    push_u16(&mut out, PROGRAM_HEADER_COUNT as u16);
    push_u16(&mut out, 0);
    push_u16(&mut out, 0);
    push_u16(&mut out, 0);

    proof {
        lemma_le_bytes_len();
        assert(out@.len() == EHDR_SIZE);
    }

    push_u32(&mut out, 1);
    push_u32(&mut out, 5);
    push_u64(&mut out, 0);
    push_u64(&mut out, BASE);
    push_u64(&mut out, BASE);
    push_u64(&mut out, code_end);
    push_u64(&mut out, data_offset);
    push_u64(&mut out, PAGE_SIZE);

    push_u32(&mut out, 1);
    push_u32(&mut out, 6);
    push_u64(&mut out, data_offset);
    push_u64(&mut out, tape_addr);
    push_u64(&mut out, tape_addr);
    push_u64(&mut out, TAPE_SIZE);
    push_u64(&mut out, TAPE_SIZE);
    push_u64(&mut out, PAGE_SIZE);

    let ghost headers = out@;
    proof {
        assert(headers =~= elf_headers(code_end, data_offset, tape_addr));
        assert(out@.len() == HEADERS_SIZE);
    }

    out.extend_from_slice(code);
    let ghost with_code = out@;
    proof {
        assert(with_code =~= headers + code@);
    }

    out.resize(data_offset as usize, 0);
    let ghost padded = out@;
    proof {
        assert(padded =~= with_code + zeros(data_offset - HEADERS_SIZE - code@.len()));
    }

    out.resize(file_size as usize, 0);
    proof {
        assert(out@ =~= padded + zeros(TAPE_SIZE as int));
    }

    out
}

/// Compiles a program to a Linux x86-64 executable.
pub fn emit_linux_amd64_elf(program: &[Node]) -> (elf: Vec<u8>)
    requires
        emittable(nodes_model(program@)),
    ensures
        elf@ == elf_image(nodes_model(program@)),
{
    let ghost model = nodes_model(program@);
    proof {
        lemma_le_bytes_len();
        lemma_code_len_independent_of_tape(model, 0, 0);
    }
    let mut code_len = emit_program(program, 0).len() as u64;
    let mut result: Option<(Vec<u8>, u64, u64)> = None;

    for _ in it: 0..16
        invariant_except_break
            result is None,
            it.index() == 0,
        invariant
            model == nodes_model(program@),
            emittable(model),
            code_len == code_size(model),
        ensures
            result matches Some((code, offset, addr)) && code@ == program_code(model, addr)
                && offset == data_offset(model) && addr == tape_addr(model),
    {
        proof {
            lemma_le_bytes_len();
        }
        let code_end = HEADERS_SIZE + code_len;
        let data_offset = align_up(code_end, PAGE_SIZE);
        let tape_addr = BASE + data_offset;

        let code = emit_program(program, tape_addr);

        if code.len() as u64 == code_len {
            result = Some((code, data_offset, tape_addr));
            break;
        }

        code_len = code.len() as u64;
    }

    let (code, data_offset, tape_addr) = result.expect("native code generation did not converge");

    build_elf(&code, data_offset, tape_addr)
}

/// The length of a node's code when its loops fit and the length is at most `cap`; `None`
/// otherwise.
fn node_code_len_within(node: &Node, cap: u64) -> (res: Option<u64>)
    ensures
        match res {
            Some(n) => loop_fits(node_model(*node)) && n == cmd_code(node_model(*node)).len()
                && n <= cap,
            None => !(loop_fits(node_model(*node)) && cmd_code(node_model(*node)).len() <= cap),
        },
    decreases node_model(*node), 1int,
{
    proof {
        lemma_le_bytes_len();
    }
    let n: u64 = match node {
        Node::Add(delta) => if #[verifier::truncate] (*delta as u8) == 0 {
            0
        } else {
            3
        },
        Node::Move(delta) => if *delta == 0 {
            0
        } else if *delta >= i32::MIN as i64 && *delta <= i32::MAX as i64 {
            7
        } else {
            13
        },
        Node::Put => 20,
        Node::Get => 25,
        Node::Clear => 3,
        Node::Transfer { offset, multiplier } => if #[verifier::truncate] (*multiplier as u8) == 0 {
            3
        } else if *offset == 0 {
            22
        } else if *offset >= i32::MIN as i64 && *offset <= i32::MAX as i64 {
            29
        } else {
            35
        },
        Node::Loop(body) => {
            let limit = if cap < i32::MAX as u64 {
                cap
            } else {
                i32::MAX as u64
            };
            if limit < 18 {
                return None;
            }
            let inner = body.as_slice();
            proof {
                assert(node_model(*node) == Cmd::Loop(nodes_model(inner@)));
                assert(decreases_to!(node_model(*node) => node_model(*node)->Loop_0));
            }
            match code_len_within(inner, limit - 18) {
                Some(b) => b + 18,
                None => return None,
            }
        },
    };
    if n <= cap {
        Some(n)
    } else {
        None
    }
}

/// The length of the nodes' code when every loop fits and the length is at most `cap`;
/// `None` otherwise.
fn code_len_within(nodes: &[Node], cap: u64) -> (res: Option<u64>)
    ensures
        match res {
            Some(n) => loops_fit(nodes_model(nodes@)) && n == cmds_code(nodes_model(nodes@)).len()
                && n <= cap,
            None => !(loops_fit(nodes_model(nodes@)) && cmds_code(nodes_model(nodes@)).len() <= cap),
        },
    decreases nodes_model(nodes@), 0int,
{
    let ghost model = nodes_model(nodes@);
    proof {
        lemma_nodes_model(nodes@);
    }
    let mut total: u64 = 0;
    let mut i: usize = 0;
    while i < nodes.len()
        invariant
            i <= nodes.len(),
            model == nodes_model(nodes@),
            model.len() == nodes@.len(),
            forall|j: int| 0 <= j < nodes@.len() ==> #[trigger] model[j] == node_model(nodes@[j]),
            loops_fit(model.take(i as int)),
            total == cmds_code(model.take(i as int)).len(),
            total <= cap,
        decreases nodes.len() - i,
    {
        proof {
            lemma_cmds_code_take(model, i as int);
            assert(model.take(i + 1).drop_last() =~= model.take(i as int));
            assert(decreases_to!(model => model[i as int]));
        }
        match node_code_len_within(&nodes[i], cap - total) {
            Some(n) => {
                total = total + n;
            },
            None => {
                proof {
                    if loops_fit(model) {
                        lemma_loops_fit_each(model, i as int);
                        lemma_cmds_code_prefix_len(model, i + 1);
                    }
                }
                return None;
            },
        }
        i += 1;
    }
    proof {
        assert(model.take(nodes.len() as int) =~= model);
    }
    Some(total)
}

/// Whether the program can be emitted.
pub fn is_emittable(program: &[Node]) -> (ok: bool)
    ensures
        ok == emittable(nodes_model(program@)),
{
    let limit = isize::MAX as u64;
    let cap = limit - (TAPE_SIZE + HEADERS_SIZE + 19);
    match code_len_within(program, cap) {
        None => {
            proof {
                let model = nodes_model(program@);
                if loops_fit(model) {
                    assert(data_offset(model) >= HEADERS_SIZE + code_size(model)) by (nonlinear_arith)
                        requires
                            data_offset(model) == spec_align_up(
                                HEADERS_SIZE + code_size(model),
                                PAGE_SIZE as int,
                            ),
                            HEADERS_SIZE + code_size(model) >= 0,
                    ;
                }
            }
            false
        },
        Some(n) => {
            let code_end = HEADERS_SIZE + n + 19;
            let data_offset = align_up(code_end, PAGE_SIZE);
            data_offset <= limit - TAPE_SIZE
        },
    }
}

} // verus!
