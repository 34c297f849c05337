use brainmelt::native::is_emittable;
use brainmelt::ast::Node;
use brainmelt::native::{emit_linux_amd64_elf, emit_program};

const EXIT: [u8; 9] = [0x31, 0xFF, 0xB8, 0x3C, 0x00, 0x00, 0x00, 0x0F, 0x05];

fn program_bytes(tape: u64, body: &[u8]) -> Vec<u8> {
    let mut out = vec![0x48, 0xBB];
    out.extend_from_slice(&tape.to_le_bytes());
    out.extend_from_slice(body);
    out.extend_from_slice(&EXIT);
    out
}

#[test]
fn emits_elf_magic() {
    let elf = emit_linux_amd64_elf(&[]);
    assert_eq!(&elf[0..4], &[0x7f, b'E', b'L', b'F']);
}

#[test]
fn code_size_is_stable_between_passes() {
    let program = vec![
        Node::Add(1),
        Node::Loop(vec![Node::Add(-1), Node::Move(1)]),
    ];

    let a = emit_program(&program, 0);
    let b = emit_program(&program, 0x400000);

    assert_eq!(a.len(), b.len());
}

#[test]
fn emits_add_modulo_256() {
    assert_eq!(emit_program(&[Node::Add(1)], 0), program_bytes(0, &[0x80, 0x03, 0x01]));
    assert_eq!(emit_program(&[Node::Add(-1)], 0), program_bytes(0, &[0x80, 0x03, 0xFF]));
    assert_eq!(emit_program(&[Node::Add(257)], 0), program_bytes(0, &[0x80, 0x03, 0x01]));
    assert_eq!(emit_program(&[Node::Add(256)], 0), program_bytes(0, &[]));
}

#[test]
fn emits_short_and_long_moves() {
    assert_eq!(
        emit_program(&[Node::Move(5)], 7),
        program_bytes(7, &[0x48, 0x81, 0xC3, 0x05, 0x00, 0x00, 0x00])
    );
    assert_eq!(
        emit_program(&[Node::Move(-1)], 7),
        program_bytes(7, &[0x48, 0x81, 0xC3, 0xFF, 0xFF, 0xFF, 0xFF])
    );
    assert_eq!(
        emit_program(&[Node::Move(1 << 40)], 7),
        program_bytes(
            7,
            &[0x48, 0xB8, 0, 0, 0, 0, 0, 0x01, 0, 0, 0x48, 0x01, 0xC3]
        )
    );
    assert_eq!(emit_program(&[Node::Move(0)], 7), program_bytes(7, &[]));
}

#[test]
fn emits_put_and_get() {
    assert_eq!(
        emit_program(&[Node::Put], 0),
        program_bytes(
            0,
            &[
                0xB8, 1, 0, 0, 0, 0xBF, 1, 0, 0, 0, 0x48, 0x89, 0xDE, 0xBA, 1, 0, 0, 0, 0x0F,
                0x05,
            ]
        )
    );
    assert_eq!(
        emit_program(&[Node::Get], 0),
        program_bytes(
            0,
            &[
                0xB8, 0, 0, 0, 0, 0x31, 0xFF, 0x48, 0x89, 0xDE, 0xBA, 1, 0, 0, 0, 0x0F, 0x05,
                0x48, 0x85, 0xC0, 0x7F, 0x03, 0xC6, 0x03, 0x00,
            ]
        )
    );
}

#[test]
fn emits_loop_with_both_jumps() {
    assert_eq!(
        emit_program(&[Node::Loop(vec![Node::Add(-1)])], 0),
        program_bytes(
            0,
            &[
                0x80, 0x3B, 0x00, 0x0F, 0x84, 0x0C, 0x00, 0x00, 0x00, 0x80, 0x03, 0xFF, 0x80,
                0x3B, 0x00, 0x0F, 0x85, 0xEB, 0xFF, 0xFF, 0xFF,
            ]
        )
    );
}

#[test]
fn emits_clear_and_transfer() {
    assert_eq!(emit_program(&[Node::Clear], 0), program_bytes(0, &[0xC6, 0x03, 0x00]));
    assert_eq!(
        emit_program(&[Node::Transfer { offset: 1, multiplier: 3 }], 0),
        program_bytes(
            0,
            &[
                0x0F, 0xB6, 0x03, 0xC6, 0x03, 0x00, 0x85, 0xC0, 0x0F, 0x84, 0x0F, 0x00, 0x00,
                0x00, 0x48, 0x8D, 0x0B, 0x48, 0x81, 0xC1, 0x01, 0x00, 0x00, 0x00, 0x6B, 0xC0,
                0x03, 0x00, 0x01,
            ]
        )
    );
    assert_eq!(
        emit_program(&[Node::Transfer { offset: 1, multiplier: 256 }], 0),
        program_bytes(0, &[0xC6, 0x03, 0x00])
    );
}

#[test]
fn elf_headers_and_layout_of_empty_program() {
    let elf = emit_linux_amd64_elf(&[]);
    assert_eq!(elf.len(), 0x1000 + 30_000);
    assert_eq!(&elf[0..16], &[0x7f, b'E', b'L', b'F', 2, 1, 1, 0, 0, 0, 0, 0, 0, 0, 0, 0]);
    assert_eq!(u16::from_le_bytes([elf[16], elf[17]]), 2);
    assert_eq!(u16::from_le_bytes([elf[18], elf[19]]), 62);
    assert_eq!(u64::from_le_bytes(elf[24..32].try_into().unwrap()), 0x4000B0);
    assert_eq!(u64::from_le_bytes(elf[32..40].try_into().unwrap()), 64);
    assert_eq!(u16::from_le_bytes([elf[56], elf[57]]), 2);
    // code segment
    assert_eq!(u32::from_le_bytes(elf[64..68].try_into().unwrap()), 1);
    assert_eq!(u32::from_le_bytes(elf[68..72].try_into().unwrap()), 5);
    assert_eq!(u64::from_le_bytes(elf[96..104].try_into().unwrap()), 176 + 19);
    assert_eq!(u64::from_le_bytes(elf[104..112].try_into().unwrap()), 0x1000);
    // tape segment
    assert_eq!(u32::from_le_bytes(elf[124..128].try_into().unwrap()), 6);
    assert_eq!(u64::from_le_bytes(elf[128..136].try_into().unwrap()), 0x1000);
    assert_eq!(u64::from_le_bytes(elf[136..144].try_into().unwrap()), 0x401000);
    assert_eq!(u64::from_le_bytes(elf[152..160].try_into().unwrap()), 30_000);
    // code right after the headers, pointing at the tape
    assert_eq!(elf[176..195].to_vec(), program_bytes(0x401000, &[]));
    assert!(elf[195..].iter().all(|b| *b == 0));
}

#[test]
fn small_programs_are_emittable() {
    assert!(is_emittable(&[]));
    assert!(is_emittable(&[Node::Loop(vec![Node::Loop(vec![Node::Put])]), Node::Move(1 << 40)]));
}
