use std::collections::{BTreeMap, VecDeque};

use brainmelt::ast::Node;
use brainmelt::lexer::lex;
use brainmelt::optimizer::optimize;
use brainmelt::parser::parse;

/// A reference interpreter over an unbounded tape of bytes; `false` when it runs out of steps.
struct Machine {
    tape: BTreeMap<i64, u8>,
    ptr: i64,
    input: VecDeque<u8>,
    output: Vec<u8>,
    steps: u64,
}

impl Machine {
    fn new(input: &[u8]) -> Self {
        Machine {
            tape: BTreeMap::new(),
            ptr: 0,
            input: input.iter().copied().collect(),
            output: Vec::new(),
            steps: 0,
        }
    }

    fn cell(&self) -> u8 {
        *self.tape.get(&self.ptr).unwrap_or(&0)
    }

    fn set(&mut self, at: i64, v: u8) {
        self.tape.insert(at, v);
    }

    fn run(&mut self, nodes: &[Node]) -> bool {
        for node in nodes {
            self.steps += 1;
            if self.steps > 10_000_000 {
                return false;
            }
            match node {
                Node::Add(d) => {
                    let v = (self.cell() as i64 + d).rem_euclid(256) as u8;
                    self.set(self.ptr, v);
                }
                Node::Move(d) => self.ptr += d,
                Node::Put => self.output.push(self.cell()),
                Node::Get => {
                    let v = self.input.pop_front().unwrap_or(0);
                    self.set(self.ptr, v);
                }
                Node::Clear => self.set(self.ptr, 0),
                Node::Transfer { offset, multiplier } => {
                    let v = self.cell() as i64;
                    self.set(self.ptr, 0);
                    let at = self.ptr + offset;
                    let old = *self.tape.get(&at).unwrap_or(&0) as i64;
                    self.set(at, (old + v * multiplier).rem_euclid(256) as u8);
                }
                Node::Loop(body) => {
                    while self.cell() != 0 {
                        if !self.run(body) {
                            return false;
                        }
                    }
                }
            }
        }
        true
    }
}

fn outcome(nodes: &[Node], input: &[u8]) -> Option<(Vec<u8>, i64, Vec<(i64, u8)>)> {
    let mut m = Machine::new(input);
    if m.run(nodes) {
        let cells = m.tape.into_iter().filter(|(_, v)| *v != 0).collect();
        Some((m.output, m.ptr, cells))
    } else {
        None
    }
}

fn assert_same_meaning(source: &str, input: &[u8]) {
    let plain = parse(&lex(source)).unwrap();
    let optimized = optimize(parse(&lex(source)).unwrap());
    let a = outcome(&plain, input);
    let b = outcome(&optimized, input);
    assert!(a.is_some(), "program did not stop: {source}");
    assert_eq!(a, b, "{source}");
}

#[test]
fn optimized_hello_world_prints_the_same() {
    let hello = "++++++++[>++++[>++>+++>+++>+<<<<-]>+>+>->>+[<]<-]>>.>---.+++++++..+++.>>.<-.<.+++.------.--------.>>+.>++.";
    assert_same_meaning(hello, b"");
    let plain = parse(&lex(hello)).unwrap();
    assert_eq!(outcome(&plain, b"").unwrap().0, b"Hello World!\n".to_vec());
}

#[test]
fn optimized_programs_keep_their_meaning() {
    let cases: [(&str, &[u8]); 8] = [
        (",[.,]", b"echo"),
        (",>,<[->+<]>.", &[7, 9]),
        (",[->+++<]>.", &[200]),
        (",[->-<]>.", &[5]),
        ("+++[>+++[>++<-]<-]>>.", b""),
        (",[[-]>+<],[.,]", b"xyz"),
        ("-[--->+<]>-.", b""),
        ("+>+<[->[->+<]<]>>.", b""),
    ];
    for (source, input) in cases {
        assert_same_meaning(source, input);
    }
}

fn unparse(nodes: &[Node], out: &mut String) {
    for node in nodes {
        match node {
            Node::Add(1) => out.push('+'),
            Node::Add(-1) => out.push('-'),
            Node::Move(1) => out.push('>'),
            Node::Move(-1) => out.push('<'),
            Node::Put => out.push('.'),
            Node::Get => out.push(','),
            Node::Loop(body) => {
                out.push('[');
                unparse(body, out);
                out.push(']');
            }
            other => panic!("not a parsed node: {other:?}"),
        }
    }
}

#[test]
fn parsed_tree_is_written_with_the_source_commands() {
    for source in ["+[-<]", "a[b[c]d]e", ",[.,]>>++<<--", "[[][[]]]"] {
        let mut back = String::new();
        unparse(&parse(&lex(source)).unwrap(), &mut back);
        let commands: String = source.chars().filter(|c| "+-<>.,[]".contains(*c)).collect();
        assert_eq!(back, commands);
    }
}

#[test]
fn cloned_nodes_are_equal() {
    let node = Node::Loop(vec![Node::Add(-1), Node::Loop(vec![Node::Put]), Node::Transfer {
        offset: 2,
        multiplier: 3,
    }]);
    assert_eq!(node.clone(), node);
}
