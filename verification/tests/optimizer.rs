use brainmelt::ast::Node;
use brainmelt::lexer::lex;
use brainmelt::optimizer::optimize;
use brainmelt::parser::parse;

fn opt(source: &str) -> Vec<Node> {
    let tokens = lex(source);
    let ast = parse(&tokens).unwrap();
    optimize(ast)
}

#[test]
fn aggregates_increments() {
    assert_eq!(opt("+++"), vec![Node::Add(3)]);
}

#[test]
fn aggregates_decrements() {
    assert_eq!(opt("---"), vec![Node::Add(-3)]);
}

#[test]
fn cancels_moves() {
    assert_eq!(opt("><"), vec![]);
}

#[test]
fn cancels_adds() {
    assert_eq!(opt("+-"), vec![]);
}

#[test]
fn optimizes_clear_loop() {
    assert_eq!(opt("[-]"), vec![Node::Clear]);
}

#[test]
fn optimizes_nested_clear_loop() {
    assert_eq!(opt("[[-]]"), vec![Node::Clear]);
}

#[test]
fn optimizes_transfer_right() {
    assert_eq!(opt("[->+<]"), vec![Node::Transfer { offset: 1, multiplier: 1 }]);
}

#[test]
fn optimizes_transfer_left() {
    assert_eq!(opt("[<+>-]"), vec![Node::Transfer { offset: -1, multiplier: 1 }]);
}

#[test]
fn optimizes_negative_transfer() {
    assert_eq!(opt("[->-<]"), vec![Node::Transfer { offset: 1, multiplier: -1 }]);
}

#[test]
fn optimizes_multiplied_transfer() {
    assert_eq!(opt("[->+++<]"), vec![Node::Transfer { offset: 1, multiplier: 3 }]);
}

#[test]
fn does_not_misoptimize_put_loop() {
    assert_eq!(opt("[.]"), vec![Node::Loop(vec![Node::Put])]);
}

#[test]
fn cancelled_transfer_becomes_clear() {
    assert_eq!(opt("[->+-<]"), vec![Node::Clear]);
}

#[test]
fn merges_across_cancelled_runs() {
    assert_eq!(opt("+><+"), vec![Node::Add(2)]);
}

#[test]
fn merges_after_loops_are_replaced() {
    assert_eq!(
        opt(">[-]>[-]<<+"),
        vec![Node::Move(1), Node::Clear, Node::Move(1), Node::Clear, Node::Move(-2), Node::Add(1)]
    );
}

#[test]
fn keeps_loops_with_two_targets() {
    assert_eq!(
        opt("[->+>+<<]"),
        vec![Node::Loop(vec![
            Node::Add(-1),
            Node::Move(1),
            Node::Add(1),
            Node::Move(1),
            Node::Add(1),
            Node::Move(-2),
        ])]
    );
}

#[test]
fn keeps_transfer_shaped_loops_that_do_not_return() {
    assert_eq!(
        opt("[->+<<]"),
        vec![Node::Loop(vec![Node::Add(-1), Node::Move(1), Node::Add(1), Node::Move(-2)])]
    );
}

#[test]
fn optimizing_twice_changes_nothing() {
    for source in ["+++[->++<]>.", "[[-]>[<+>-]]", ",[.,]", "+-<>[]", "[->+>+<<]"] {
        let once = opt(source);
        let twice = optimize(opt(source));
        assert_eq!(once, twice);
    }
}

#[test]
fn merges_hand_built_programs() {
    let program = vec![
        Node::Add(0),
        Node::Move(5),
        Node::Move(-2),
        Node::Add(200),
        Node::Add(100),
        Node::Transfer { offset: 2, multiplier: 0 },
    ];
    assert_eq!(
        optimize(program),
        vec![Node::Move(3), Node::Add(300), Node::Transfer { offset: 2, multiplier: 0 }]
    );
}

#[test]
fn transfer_keeps_a_multiplier_of_256() {
    let program = vec![Node::Loop(vec![
        Node::Move(4),
        Node::Add(256),
        Node::Move(-4),
        Node::Add(-1),
    ])];
    assert_eq!(optimize(program), vec![Node::Transfer { offset: 4, multiplier: 256 }]);
}

#[test]
fn transfer_body_with_zero_add_becomes_clear() {
    let program = vec![Node::Loop(vec![
        Node::Add(-1),
        Node::Move(4),
        Node::Add(0),
        Node::Move(-4),
    ])];
    assert_eq!(optimize(program), vec![Node::Clear]);
}
