use vstd::prelude::*;

verus! {

/// A node of the program tree that the compiler works on.
#[derive(Debug, PartialEq, Eq)]
pub enum Node {
    Add(i64),
    Move(i64),
    Put,
    Get,
    Loop(Vec<Node>),
    Clear,
    Transfer { offset: i64, multiplier: i64 },
}

/// The mathematical model of a `Node`: the same tree with sequences in place of vectors.
pub enum Cmd {
    Add(int),
    Move(int),
    Put,
    Get,
    Loop(Seq<Cmd>),
    Clear,
    Transfer { offset: int, multiplier: int },
}

/// The model of one node.
pub open spec fn node_model(n: Node) -> Cmd
    decreases n,
{
    match n {
        Node::Add(d) => Cmd::Add(d as int),
        Node::Move(d) => Cmd::Move(d as int),
        Node::Put => Cmd::Put,
        Node::Get => Cmd::Get,
        Node::Loop(body) => Cmd::Loop(nodes_model(body@)),
        Node::Clear => Cmd::Clear,
        Node::Transfer { offset, multiplier } => Cmd::Transfer {
            offset: offset as int,
            multiplier: multiplier as int,
        },
    }
}

/// The model of a sequence of nodes, element by element.
pub open spec fn nodes_model(s: Seq<Node>) -> Seq<Cmd>
    decreases s,
{
    if s.len() == 0 {
        Seq::empty()
    } else {
        nodes_model(s.drop_last()).push(node_model(s.last()))
    }
}

/// The model of a sequence has one element for each node, the model of that node.
pub proof fn lemma_nodes_model(s: Seq<Node>)
    ensures
        nodes_model(s).len() == s.len(),
        forall|i: int| 0 <= i < s.len() ==> #[trigger] nodes_model(s)[i] == node_model(s[i]),
    decreases s.len(),
{
    if s.len() > 0 {
        lemma_nodes_model(s.drop_last());
        assert forall|i: int| 0 <= i < s.len() implies #[trigger] nodes_model(s)[i] == node_model(s[i]) by {
            if i < s.len() - 1 {
                assert(s.drop_last()[i] == s[i]);
            }
        }
    }
}

/// Models of sequences that agree node by node are equal; in particular the model of a prefix
/// is the prefix of the model.
pub proof fn lemma_nodes_model_take(s: Seq<Node>, i: int)
    requires
        0 <= i <= s.len(),
    ensures
        nodes_model(s.take(i)) == nodes_model(s).take(i),
{
    lemma_nodes_model(s);
    lemma_nodes_model(s.take(i));
    assert(nodes_model(s.take(i)) =~= nodes_model(s).take(i));
}

/// The model of a sequence with one more node at the end.
pub proof fn lemma_nodes_model_push(s: Seq<Node>, n: Node)
    ensures
        nodes_model(s.push(n)) == nodes_model(s).push(node_model(n)),
{
    assert(s.push(n).drop_last() =~= s);
}

impl Clone for Node {
    /// A copy of the node, with the same model.
    fn clone(&self) -> (res: Self)
        ensures
            node_model(res) == node_model(*self),
        decreases node_model(*self),
    {
        match self {
            Node::Add(d) => Node::Add(*d),
            Node::Move(d) => Node::Move(*d),
            Node::Put => Node::Put,
            Node::Get => Node::Get,
            Node::Clear => Node::Clear,
            Node::Transfer { offset, multiplier } => Node::Transfer {
                offset: *offset,
                multiplier: *multiplier,
            },
            Node::Loop(body) => {
                let ghost m = nodes_model(body@);
                proof {
                    lemma_nodes_model(body@);
                }
                let mut copy: Vec<Node> = Vec::new();
                let mut i: usize = 0;
                while i < body.len()
                    invariant
                        i <= body.len(),
                        m == nodes_model(body@),
                        m.len() == body@.len(),
                        forall|j: int| 0 <= j < body@.len() ==> #[trigger] m[j] == node_model(body@[j]),
                        nodes_model(copy@) == m.take(i as int),
                        node_model(*self) == Cmd::Loop(m),
                    decreases body.len() - i,
                {
                    proof {
                        assert(decreases_to!(node_model(*self) => node_model(*self)->Loop_0));
                        assert(decreases_to!(m => m[i as int]));
                    }
                    let item = body[i].clone();
                    let ghost before = copy@;
                    copy.push(item);
                    proof {
                        lemma_nodes_model_push(before, item);
                        assert(m.take(i + 1) =~= m.take(i as int).push(m[i as int]));
                    }
                    i += 1;
                }
                proof {
                    assert(m.take(body.len() as int) =~= m);
                }
                Node::Loop(copy)
            },
        }
    }
}

} // verus!
