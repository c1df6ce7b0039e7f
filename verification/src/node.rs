use crate::config::{Config, ConfigV};
use crate::error::{ErrV, Error};
use crate::token::{OperationType, TokV, Token};
use vstd::prelude::*;

verus! {

/// One node of an expression tree: a token and the operand subtrees it
/// owns.  Numbers and variables are leaves; a declaration owns one child,
/// binary operators and assignment own two, a function owns one subtree
/// per argument.
pub struct Node {
    pub children: Vec<Node>,
    pub token: Token,
}

/// The mathematical value of a [`Node`].
pub ghost struct NodeV {
    pub children: Seq<NodeV>,
    pub token: TokV,
}

/// The mathematical value of a [`Node`].
pub open spec fn node_view(n: Node) -> NodeV
    decreases n,
{
    NodeV { children: nodes_view(n.children@), token: n.token@ }
}

/// The mathematical values of a sequence of nodes.
pub open spec fn nodes_view(s: Seq<Node>) -> Seq<NodeV>
    decreases s,
{
    if s.len() == 0 {
        Seq::empty()
    } else {
        seq![node_view(s[0])] + nodes_view(s.drop_first())
    }
}

impl View for Node {
    type V = NodeV;

    open spec fn view(&self) -> NodeV {
        node_view(*self)
    }
}

/// A node list's value has one entry per node, in order.
pub proof fn lemma_nodes_view(s: Seq<Node>)
    ensures
        nodes_view(s).len() == s.len(),
        forall|i: int| 0 <= i < s.len() ==> nodes_view(s)[i] == node_view(s[i]),
    decreases s,
{
    if s.len() > 0 {
        lemma_nodes_view(s.drop_first());
        assert(forall|i: int|
            1 <= i < s.len() ==> #[trigger] nodes_view(s)[i] == nodes_view(s.drop_first())[i - 1]);
        assert(forall|i: int|
            1 <= i < s.len() ==> #[trigger] s[i] == s.drop_first()[i - 1]);
    }
}

impl Node {
    /// A leaf node.
    pub fn new(token: Token) -> (r: Node)
        ensures
            r@ == (NodeV { children: Seq::empty(), token: token@ }),
    {
        let r = Node { children: Vec::new(), token };
        proof {
            assert(r.children@ =~= Seq::<Node>::empty());
        }
        r
    }

    /// A node over already-built operand subtrees.
    pub fn new_with(children: Vec<Node>, token: Token) -> (r: Node)
        ensures
            r@ == (NodeV { children: nodes_view(children@), token: token@ }),
    {
        Node { children, token }
    }
}

/// The tree builder from postfix token `i` on, with `stack` holding the
/// operand subtrees built so far.  Numbers and variables push a leaf; a
/// function attaches as many subtrees as its configured arity, in stack
/// order; a declaration attaches one subtree and every other operation
/// two, the subtree pushed first becoming the left operand.  An operation
/// short of operands is a missing operand, a function short of operands
/// is an arity mismatch, and the statement is malformed unless exactly
/// one tree remains at the end.
pub open spec fn build_loop(toks: Seq<TokV>, cfg: ConfigV, i: int, stack: Seq<NodeV>) -> Result<
    NodeV,
    ErrV,
>
    decreases toks.len() - i,
{
    if i < 0 || i >= toks.len() {
        if stack.len() == 1 {
            Ok(stack[0])
        } else if stack.len() == 0 {
            Err(ErrV::EmptyExpression)
        } else {
            Err(ErrV::DanglingOperands)
        }
    } else {
        match toks[i] {
            TokV::Number(_) => build_loop(
                toks,
                cfg,
                i + 1,
                stack.push(NodeV { children: Seq::empty(), token: toks[i] }),
            ),
            TokV::Variable(_) => build_loop(
                toks,
                cfg,
                i + 1,
                stack.push(NodeV { children: Seq::empty(), token: toks[i] }),
            ),
            TokV::Function(f) => match cfg.arity_of(f) {
                Some(k) => if stack.len() < k {
                    Err(ErrV::ArityMismatch)
                } else {
                    let kids = Seq::new(k as nat, |x: int| stack[stack.len() - 1 - x]);
                    build_loop(
                        toks,
                        cfg,
                        i + 1,
                        stack.subrange(0, stack.len() - k).push(
                            NodeV { children: kids, token: toks[i] },
                        ),
                    )
                },
                None => Err(ErrV::InvalidToken(f)),
            },
            TokV::Operation(op) => {
                if op == OperationType::Create {
                    if stack.len() < 1 {
                        Err(ErrV::MissingOperand)
                    } else {
                        build_loop(
                            toks,
                            cfg,
                            i + 1,
                            stack.drop_last().push(
                                NodeV { children: seq![stack.last()], token: toks[i] },
                            ),
                        )
                    }
                } else {
                    if stack.len() < 2 {
                        Err(ErrV::MissingOperand)
                    } else {
                        let a = stack.last();
                        let b = stack[stack.len() - 2];
                        build_loop(
                            toks,
                            cfg,
                            i + 1,
                            stack.subrange(0, stack.len() - 2).push(
                                NodeV { children: seq![b, a], token: toks[i] },
                            ),
                        )
                    }
                }
            },
        }
    }
}

/// The tree a postfix token stream builds.
pub open spec fn build(toks: Seq<TokV>, cfg: ConfigV) -> Result<NodeV, ErrV> {
    build_loop(toks, cfg, 0, Seq::empty())
}

/// Builds one expression tree from a postfix token stream, exactly as
/// [`build`] says.
pub fn make_tree(input: &Vec<Token>, config: &Config) -> (r: Result<Node, Error>)
    ensures
        r matches Ok(n) ==> build(input.deep_view(), config@) == Ok::<NodeV, ErrV>(n@),
        r matches Err(e) ==> build(input.deep_view(), config@) == Err::<NodeV, ErrV>(e@),
{
    let ghost toks = input.deep_view();
    let ghost cfg = config@;
    let n = input.len();
    let mut stack: Vec<Node> = Vec::new();
    let mut i: usize = 0;
    proof {
        assert(nodes_view(stack@) =~= Seq::<NodeV>::empty());
    }
    while i < n
        invariant
            n == toks.len(),
            i <= n,
            toks == input.deep_view(),
            cfg == config@,
            build(toks, cfg) == build_loop(toks, cfg, i as int, nodes_view(stack@)),
        decreases n - i,
    {
        let ghost stv = nodes_view(stack@);
        proof {
            lemma_nodes_view(stack@);
        }
        let tok = &input[i];
        proof {
            assert(toks[i as int] == tok@);
        }
        match tok {
            Token::Number(_) => {
                let ghost old_stack = stack@;
                stack.push(Node::new(tok.clone()));
                proof {
                    lemma_nodes_view(stack@);
                    assert(stack@.drop_last() =~= old_stack);
                    assert(nodes_view(stack@) =~= stv.push(
                        NodeV { children: Seq::empty(), token: toks[i as int] },
                    )) by {
                        lemma_nodes_view(old_stack);
                        assert(forall|j: int|
                            0 <= j < old_stack.len() ==> #[trigger] stack@[j] == old_stack[j]);
                    }
                }
            },
            Token::Variable(_) => {
                let ghost old_stack = stack@;
                stack.push(Node::new(tok.clone()));
                proof {
                    lemma_nodes_view(stack@);
                    assert(nodes_view(stack@) =~= stv.push(
                        NodeV { children: Seq::empty(), token: toks[i as int] },
                    )) by {
                        lemma_nodes_view(old_stack);
                        assert(forall|j: int|
                            0 <= j < old_stack.len() ==> #[trigger] stack@[j] == old_stack[j]);
                    }
                }
            },
            Token::Function(f) => {
                match config.arity(f) {
                    Some(k) => {
                        if stack.len() < k {
                            return Err(Error::ArityMismatch);
                        }
                        let ghost len0 = stack@.len() as int;
                        let ghost stack0 = stack@;
                        let mut children: Vec<Node> = Vec::new();
                        let mut x: usize = 0;
                        while x < k
                            invariant
                                x <= k,
                                k <= len0,
                                stack0.len() == len0,
                                stack@.len() == len0 - x,
                                stack@ =~= stack0.subrange(0, len0 - x),
                                children@.len() == x,
                                forall|y: int|
                                    0 <= y < x ==> #[trigger] children@[y] == stack0[len0 - 1 - y],
                            decreases k - x,
                        {
                            let nd = stack.pop().unwrap();
                            children.push(nd);
                            proof {
                                assert(stack@ =~= stack0.subrange(0, len0 - x - 1));
                            }
                            x += 1;
                        }
                        let ghost kids = Seq::new(k as nat, |y: int| stv[stv.len() - 1 - y]);
                        let ghost chv = children@;
                        let node = Node::new_with(children, tok.clone());
                        proof {
                            lemma_nodes_view(chv);
                            lemma_nodes_view(stack0);
                            assert(nodes_view(chv) =~= kids);
                            assert(node@ == (NodeV { children: kids, token: toks[i as int] }));
                        }
                        let ghost mid_stack = stack@;
                        stack.push(node);
                        proof {
                            lemma_nodes_view(stack@);
                            lemma_nodes_view(mid_stack);
                            assert(forall|j: int|
                                0 <= j < mid_stack.len() ==> #[trigger] stack@[j] == mid_stack[j]);
                            assert(nodes_view(mid_stack) =~= stv.subrange(0, stv.len() - k));
                            assert(nodes_view(stack@) =~= stv.subrange(0, stv.len() - k).push(
                                NodeV { children: kids, token: toks[i as int] },
                            ));
                        }
                    },
                    None => {
                        return Err(Error::InvalidToken(f.clone()));
                    },
                }
            },
            Token::Operation(op) => {
                if *op == OperationType::Create {
                    if stack.len() < 1 {
                        return Err(Error::MissingOperand);
                    }
                    let ghost stack0 = stack@;
                    let a = stack.pop().unwrap();
                    let ghost mid_stack = stack@;
                    let mut children: Vec<Node> = Vec::new();
                    children.push(a);
                    let ghost chv = children@;
                    let node = Node::new_with(children, tok.clone());
                    proof {
                        lemma_nodes_view(chv);
                        lemma_nodes_view(mid_stack);
                        lemma_nodes_view(stack0);
                        assert(nodes_view(chv) =~= seq![stv.last()]);
                        assert(node@ == (NodeV { children: seq![stv.last()], token: toks[i as int] }));
                        assert(nodes_view(mid_stack) =~= stv.drop_last());
                    }
                    stack.push(node);
                    proof {
                        lemma_nodes_view(stack@);
                        assert(forall|j: int|
                            0 <= j < mid_stack.len() ==> #[trigger] stack@[j] == mid_stack[j]);
                        assert(nodes_view(stack@) =~= stv.drop_last().push(
                            NodeV { children: seq![stv.last()], token: toks[i as int] },
                        ));
                    }
                } else {
                    if stack.len() < 2 {
                        return Err(Error::MissingOperand);
                    }
                    let ghost stack0 = stack@;
                    let a = stack.pop().unwrap();
                    let b = stack.pop().unwrap();
                    let ghost mid_stack = stack@;
                    let mut children: Vec<Node> = Vec::new();
                    children.push(b);
                    children.push(a);
                    let ghost chv = children@;
                    let node = Node::new_with(children, tok.clone());
                    proof {
                        lemma_nodes_view(chv);
                        lemma_nodes_view(mid_stack);
                        lemma_nodes_view(stack0);
                        assert(nodes_view(chv) =~= seq![stv[stv.len() - 2], stv.last()]);
                        assert(node@ == (NodeV {
                            children: seq![stv[stv.len() - 2], stv.last()],
                            token: toks[i as int],
                        }));
                        assert(nodes_view(mid_stack) =~= stv.subrange(0, stv.len() - 2));
                    }
                    stack.push(node);
                    proof {
                        lemma_nodes_view(stack@);
                        assert(forall|j: int|
                            0 <= j < mid_stack.len() ==> #[trigger] stack@[j] == mid_stack[j]);
                        assert(nodes_view(stack@) =~= stv.subrange(0, stv.len() - 2).push(
                            NodeV {
                                children: seq![stv[stv.len() - 2], stv.last()],
                                token: toks[i as int],
                            },
                        ));
                    }
                }
            },
        }
        i += 1;
    }
    proof {
        lemma_nodes_view(stack@);
    }
    if stack.len() == 1 {
        let r = stack.pop().unwrap();
        proof {
            assert(nodes_view(stack@.push(r))[0] == node_view(r)) by {
                lemma_nodes_view(stack@.push(r));
            }
        }
        Ok(r)
    } else if stack.len() == 0 {
        Err(Error::EmptyExpression)
    } else {
        Err(Error::DanglingOperands)
    }
}

/// The data-model invariant of built trees: every node's child count is
/// exactly what its token demands — none for a number or a variable, one
/// for a declaration, two for any other operation, the configured arity
/// for a function.
pub open spec fn wf_tree(n: NodeV, cfg: ConfigV) -> bool
    decreases n,
{
    let kids_ok = match n.token {
        TokV::Number(_) => n.children.len() == 0,
        TokV::Variable(_) => n.children.len() == 0,
        TokV::Function(f) => cfg.arity_of(f) == Some(n.children.len() as usize),
        TokV::Operation(op) => if op == OperationType::Create {
            n.children.len() == 1
        } else {
            n.children.len() == 2
        },
    };
    kids_ok && wf_trees(n.children, cfg)
}

/// The invariant over a list of trees.
pub open spec fn wf_trees(s: Seq<NodeV>, cfg: ConfigV) -> bool
    decreases s,
{
    forall|i: int| 0 <= i < s.len() ==> wf_tree(#[trigger] s[i], cfg)
}

/// TESTABLE INVARIANT: whatever tree the builder accepts satisfies the
/// child-count invariant; a violation is a build-time error, never a
/// runtime failure of the evaluator.
pub proof fn theorem_built_trees_wf(toks: Seq<TokV>, cfg: ConfigV, n: NodeV)
    requires
        build(toks, cfg) == Ok::<NodeV, ErrV>(n),
    ensures
        wf_tree(n, cfg),
{
    lemma_build_loop_wf(toks, cfg, 0, Seq::empty(), n);
}

proof fn lemma_build_loop_wf(toks: Seq<TokV>, cfg: ConfigV, i: int, stack: Seq<NodeV>, n: NodeV)
    requires
        wf_trees(stack, cfg),
        build_loop(toks, cfg, i, stack) == Ok::<NodeV, ErrV>(n),
    ensures
        wf_tree(n, cfg),
    decreases toks.len() - i,
{
    if i < 0 || i >= toks.len() {
        assert(stack.len() == 1);
        assert(n == stack[0]);
    } else {
        match toks[i] {
            TokV::Number(_) => {
                let leaf = NodeV { children: Seq::empty(), token: toks[i] };
                assert(wf_tree(leaf, cfg));
                lemma_wf_push(stack, leaf, cfg);
                lemma_build_loop_wf(toks, cfg, i + 1, stack.push(leaf), n);
            },
            TokV::Variable(_) => {
                let leaf = NodeV { children: Seq::empty(), token: toks[i] };
                assert(wf_tree(leaf, cfg));
                lemma_wf_push(stack, leaf, cfg);
                lemma_build_loop_wf(toks, cfg, i + 1, stack.push(leaf), n);
            },
            TokV::Function(f) => {
                let k = cfg.arity_of(f)->0;
                let kids = Seq::new(k as nat, |x: int| stack[stack.len() - 1 - x]);
                let node = NodeV { children: kids, token: toks[i] };
                let rest = stack.subrange(0, stack.len() - k);
                assert(wf_trees(kids, cfg));
                assert(wf_tree(node, cfg));
                assert(wf_trees(rest, cfg));
                lemma_wf_push(rest, node, cfg);
                lemma_build_loop_wf(toks, cfg, i + 1, rest.push(node), n);
            },
            TokV::Operation(op) => {
                if op == OperationType::Create {
                    let node = NodeV { children: seq![stack.last()], token: toks[i] };
                    assert(wf_trees(node.children, cfg)) by {
                        assert(node.children[0] == stack.last());
                    }
                    assert(wf_tree(node, cfg));
                    let rest = stack.drop_last();
                    assert(wf_trees(rest, cfg));
                    lemma_wf_push(rest, node, cfg);
                    lemma_build_loop_wf(toks, cfg, i + 1, rest.push(node), n);
                } else {
                    let a = stack.last();
                    let b = stack[stack.len() - 2];
                    let node = NodeV { children: seq![b, a], token: toks[i] };
                    assert(wf_trees(node.children, cfg)) by {
                        assert(node.children[0] == b);
                        assert(node.children[1] == a);
                    }
                    assert(wf_tree(node, cfg));
                    let rest = stack.subrange(0, stack.len() - 2);
                    assert(wf_trees(rest, cfg));
                    lemma_wf_push(rest, node, cfg);
                    lemma_build_loop_wf(toks, cfg, i + 1, rest.push(node), n);
                }
            },
        }
    }
}

proof fn lemma_wf_push(stack: Seq<NodeV>, n: NodeV, cfg: ConfigV)
    requires
        wf_trees(stack, cfg),
        wf_tree(n, cfg),
    ensures
        wf_trees(stack.push(n), cfg),
{
    assert(forall|i: int|
        0 <= i < stack.len() ==> #[trigger] stack.push(n)[i] == stack[i]);
    assert(stack.push(n)[stack.len() as int] == n);
}

} // verus!
