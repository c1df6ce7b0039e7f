use crate::error::{ErrV, Error};
use crate::node::{lemma_nodes_view, node_view, nodes_view, Node, NodeV};
use crate::scalar::Scalar;
use crate::state::State;
use crate::token::{Numeric, NumericV, OperationType, TokV, Token};
use vstd::prelude::*;

verus! {

/// One micro-instruction of a flattened statement: the statement's tree
/// in evaluation order, one item per node, plus a statement-end marker.
#[derive(Debug)]
pub enum Item {
    /// Push the value of a numeric literal; the host reads the text.
    PushLiteral(String),
    /// Push an already-resolved scalar.
    PushValue(Scalar),
    /// Push the value bound to a variable.
    ReadVar(String),
    /// Pop two operands and hand an arithmetic application to the host.
    ApplyOp(OperationType),
    /// Pop as many operands as the arity and hand a call to the host.
    CallFun(String, usize),
    /// Pop one operand and bind it to a variable.
    Store(String),
    /// Bind the zero scalar to a variable not yet bound.
    Declare(String),
    /// Fail: an assignment or declaration whose target is no variable.
    BadTarget,
    /// A statement is complete: a produced value ends the run.
    EndStmt,
}

/// The mathematical value of an [`Item`].
pub ghost enum ItemV {
    PushLiteral(Seq<char>),
    PushValue(Scalar),
    ReadVar(Seq<char>),
    ApplyOp(OperationType),
    CallFun(Seq<char>, nat),
    Store(Seq<char>),
    Declare(Seq<char>),
    BadTarget,
    EndStmt,
}

impl View for Item {
    type V = ItemV;

    open spec fn view(&self) -> ItemV {
        match self {
            Item::PushLiteral(t) => ItemV::PushLiteral(t@),
            Item::PushValue(v) => ItemV::PushValue(*v),
            Item::ReadVar(x) => ItemV::ReadVar(x@),
            Item::ApplyOp(op) => ItemV::ApplyOp(*op),
            Item::CallFun(f, k) => ItemV::CallFun(f@, *k as nat),
            Item::Store(x) => ItemV::Store(x@),
            Item::Declare(x) => ItemV::Declare(x@),
            Item::BadTarget => ItemV::BadTarget,
            Item::EndStmt => ItemV::EndStmt,
        }
    }
}

impl DeepView for Item {
    type V = ItemV;

    open spec fn deep_view(&self) -> ItemV {
        self@
    }
}

/// The recursion depth evaluating a tree takes: one for the node itself,
/// plus the deepest operand subtree the evaluator enters.  Subtrees the
/// evaluator never enters — below a leaf token, a declaration, or a
/// malformed target — do not count.
pub open spec fn depth_of(n: NodeV) -> int
    decreases n,
{
    match n.token {
        TokV::Number(_) => 1,
        TokV::Variable(_) => 1,
        TokV::Function(_) => 1 + depths_max(n.children),
        TokV::Operation(op) => {
            if op == OperationType::Assign {
                if n.children.len() == 2 && n.children[0].token is Variable {
                    1 + depth_of(n.children[1])
                } else {
                    1
                }
            } else if op == OperationType::Create {
                1
            } else {
                1 + depths_max(n.children)
            }
        },
    }
}

/// The greatest evaluation depth among a list of trees, zero for none.
pub open spec fn depths_max(s: Seq<NodeV>) -> int
    decreases s,
{
    if s.len() == 0 {
        0
    } else {
        let h = depth_of(s[0]);
        let m = depths_max(s.drop_first());
        if h >= m {
            h
        } else {
            m
        }
    }
}

/// The greatest depth of a list of trees is never negative.
pub proof fn lemma_depths_nonneg(s: Seq<NodeV>)
    ensures
        depths_max(s) >= 0,
    decreases s,
{
    if s.len() > 0 {
        lemma_depths_nonneg(s.drop_first());
    }
}

/// Evaluating any tree takes at least one level of recursion.
pub proof fn lemma_depth_pos(n: NodeV)
    ensures
        depth_of(n) >= 1,
    decreases n,
{
    match n.token {
        TokV::Function(_) => {
            lemma_depths_nonneg(n.children);
        },
        TokV::Operation(op) => {
            if op == OperationType::Assign && n.children.len() == 2 && n.children[0].token
                is Variable {
                lemma_depth_pos(n.children[1]);
            } else if !(op == OperationType::Assign) && !(op == OperationType::Create) {
                lemma_depths_nonneg(n.children);
            }
        },
        _ => {},
    }
}

/// Every tree of a list is at most as deep as the list's greatest depth,
/// which some tree of a nonempty list reaches.
pub proof fn lemma_depths_max(s: Seq<NodeV>)
    ensures
        depths_max(s) >= 0,
        forall|i: int| 0 <= i < s.len() ==> depth_of(s[i]) <= depths_max(s),
        s.len() > 0 ==> exists|i: int| 0 <= i < s.len() && depth_of(s[i]) == depths_max(s),
    decreases s,
{
    if s.len() > 0 {
        lemma_depths_max(s.drop_first());
        lemma_depth_pos(s[0]);
        assert(forall|i: int|
            1 <= i < s.len() ==> #[trigger] s[i] == s.drop_first()[i - 1]);
        if s.len() > 1 && depths_max(s) != depth_of(s[0]) {
            let j = choose|j: int|
                0 <= j < s.drop_first().len() && depth_of(s.drop_first()[j]) == depths_max(
                    s.drop_first(),
                );
            assert(s[j + 1] == s.drop_first()[j]);
        }
    }
}

/// The evaluation-order item sequence of one tree: operand subtrees in
/// order, then the node's own item.  A number, variable read, arithmetic
/// operation or function call works through the operand stack; an
/// assignment stores the value of its right subtree and a declaration
/// touches no operand at all, both failing up front when their first
/// child is no variable.
pub open spec fn items_of(n: NodeV) -> Seq<ItemV>
    decreases n,
{
    match n.token {
        TokV::Number(num) => match num {
            NumericV::Literal(t) => seq![ItemV::PushLiteral(t)],
            NumericV::Value(v) => seq![ItemV::PushValue(v)],
        },
        TokV::Variable(x) => seq![ItemV::ReadVar(x)],
        TokV::Function(f) => items_of_list(n.children) + seq![
            ItemV::CallFun(f, n.children.len()),
        ],
        TokV::Operation(op) => {
            if op == OperationType::Assign {
                if n.children.len() == 2 {
                    match n.children[0].token {
                        TokV::Variable(x) => items_of(n.children[1]) + seq![ItemV::Store(x)],
                        _ => seq![ItemV::BadTarget],
                    }
                } else {
                    seq![ItemV::BadTarget]
                }
            } else if op == OperationType::Create {
                if n.children.len() == 1 {
                    match n.children[0].token {
                        TokV::Variable(x) => seq![ItemV::Declare(x)],
                        _ => seq![ItemV::BadTarget],
                    }
                } else {
                    seq![ItemV::BadTarget]
                }
            } else {
                items_of_list(n.children) + seq![ItemV::ApplyOp(op)]
            }
        },
    }
}

/// The concatenated items of a list of trees.
pub open spec fn items_of_list(s: Seq<NodeV>) -> Seq<ItemV>
    decreases s,
{
    if s.len() == 0 {
        Seq::empty()
    } else {
        items_of(s[0]) + items_of_list(s.drop_first())
    }
}

proof fn lemma_items_of_list_app(a: Seq<NodeV>, b: Seq<NodeV>)
    ensures
        items_of_list(a + b) == items_of_list(a) + items_of_list(b),
    decreases a,
{
    if a.len() == 0 {
        assert(a + b =~= b);
        assert(items_of_list(a) + items_of_list(b) =~= items_of_list(b));
    } else {
        assert((a + b).drop_first() =~= a.drop_first() + b);
        assert((a + b)[0] == a[0]);
        lemma_items_of_list_app(a.drop_first(), b);
        assert(items_of(a[0]) + (items_of_list(a.drop_first()) + items_of_list(b)) =~= (items_of(
            a[0],
        ) + items_of_list(a.drop_first())) + items_of_list(b));
    }
}

/// The items of one statement: its tree, then the end-of-statement mark.
pub open spec fn stmt_items(n: NodeV) -> Seq<ItemV> {
    items_of(n) + seq![ItemV::EndStmt]
}

/// The items of a whole block, one statement after the other.
pub open spec fn block_items(s: Seq<NodeV>) -> Seq<ItemV>
    decreases s,
{
    if s.len() == 0 {
        Seq::empty()
    } else {
        stmt_items(s[0]) + block_items(s.drop_first())
    }
}

proof fn lemma_block_items_app(a: Seq<NodeV>, b: Seq<NodeV>)
    ensures
        block_items(a + b) == block_items(a) + block_items(b),
    decreases a,
{
    if a.len() == 0 {
        assert(a + b =~= b);
        assert(block_items(a) + block_items(b) =~= block_items(b));
    } else {
        assert((a + b).drop_first() =~= a.drop_first() + b);
        assert((a + b)[0] == a[0]);
        lemma_block_items_app(a.drop_first(), b);
        assert(stmt_items(a[0]) + (block_items(a.drop_first()) + block_items(b)) =~= (stmt_items(
            a[0],
        ) + block_items(a.drop_first())) + block_items(b));
    }
}

/// The deepest tree the evaluator accepts; anything taller fails with
/// `TooDeep` when the evaluator is built.
pub const DEPTH_LIMIT: u32 = 1024;

/// Appends the items of one tree, refusing a tree taller than `fuel`.
#[verifier::rlimit(100)]
fn flatten_into(node: &Node, fuel: u32, out: &mut Vec<Item>) -> (r: Result<(), Error>)
    ensures
        r matches Ok(()) ==> depth_of(node@) <= fuel && final(out).deep_view() == old(
            out,
        ).deep_view() + items_of(node@),
        r matches Err(e) ==> e@ == ErrV::TooDeep && depth_of(node@) > fuel,
    decreases fuel,
{
    let ghost out0 = out.deep_view();
    let ghost nv = node@;
    proof {
        lemma_nodes_view(node.children@);
        lemma_depths_max(nv.children);
        lemma_depth_pos(nv);
    }
    if fuel == 0 {
        return Err(Error::TooDeep);
    }
    match &node.token {
        Token::Number(num) => {
            match num {
                Numeric::Literal(t) => {
                    out.push(Item::PushLiteral(t.clone()));
                },
                Numeric::Value(v) => {
                    out.push(Item::PushValue(*v));
                },
            }
            proof {
                assert(out.deep_view() =~= out0 + items_of(nv));
            }
            Ok(())
        },
        Token::Variable(x) => {
            out.push(Item::ReadVar(x.clone()));
            proof {
                assert(out.deep_view() =~= out0 + items_of(nv));
            }
            Ok(())
        },
        Token::Function(f) => {
            let k = node.children.len();
            let mut x: usize = 0;
            while x < k
                invariant
                    x <= k,
                    k == node.children.len(),
                    nv == node@,
                    fuel >= 1,
                    out.deep_view() == out0 + items_of_list(nv.children.subrange(0, x as int)),
                    forall|y: int| 0 <= y < x ==> depth_of(nv.children[y]) <= fuel - 1,
                decreases k - x,
            {
                let ghost pre = out.deep_view();
                proof {
                    lemma_nodes_view(node.children@);
                    assert(nv.children[x as int] == node.children@[x as int]@);
                }
                match flatten_into(&node.children[x], fuel - 1, out) {
                    Ok(()) => {},
                    Err(e) => {
                        proof {
                            assert(depth_of(nv.children[x as int]) > fuel - 1);
                            lemma_depths_max(nv.children);
                        }
                        return Err(e);
                    },
                }
                proof {
                    reveal_with_fuel(items_of_list, 3);
                    lemma_items_of_list_app(
                        nv.children.subrange(0, x as int),
                        seq![nv.children[x as int]],
                    );
                    assert(nv.children.subrange(0, x as int) + seq![nv.children[x as int]]
                        =~= nv.children.subrange(0, x + 1));
                    assert(seq![nv.children[x as int]].drop_first()
                        =~= Seq::<NodeV>::empty());
                    assert(items_of_list(seq![nv.children[x as int]]) =~= items_of(
                        nv.children[x as int],
                    ) + Seq::<ItemV>::empty());
                    assert(out.deep_view() =~= out0 + items_of_list(
                        nv.children.subrange(0, x + 1),
                    ));
                }
                x += 1;
            }
            let ghost mid = out.deep_view();
            out.push(Item::CallFun(f.clone(), k));
            proof {
                assert(nv.children.subrange(0, k as int) =~= nv.children);
                lemma_depths_max(nv.children);
                assert(out.deep_view() =~= mid.push(ItemV::CallFun(f@, k as nat)));
                assert(out.deep_view() =~= out0 + items_of(nv));
            }
            Ok(())
        },
        Token::Operation(op) => {
            if *op == OperationType::Assign {
                let target_ok = node.children.len() == 2 && matches!(
                    &node.children[0].token,
                    Token::Variable(_),
                );
                if target_ok {
                    proof {
                        assert(nv.children[1] == node.children@[1]@);
                        assert(nv.children[0] == node.children@[0]@);
                    }
                    match flatten_into(&node.children[1], fuel - 1, out) {
                        Ok(()) => {},
                        Err(e) => {
                            proof {
                                assert(depth_of(nv.children[1]) > fuel - 1);
                            }
                            return Err(e);
                        },
                    }
                    match &node.children[0].token {
                        Token::Variable(name) => {
                            let ghost mid = out.deep_view();
                            out.push(Item::Store(name.clone()));
                            proof {
                                assert(out.deep_view() =~= mid.push(ItemV::Store(name@)));
                                reveal_with_fuel(node_view, 2);
                                reveal_with_fuel(items_of, 2);
                                assert(nv.children[0] == node_view(node.children@[0]));
                                assert(nv.children[0].token == TokV::Variable(name@));
                                assert(nv.children == nodes_view(node.children@));
                                assert(nv.children.len() == 2);
                                assert(nv.token == TokV::Operation(OperationType::Assign));
                                assert(items_of(nv) == items_of(nv.children[1]) + seq![
                                    ItemV::Store(name@),
                                ]);
                                assert(out.deep_view() =~= out0 + items_of(nv));
                            }
                            Ok(())
                        },
                        _ => {
                            // the target was checked to be a variable
                            proof {
                                assert(false);
                            }
                            Err(Error::InvalidAssignmentTarget)
                        },
                    }
                } else {
                    out.push(Item::BadTarget);
                    proof {
                        assert(out.deep_view() =~= out0 + items_of(nv));
                    }
                    Ok(())
                }
            } else if *op == OperationType::Create {
                let target_ok = node.children.len() == 1 && matches!(
                    &node.children[0].token,
                    Token::Variable(_),
                );
                if target_ok {
                    match &node.children[0].token {
                        Token::Variable(name) => {
                            out.push(Item::Declare(name.clone()));
                            proof {
                                assert(out.deep_view() =~= out0 + items_of(nv));
                            }
                            Ok(())
                        },
                        _ => {
                            // the target was checked to be a variable
                            proof {
                                assert(false);
                            }
                            Err(Error::InvalidAssignmentTarget)
                        },
                    }
                } else {
                    out.push(Item::BadTarget);
                    proof {
                        assert(out.deep_view() =~= out0 + items_of(nv));
                    }
                    Ok(())
                }
            } else {
                let k = node.children.len();
                let mut x: usize = 0;
                while x < k
                    invariant
                        x <= k,
                        k == node.children.len(),
                        nv == node@,
                        fuel >= 1,
                        out.deep_view() == out0 + items_of_list(nv.children.subrange(0, x as int)),
                        forall|y: int| 0 <= y < x ==> depth_of(nv.children[y]) <= fuel - 1,
                    decreases k - x,
                {
                    let ghost pre = out.deep_view();
                    proof {
                        lemma_nodes_view(node.children@);
                        assert(nv.children[x as int] == node.children@[x as int]@);
                    }
                    match flatten_into(&node.children[x], fuel - 1, out) {
                        Ok(()) => {},
                        Err(e) => {
                            proof {
                                assert(depth_of(nv.children[x as int]) > fuel - 1);
                                lemma_depths_max(nv.children);
                            }
                            return Err(e);
                        },
                    }
                    proof {
                        reveal_with_fuel(items_of_list, 3);
                        lemma_items_of_list_app(
                            nv.children.subrange(0, x as int),
                            seq![nv.children[x as int]],
                        );
                        assert(nv.children.subrange(0, x as int) + seq![nv.children[x as int]]
                            =~= nv.children.subrange(0, x + 1));
                        assert(seq![nv.children[x as int]].drop_first()
                            =~= Seq::<NodeV>::empty());
                        assert(items_of_list(seq![nv.children[x as int]]) =~= items_of(
                            nv.children[x as int],
                        ) + Seq::<ItemV>::empty());
                        assert(out.deep_view() =~= out0 + items_of_list(
                            nv.children.subrange(0, x + 1),
                        ));
                    }
                    x += 1;
                }
                let ghost mid = out.deep_view();
                out.push(Item::ApplyOp(*op));
                proof {
                    assert(nv.children.subrange(0, k as int) =~= nv.children);
                    lemma_depths_max(nv.children);
                    assert(out.deep_view() =~= mid.push(ItemV::ApplyOp(nv.token->Operation_0)));
                    assert(out.deep_view() =~= out0 + items_of(nv));
                }
                Ok(())
            }
        },
    }
}

/// One operand on the evaluation stack: a produced value, or the mark of
/// a statement part — an assignment or a declaration — that produced none.
#[derive(Clone, Copy, PartialEq, Eq, Structural, Debug)]
pub enum Opnd {
    Value(Scalar),
    Void,
}

/// The scalar a value operand holds; the zero scalar for the void mark.
pub open spec fn opnd_val(o: Opnd) -> Scalar {
    match o {
        Opnd::Value(v) => v,
        Opnd::Void => Scalar { bits: 0 },
    }
}

/// One computation the evaluator asks its host for: an arithmetic
/// application, a function call with its arguments in source order, or
/// the reading of a numeric literal.
#[derive(Debug)]
pub enum Task {
    BinOp(OperationType, Scalar, Scalar),
    CallFun(String, Vec<Scalar>),
    ReadNumber(String),
}

/// The mathematical value of a [`Task`].
pub ghost enum TaskV {
    BinOp(OperationType, Scalar, Scalar),
    CallFun(Seq<char>, Seq<Scalar>),
    ReadNumber(Seq<char>),
}

impl View for Task {
    type V = TaskV;

    open spec fn view(&self) -> TaskV {
        match self {
            Task::BinOp(op, a, b) => TaskV::BinOp(*op, *a, *b),
            Task::CallFun(f, args) => TaskV::CallFun(f@, args@),
            Task::ReadNumber(t) => TaskV::ReadNumber(t@),
        }
    }
}

fn copy_scalars(v: &Vec<Scalar>) -> (r: Vec<Scalar>)
    ensures
        r@ == v@,
{
    let mut r: Vec<Scalar> = Vec::new();
    let n = v.len();
    let mut i: usize = 0;
    while i < n
        invariant
            n == v.len(),
            i <= n,
            r@ == v@.subrange(0, i as int),
        decreases n - i,
    {
        r.push(v[i]);
        proof {
            assert(r@ =~= v@.subrange(0, i + 1));
        }
        i += 1;
    }
    proof {
        assert(r@ =~= v@);
    }
    r
}

impl Clone for Task {
    fn clone(&self) -> (r: Task)
        ensures
            r@ == self@,
    {
        match self {
            Task::BinOp(op, a, b) => Task::BinOp(*op, *a, *b),
            Task::CallFun(f, args) => Task::CallFun(f.clone(), copy_scalars(args)),
            Task::ReadNumber(t) => Task::ReadNumber(t.clone()),
        }
    }
}

/// What one call of [`Evaluator::step`] reports: nothing of note yet, a
/// task the host must answer through [`Evaluator::provide`], the run's
/// result, or the error that ended the run.
#[derive(Debug)]
pub enum StepEvent {
    Working,
    Pending(Task),
    Done(Option<Scalar>),
    Failed(Error),
}

/// The mathematical value of a [`StepEvent`].
pub ghost enum EventV {
    Working,
    Pending(TaskV),
    Done(Option<Scalar>),
    Failed(ErrV),
}

impl View for StepEvent {
    type V = EventV;

    open spec fn view(&self) -> EventV {
        match self {
            StepEvent::Working => EventV::Working,
            StepEvent::Pending(t) => EventV::Pending(t@),
            StepEvent::Done(o) => EventV::Done(*o),
            StepEvent::Failed(e) => EventV::Failed(e@),
        }
    }
}

/// The mathematical value of an [`Evaluator`]: its items, its position,
/// its operand stack, an unanswered task if one is out, and the final
/// result once the run has ended.
#[verifier::ext_equal]
pub ghost struct MachineV {
    pub items: Seq<ItemV>,
    pub pos: int,
    pub opnds: Seq<Opnd>,
    pub pending: Option<TaskV>,
    pub finished: Option<Result<Option<Scalar>, ErrV>>,
}

/// One step of the evaluator on machine `m` over variable state `st`:
/// the machine afterwards and the state afterwards.  A finished machine
/// and one waiting for an answer stand still.  Running off the end of
/// the items finishes with no produced value.  Otherwise the item at the
/// current position acts as its description says; a task leaves the
/// position in place until the answer arrives.
pub open spec fn step_spec(m: MachineV, st: Map<Seq<char>, Scalar>) -> (MachineV, Map<
    Seq<char>,
    Scalar,
>) {
    if m.finished is Some || m.pending is Some {
        (m, st)
    } else if m.pos < 0 || m.pos >= m.items.len() {
        (MachineV { finished: Some(Ok(None)), ..m }, st)
    } else {
        match m.items[m.pos] {
            ItemV::PushLiteral(t) => (MachineV { pending: Some(TaskV::ReadNumber(t)), ..m }, st),
            ItemV::PushValue(v) => (
                MachineV { opnds: m.opnds.push(Opnd::Value(v)), pos: m.pos + 1, ..m },
                st,
            ),
            ItemV::ReadVar(x) => if st.contains_key(x) {
                (MachineV { opnds: m.opnds.push(Opnd::Value(st[x])), pos: m.pos + 1, ..m }, st)
            } else {
                (MachineV { finished: Some(Err(ErrV::UndefinedVariable)), ..m }, st)
            },
            ItemV::ApplyOp(op) => if m.opnds.len() < 2 {
                (MachineV { finished: Some(Err(ErrV::MissingOperand)), ..m }, st)
            } else {
                let l = m.opnds[m.opnds.len() - 2];
                let r = m.opnds.last();
                if l is Value && r is Value {
                    (
                        MachineV {
                            opnds: m.opnds.subrange(0, m.opnds.len() - 2),
                            pending: Some(TaskV::BinOp(op, opnd_val(l), opnd_val(r))),
                            ..m
                        },
                        st,
                    )
                } else {
                    (MachineV { finished: Some(Err(ErrV::MissingOperand)), ..m }, st)
                }
            },
            ItemV::CallFun(f, k) => if m.opnds.len() < k {
                (MachineV { finished: Some(Err(ErrV::ArityMismatch)), ..m }, st)
            } else {
                let popped = Seq::new(k, |y: int| m.opnds[m.opnds.len() - 1 - y]);
                if exists|y: int| 0 <= y < k && popped[y] is Void {
                    (
                        MachineV {
                            opnds: m.opnds.subrange(0, m.opnds.len() - k as int).push(Opnd::Void),
                            pos: m.pos + 1,
                            ..m
                        },
                        st,
                    )
                } else {
                    (
                        MachineV {
                            opnds: m.opnds.subrange(0, m.opnds.len() - k as int),
                            pending: Some(
                                TaskV::CallFun(f, Seq::new(k, |y: int| opnd_val(popped[y]))),
                            ),
                            ..m
                        },
                        st,
                    )
                }
            },
            ItemV::Store(x) => if m.opnds.len() < 1 || m.opnds.last() is Void {
                (MachineV { finished: Some(Err(ErrV::MissingOperand)), ..m }, st)
            } else {
                (
                    MachineV {
                        opnds: m.opnds.drop_last().push(Opnd::Void),
                        pos: m.pos + 1,
                        ..m
                    },
                    st.insert(x, opnd_val(m.opnds.last())),
                )
            },
            ItemV::Declare(x) => (
                MachineV { opnds: m.opnds.push(Opnd::Void), pos: m.pos + 1, ..m },
                if st.contains_key(x) {
                    st
                } else {
                    st.insert(x, Scalar { bits: 0 })
                },
            ),
            ItemV::BadTarget => (
                MachineV { finished: Some(Err(ErrV::InvalidAssignmentTarget)), ..m },
                st,
            ),
            ItemV::EndStmt => if m.opnds.len() == 0 {
                (MachineV { pos: m.pos + 1, ..m }, st)
            } else if m.opnds.last() is Value {
                (MachineV { finished: Some(Ok(Some(opnd_val(m.opnds.last())))), ..m }, st)
            } else {
                (MachineV { opnds: Seq::empty(), pos: m.pos + 1, ..m }, st)
            },
        }
    }
}

/// What a machine reports: its result once finished, the unanswered task
/// while one is out, and otherwise that it is still working.
pub open spec fn event_of(m: MachineV) -> EventV {
    match m.finished {
        Some(f) => match f {
            Ok(o) => EventV::Done(o),
            Err(e) => EventV::Failed(e),
        },
        None => match m.pending {
            Some(t) => EventV::Pending(t),
            None => EventV::Working,
        },
    }
}

/// What answering an outstanding task with `v` does: the answer is pushed
/// and the machine moves past the item that asked.  A machine with no
/// task out is left untouched.
pub open spec fn provide_spec(m: MachineV, v: Scalar) -> MachineV {
    if m.pending is Some {
        MachineV { pending: None, opnds: m.opnds.push(Opnd::Value(v)), pos: m.pos + 1, ..m }
    } else {
        m
    }
}

impl Clone for Item {
    fn clone(&self) -> (r: Item)
        ensures
            r@ == self@,
    {
        match self {
            Item::PushLiteral(t) => Item::PushLiteral(t.clone()),
            Item::PushValue(v) => Item::PushValue(*v),
            Item::ReadVar(x) => Item::ReadVar(x.clone()),
            Item::ApplyOp(op) => Item::ApplyOp(*op),
            Item::CallFun(f, k) => Item::CallFun(f.clone(), *k),
            Item::Store(x) => Item::Store(x.clone()),
            Item::Declare(x) => Item::Declare(x.clone()),
            Item::BadTarget => Item::BadTarget,
            Item::EndStmt => Item::EndStmt,
        }
    }
}

/// The step evaluator of one statement or one block: it walks the
/// flattened items, keeps the operand stack and the final result, and
/// hands every numeric computation to its host as a [`Task`].
pub struct Evaluator {
    items: Vec<Item>,
    pos: usize,
    opnds: Vec<Opnd>,
    pending: Option<Task>,
    finished: Option<Result<Option<Scalar>, Error>>,
}

impl View for Evaluator {
    type V = MachineV;

    closed spec fn view(&self) -> MachineV {
        MachineV {
            items: self.items.deep_view(),
            pos: self.pos as int,
            opnds: self.opnds@,
            pending: match self.pending {
                Some(t) => Some(t@),
                None => None,
            },
            finished: match self.finished {
                Some(f) => match f {
                    Ok(o) => Some(Ok(o)),
                    Err(e) => Some(Err(e@)),
                },
                None => None,
            },
        }
    }
}

/// The machine a fresh evaluator for the given items starts as.
pub open spec fn initial_machine(items: Seq<ItemV>) -> MachineV {
    MachineV {
        items: items,
        pos: 0,
        opnds: Seq::empty(),
        pending: None,
        finished: None,
    }
}

impl Evaluator {
    /// A task is only ever outstanding at an item that exists.
    pub closed spec fn wf(&self) -> bool {
        self.pending is Some ==> (self.pos as int) < self.items.deep_view().len()
    }

    /// An evaluator for one statement tree.
    pub fn for_statement(tree: &Node) -> (r: Result<Evaluator, Error>)
        ensures
            r matches Ok(m) ==> m@ == initial_machine(stmt_items(tree@)) && m.wf() && depth_of(
                tree@,
            ) <= DEPTH_LIMIT,
            r matches Err(e) ==> e@ == ErrV::TooDeep && depth_of(tree@) > DEPTH_LIMIT,
    {
        let mut items: Vec<Item> = Vec::new();
        proof {
            assert(items.deep_view() =~= Seq::<ItemV>::empty());
        }
        match flatten_into(tree, DEPTH_LIMIT, &mut items) {
            Ok(()) => {},
            Err(e) => {
                return Err(e);
            },
        }
        items.push(Item::EndStmt);
        let r = Evaluator {
            items,
            pos: 0,
            opnds: Vec::new(),
            pending: None,
            finished: None,
        };
        proof {
            assert(r.items.deep_view() =~= Seq::<ItemV>::empty() + items_of(tree@) + seq![
                ItemV::EndStmt,
            ]);
            assert(r.items.deep_view() =~= stmt_items(tree@));
            assert(r.opnds@ =~= Seq::<Opnd>::empty());
            assert(r@ =~= initial_machine(stmt_items(tree@)));
        }
        Ok(r)
    }

    /// An evaluator for a whole block: every statement in order, sharing
    /// one state, stopping at the first statement that produces a value.
    pub fn for_block(trees: &Vec<Node>) -> (r: Result<Evaluator, Error>)
        ensures
            r matches Ok(m) ==> m@ == initial_machine(block_items(nodes_view(trees@))) && m.wf()
                && (forall|i: int|
                0 <= i < trees@.len() ==> depth_of(nodes_view(trees@)[i]) <= DEPTH_LIMIT),
            r matches Err(e) ==> e@ == ErrV::TooDeep && (exists|i: int|
                0 <= i < trees@.len() && depth_of(nodes_view(trees@)[i]) > DEPTH_LIMIT),
    {
        let ghost tv = nodes_view(trees@);
        proof {
            lemma_nodes_view(trees@);
        }
        let mut items: Vec<Item> = Vec::new();
        let n = trees.len();
        let mut i: usize = 0;
        proof {
            assert(items.deep_view() =~= Seq::<ItemV>::empty());
            assert(tv.subrange(0, 0) =~= Seq::<NodeV>::empty());
        }
        while i < n
            invariant
                n == trees.len(),
                i <= n,
                tv == nodes_view(trees@),
                tv.len() == n,
                items.deep_view() == block_items(tv.subrange(0, i as int)),
                forall|j: int| 0 <= j < i ==> depth_of(tv[j]) <= DEPTH_LIMIT,
            decreases n - i,
        {
            proof {
                lemma_nodes_view(trees@);
                assert(tv[i as int] == trees@[i as int]@);
            }
            let ghost pre = items.deep_view();
            match flatten_into(&trees[i], DEPTH_LIMIT, &mut items) {
                Ok(()) => {},
                Err(e) => {
                    return Err(e);
                },
            }
            items.push(Item::EndStmt);
            proof {
                lemma_block_items_app(tv.subrange(0, i as int), seq![tv[i as int]]);
                assert(tv.subrange(0, i as int) + seq![tv[i as int]] =~= tv.subrange(0, i + 1));
                assert(seq![tv[i as int]].drop_first() =~= Seq::<NodeV>::empty());
                reveal_with_fuel(block_items, 3);
                assert(block_items(seq![tv[i as int]]) =~= stmt_items(tv[i as int]) + Seq::<
                    ItemV,
                >::empty());
                assert(items.deep_view() =~= pre + items_of(tv[i as int]) + seq![ItemV::EndStmt]);
                assert(items.deep_view() =~= block_items(tv.subrange(0, i + 1)));
            }
            i += 1;
        }
        let r = Evaluator {
            items,
            pos: 0,
            opnds: Vec::new(),
            pending: None,
            finished: None,
        };
        proof {
            assert(tv.subrange(0, n as int) =~= tv);
            assert(r.opnds@ =~= Seq::<Opnd>::empty());
            assert(r@ =~= initial_machine(block_items(tv)));
        }
        Ok(r)
    }

    /// Performs one step, exactly as [`step_spec`] says, and reports what
    /// [`event_of`] reads off the machine afterwards.
    pub fn step(&mut self, state: &mut State) -> (ev: StepEvent)
        requires
            old(state).wf(),
            old(self).wf(),
        ensures
            final(state).wf(),
            final(self).wf(),
            final(self)@ == step_spec(old(self)@, old(state)@).0,
            final(state)@ == step_spec(old(self)@, old(state)@).1,
            ev@ == event_of(final(self)@),
    {
        let ghost m0 = self@;
        let ghost st0 = state@;
        match &self.finished {
            Some(f) => {
                return match f {
                    Ok(o) => StepEvent::Done(*o),
                    Err(e) => StepEvent::Failed(e.clone()),
                };
            },
            None => {},
        }
        match &self.pending {
            Some(t) => {
                return StepEvent::Pending(t.clone());
            },
            None => {},
        }
        if self.pos >= self.items.len() {
            self.finished = Some(Ok(None));
            proof {
                assert(self@ =~= step_spec(m0, st0).0);
            }
            return StepEvent::Done(None);
        }
        let item = self.items[self.pos].clone();
        proof {
            assert(m0.items[m0.pos] == item@);
        }
        match item {
            Item::PushLiteral(t) => {
                let task = Task::ReadNumber(t);
                let ev = StepEvent::Pending(task.clone());
                self.pending = Some(task);
                proof {
                    assert(self@ =~= step_spec(m0, st0).0);
                }
                ev
            },
            Item::PushValue(v) => {
                self.opnds.push(Opnd::Value(v));
                self.pos = self.pos + 1;
                proof {
                    assert(self@ =~= step_spec(m0, st0).0);
                }
                StepEvent::Working
            },
            Item::ReadVar(x) => {
                match state.get(&x) {
                    Some(v) => {
                        self.opnds.push(Opnd::Value(v));
                        self.pos = self.pos + 1;
                        proof {
                            assert(self@ =~= step_spec(m0, st0).0);
                        }
                        StepEvent::Working
                    },
                    None => {
                        self.finished = Some(Err(Error::UndefinedVariable));
                        proof {
                            assert(self@ =~= step_spec(m0, st0).0);
                        }
                        StepEvent::Failed(Error::UndefinedVariable)
                    },
                }
            },
            Item::ApplyOp(op) => {
                let len = self.opnds.len();
                if len < 2 {
                    self.finished = Some(Err(Error::MissingOperand));
                    proof {
                        assert(self@ =~= step_spec(m0, st0).0);
                    }
                    return StepEvent::Failed(Error::MissingOperand);
                }
                let l = self.opnds[len - 2];
                let r = self.opnds[len - 1];
                match (l, r) {
                    (Opnd::Value(a), Opnd::Value(b)) => {
                        self.opnds.truncate(len - 2);
                        let task = Task::BinOp(op, a, b);
                        let ev = StepEvent::Pending(task.clone());
                        self.pending = Some(task);
                        proof {
                            assert(m0.opnds.last() == r);
                            assert(self.opnds@ =~= m0.opnds.subrange(0, m0.opnds.len() - 2));
                            assert(self@ =~= step_spec(m0, st0).0);
                        }
                        ev
                    },
                    _ => {
                        self.finished = Some(Err(Error::MissingOperand));
                        proof {
                            assert(m0.opnds.last() == r);
                            assert(self@ =~= step_spec(m0, st0).0);
                        }
                        StepEvent::Failed(Error::MissingOperand)
                    },
                }
            },
            Item::CallFun(f, k) => {
                let len = self.opnds.len();
                if len < k {
                    self.finished = Some(Err(Error::ArityMismatch));
                    proof {
                        assert(self@ =~= step_spec(m0, st0).0);
                    }
                    return StepEvent::Failed(Error::ArityMismatch);
                }
                let ghost popped = Seq::new(k as nat, |y: int| m0.opnds[m0.opnds.len() - 1 - y]);
                let mut has_void = false;
                let mut y: usize = 0;
                while y < k
                    invariant
                        y <= k,
                        k <= len,
                        len == self.opnds.len(),
                        self@ == m0,
                        popped == Seq::new(k as nat, |z: int| m0.opnds[m0.opnds.len() - 1 - z]),
                        m0.opnds == self.opnds@,
                        has_void == (exists|z: int| 0 <= z < y && popped[z] is Void),
                    decreases k - y,
                {
                    let o = self.opnds[len - 1 - y];
                    proof {
                        assert(popped[y as int] == o);
                    }
                    if matches!(o, Opnd::Void) {
                        has_void = true;
                        proof {
                            assert(popped[y as int] is Void);
                        }
                    }
                    y += 1;
                }
                if has_void {
                    self.opnds.truncate(len - k);
                    self.opnds.push(Opnd::Void);
                    self.pos = self.pos + 1;
                    proof {
                        assert(self.opnds@ =~= m0.opnds.subrange(
                            0,
                            m0.opnds.len() - k as int,
                        ).push(Opnd::Void));
                        assert(self@ =~= step_spec(m0, st0).0);
                    }
                    StepEvent::Working
                } else {
                    let mut args: Vec<Scalar> = Vec::new();
                    let mut y2: usize = 0;
                    while y2 < k
                        invariant
                            y2 <= k,
                            k <= len,
                            len == self.opnds.len(),
                            self@ == m0,
                            popped == Seq::new(
                                k as nat,
                                |z: int| m0.opnds[m0.opnds.len() - 1 - z],
                            ),
                            m0.opnds == self.opnds@,
                            args@.len() == y2,
                            forall|z: int| 0 <= z < y2 ==> args@[z] == opnd_val(popped[z]),
                        decreases k - y2,
                    {
                        let o = self.opnds[len - 1 - y2];
                        proof {
                            assert(popped[y2 as int] == o);
                        }
                        match o {
                            Opnd::Value(v) => {
                                args.push(v);
                            },
                            Opnd::Void => {
                                args.push(Scalar::zero());
                            },
                        }
                        y2 += 1;
                    }
                    self.opnds.truncate(len - k);
                    let task = Task::CallFun(f, args);
                    let ev = StepEvent::Pending(task.clone());
                    self.pending = Some(task);
                    proof {
                        assert(args@ =~= Seq::new(k as nat, |z: int| opnd_val(popped[z])));
                        assert(self.opnds@ =~= m0.opnds.subrange(0, m0.opnds.len() - k as int));
                        assert(self@ =~= step_spec(m0, st0).0);
                    }
                    ev
                }
            },
            Item::Store(x) => {
                let len = self.opnds.len();
                if len < 1 {
                    self.finished = Some(Err(Error::MissingOperand));
                    proof {
                        assert(self@ =~= step_spec(m0, st0).0);
                    }
                    return StepEvent::Failed(Error::MissingOperand);
                }
                let top = self.opnds[len - 1];
                match top {
                    Opnd::Value(a) => {
                        self.opnds.truncate(len - 1);
                        self.opnds.push(Opnd::Void);
                        state.set(x, a);
                        self.pos = self.pos + 1;
                        proof {
                            assert(m0.opnds.last() == top);
                            assert(self.opnds@ =~= m0.opnds.drop_last().push(Opnd::Void));
                            assert(self@ =~= step_spec(m0, st0).0);
                        }
                        StepEvent::Working
                    },
                    Opnd::Void => {
                        self.finished = Some(Err(Error::MissingOperand));
                        proof {
                            assert(m0.opnds.last() == top);
                            assert(self@ =~= step_spec(m0, st0).0);
                        }
                        StepEvent::Failed(Error::MissingOperand)
                    },
                }
            },
            Item::Declare(x) => {
                state.declare(x);
                self.opnds.push(Opnd::Void);
                self.pos = self.pos + 1;
                proof {
                    assert(self@ =~= step_spec(m0, st0).0);
                }
                StepEvent::Working
            },
            Item::BadTarget => {
                self.finished = Some(Err(Error::InvalidAssignmentTarget));
                proof {
                    assert(self@ =~= step_spec(m0, st0).0);
                }
                StepEvent::Failed(Error::InvalidAssignmentTarget)
            },
            Item::EndStmt => {
                let len = self.opnds.len();
                if len == 0 {
                    self.pos = self.pos + 1;
                    proof {
                        assert(self@ =~= step_spec(m0, st0).0);
                    }
                    StepEvent::Working
                } else {
                    let top = self.opnds[len - 1];
                    match top {
                        Opnd::Value(v) => {
                            self.finished = Some(Ok(Some(v)));
                            proof {
                                assert(m0.opnds.last() == top);
                                assert(self@ =~= step_spec(m0, st0).0);
                            }
                            StepEvent::Done(Some(v))
                        },
                        Opnd::Void => {
                            self.opnds.clear();
                            self.pos = self.pos + 1;
                            proof {
                                assert(m0.opnds.last() == top);
                                assert(self.opnds@ =~= Seq::<Opnd>::empty());
                                assert(self@ =~= step_spec(m0, st0).0);
                            }
                            StepEvent::Working
                        },
                    }
                }
            },
        }
    }

    /// Answers the outstanding task, exactly as [`provide_spec`] says.
    pub fn provide(&mut self, v: Scalar)
        requires
            old(self).wf(),
        ensures
            final(self).wf(),
            final(self)@ == provide_spec(old(self)@, v),
    {
        let ghost m0 = self@;
        match &self.pending {
            Some(_) => {
                let n = self.items.len();
                proof {
                    assert(self.pos < n);
                }
                self.pending = None;
                self.opnds.push(Opnd::Value(v));
                self.pos = self.pos + 1;
                proof {
                    assert(self@ =~= provide_spec(m0, v));
                }
            },
            None => {},
        }
    }
}

/// The machine and state after `k` steps.
pub open spec fn run_steps(m: MachineV, st: Map<Seq<char>, Scalar>, k: nat) -> (MachineV, Map<
    Seq<char>,
    Scalar,
>)
    decreases k,
{
    if k == 0 {
        (m, st)
    } else {
        let next = step_spec(m, st);
        run_steps(next.0, next.1, (k - 1) as nat)
    }
}

} // verus!
