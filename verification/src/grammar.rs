use crate::config::ConfigV;
use crate::error::ErrV;
use crate::eval::{
    initial_machine, items_of, items_of_list, provide_spec, step_spec, stmt_items, ItemV, MachineV,
    Opnd, TaskV,
};
use crate::node::{build, build_loop, NodeV};
use crate::scalar::Scalar;
use crate::parser::{close_paren, conv_loop, convert, end_flush, op_token_of, pop_ge};
use crate::scan::LexemeV;
use crate::token::{op_of, NumericV, OperationType, TokV};
use vstd::prelude::*;

verus! {

/// A pure arithmetic expression: numbers combined by the four binary
/// operators.  This is the fragment over which the conversion pipeline
/// is proved to agree with direct standard-precedence reading.
pub ghost enum ArithExp {
    Num(NumericV),
    Bin(OperationType, Box<ArithExp>, Box<ArithExp>),
}

/// One of the four arithmetic operators.
pub open spec fn arith_op(op: OperationType) -> bool {
    op == OperationType::Add || op == OperationType::Sub || op == OperationType::Mul || op
        == OperationType::Div
}

/// An additive operator, rank 2.
pub open spec fn sum_op(op: OperationType) -> bool {
    op == OperationType::Add || op == OperationType::Sub
}

/// A multiplicative operator, rank 3.
pub open spec fn prod_op(op: OperationType) -> bool {
    op == OperationType::Mul || op == OperationType::Div
}

/// Every operator of the expression is arithmetic.
pub open spec fn exp_wf(e: ArithExp) -> bool
    decreases e,
{
    match e {
        ArithExp::Num(_) => true,
        ArithExp::Bin(op, l, r) => arith_op(op) && exp_wf(*l) && exp_wf(*r),
    }
}

/// The postfix token stream of an expression: both operands, then the
/// operator.
pub open spec fn postfix_of(e: ArithExp) -> Seq<TokV>
    decreases e,
{
    match e {
        ArithExp::Num(n) => seq![TokV::Number(n)],
        ArithExp::Bin(op, l, r) => postfix_of(*l) + postfix_of(*r) + seq![TokV::Operation(op)],
    }
}

/// The expression tree of an expression: the left operand is the first
/// child.
pub open spec fn tree_of(e: ArithExp) -> NodeV
    decreases e,
{
    match e {
        ArithExp::Num(n) => NodeV { children: Seq::empty(), token: TokV::Number(n) },
        ArithExp::Bin(op, l, r) => NodeV {
            children: seq![tree_of(*l), tree_of(*r)],
            token: TokV::Operation(op),
        },
    }
}

/// Running the tree builder over an expression's postfix segment pushes
/// exactly the expression's tree and continues behind the segment.
proof fn lemma_build_seg(toks: Seq<TokV>, cfg: ConfigV, i: int, stack: Seq<NodeV>, e: ArithExp)
    requires
        exp_wf(e),
        0 <= i,
        i + postfix_of(e).len() <= toks.len(),
        toks.subrange(i, i + postfix_of(e).len()) == postfix_of(e),
    ensures
        build_loop(toks, cfg, i, stack) == build_loop(
            toks,
            cfg,
            i + postfix_of(e).len(),
            stack.push(tree_of(e)),
        ),
    decreases e,
{
    match e {
        ArithExp::Num(n) => {
            assert(toks[i] == postfix_of(e)[0]);
            assert(toks[i] == TokV::Number(n));
        },
        ArithExp::Bin(op, l, r) => {
            let pl = postfix_of(*l);
            let pr = postfix_of(*r);
            let ll = pl.len() as int;
            let lr = pr.len() as int;
            assert(postfix_of(e).len() == ll + lr + 1);
            assert(toks.subrange(i, i + ll) =~= pl) by {
                assert(forall|x: int|
                    0 <= x < ll ==> toks.subrange(i, i + postfix_of(e).len() as int)[x]
                        == #[trigger] postfix_of(e)[x]);
                assert(forall|x: int| 0 <= x < ll ==> postfix_of(e)[x] == pl[x]);
            }
            lemma_build_seg(toks, cfg, i, stack, *l);
            let stack1 = stack.push(tree_of(*l));
            assert(toks.subrange(i + ll, i + ll + lr) =~= pr) by {
                assert(forall|x: int|
                    0 <= x < lr ==> toks.subrange(i, i + postfix_of(e).len() as int)[ll + x]
                        == #[trigger] postfix_of(e)[ll + x]);
                assert(forall|x: int| 0 <= x < lr ==> postfix_of(e)[ll + x] == pr[x]);
            }
            lemma_build_seg(toks, cfg, i + ll, stack1, *r);
            let stack2 = stack1.push(tree_of(*r));
            let j = i + ll + lr;
            assert(toks[j] == postfix_of(e)[ll + lr]);
            assert(toks[j] == TokV::Operation(op));
            assert(stack2.len() >= 2);
            assert(stack2.last() == tree_of(*r));
            assert(stack2[stack2.len() - 2] == tree_of(*l));
            assert(build_loop(toks, cfg, j, stack2) == build_loop(
                toks,
                cfg,
                j + 1,
                stack2.subrange(0, stack2.len() - 2).push(
                    NodeV {
                        children: seq![tree_of(*l), tree_of(*r)],
                        token: TokV::Operation(op),
                    },
                ),
            ));
            assert(stack2.subrange(0, stack2.len() - 2) =~= stack);
            assert(stack2.subrange(0, stack2.len() - 2).push(tree_of(e)) =~= stack.push(
                tree_of(e),
            ));
        },
    }
}

/// TESTABLE LAW, builder half: for every arithmetic expression, the tree
/// builder run on the expression's postfix stream yields exactly the
/// expression's tree — the operand emitted first becomes the left child,
/// so subtraction and division keep their source order.
pub proof fn theorem_build_inverts_postfix(e: ArithExp, cfg: ConfigV)
    requires
        exp_wf(e),
    ensures
        build(postfix_of(e), cfg) == Ok::<NodeV, ErrV>(tree_of(e)),
{
    let toks = postfix_of(e);
    assert(toks.subrange(0, toks.len() as int) =~= toks);
    lemma_build_seg(toks, cfg, 0, Seq::empty(), e);
    assert(build_loop(toks, cfg, toks.len() as int, Seq::empty().push(tree_of(e))) == Ok::<
        NodeV,
        ErrV,
    >(tree_of(e)));
}

/// The source symbol of an operator.
pub open spec fn sym_of(op: OperationType) -> Seq<char> {
    match op {
        OperationType::Add => "+"@,
        OperationType::Sub => "-"@,
        OperationType::Mul => "*"@,
        OperationType::Div => "/"@,
        OperationType::Assign => "="@,
        OperationType::Create => "let"@,
    }
}

/// The characters and lengths of the operator and parenthesis literals,
/// and what [`op_of`] makes of the four arithmetic symbols.
proof fn lemma_symbol_facts()
    ensures
        op_of("+"@) == Some(OperationType::Add),
        op_of("-"@) == Some(OperationType::Sub),
        op_of("*"@) == Some(OperationType::Mul),
        op_of("/"@) == Some(OperationType::Div),
        "+"@ != "("@ && "+"@ != ")"@ && "+"@ != ","@,
        "-"@ != "("@ && "-"@ != ")"@ && "-"@ != ","@,
        "*"@ != "("@ && "*"@ != ")"@ && "*"@ != ","@,
        "/"@ != "("@ && "/"@ != ")"@ && "/"@ != ","@,
        "("@ != ")"@ && "("@ != ","@ && "("@ != "+"@ && "("@ != "-"@ && "("@ != "*"@ && "("@
            != "/"@,
        "+"@ != "-"@ && "+"@ != "*"@ && "+"@ != "/"@ && "-"@ != "*"@ && "-"@ != "/"@ && "*"@
            != "/"@,
{
    reveal_strlit("+");
    reveal_strlit("-");
    reveal_strlit("*");
    reveal_strlit("/");
    reveal_strlit("(");
    reveal_strlit(")");
    reveal_strlit(",");
    reveal_strlit("Add");
    reveal_strlit("add");
    reveal_strlit("Sub");
    reveal_strlit("sub");
    reveal_strlit("Mul");
    reveal_strlit("mul");
    reveal_strlit("Div");
    reveal_strlit("div");
    reveal_strlit("Assign");
    reveal_strlit("assign");
    reveal_strlit("=");
    reveal_strlit("Create");
    reveal_strlit("create");
    reveal_strlit("let");
    assert("+"@[0] == '+' && "-"@[0] == '-' && "*"@[0] == '*' && "/"@[0] == '/');
    assert("("@[0] == '(' && ")"@[0] == ')' && ","@[0] == ',' && "="@[0] == '=');
    assert("Add"@.len() == 3 && "add"@.len() == 3 && "Sub"@.len() == 3 && "sub"@.len() == 3);
    assert("Mul"@.len() == 3 && "mul"@.len() == 3 && "Div"@.len() == 3 && "div"@.len() == 3);
    assert("Assign"@.len() == 6 && "assign"@.len() == 6);
    assert("Create"@.len() == 6 && "create"@.len() == 6 && "let"@.len() == 3);
    assert("+"@.len() == 1 && "-"@.len() == 1 && "*"@.len() == 1 && "/"@.len() == 1);
    assert("("@.len() == 1 && ")"@.len() == 1 && ","@.len() == 1 && "="@.len() == 1);
}

/// A configuration that gives the arithmetic symbols their standard
/// meaning: `+ -` rank 2, `* /` rank 3, and none of the five structural
/// or operator symbols is a function name.
pub open spec fn arith_cfg(cfg: ConfigV) -> bool {
    &&& cfg.priority_of("+"@) == Some(2u8)
    &&& cfg.priority_of("-"@) == Some(2u8)
    &&& cfg.priority_of("*"@) == Some(3u8)
    &&& cfg.priority_of("/"@) == Some(3u8)
    &&& !cfg.is_function("+"@)
    &&& !cfg.is_function("-"@)
    &&& !cfg.is_function("*"@)
    &&& !cfg.is_function("/"@)
    &&& !cfg.is_function("("@)
}

/// One of the symbols an arithmetic conversion ever leaves on the stack.
pub open spec fn arith_sym(s: Seq<char>) -> bool {
    s == "("@ || s == "+"@ || s == "-"@ || s == "*"@ || s == "/"@
}

/// One of the four operator symbols.
pub open spec fn op_sym(s: Seq<char>) -> bool {
    s == "+"@ || s == "-"@ || s == "*"@ || s == "/"@
}

/// One of the two rank-3 operator symbols.
pub open spec fn mul_sym(s: Seq<char>) -> bool {
    s == "*"@ || s == "/"@
}

/// A stack holding only symbols an arithmetic conversion produces.
pub open spec fn arith_stack(st: Seq<Seq<char>>) -> bool {
    forall|i: int| 0 <= i < st.len() ==> arith_sym(#[trigger] st[i])
}

/// The infix rendering of an expression in standard minimal-parenthesis
/// form.  At `level` 2 additive operators may appear bare, at `level` 1
/// only multiplicative ones, at `level` 0 none: anything tighter is
/// wrapped in parentheses.  Left operands stay at their own level and
/// right operands drop one level, so the rendering is left-associative.
pub open spec fn render(e: ArithExp, level: int) -> Seq<LexemeV>
    decreases e,
{
    match e {
        ArithExp::Num(n) => seq![LexemeV::Number(n)],
        ArithExp::Bin(op, l, r) => {
            if sum_op(op) && level >= 2 {
                render(*l, 2) + seq![LexemeV::Symbol(sym_of(op))] + render(*r, 1)
            } else if prod_op(op) && level >= 1 {
                render(*l, 1) + seq![LexemeV::Symbol(sym_of(op))] + render(*r, 0)
            } else if sum_op(op) {
                seq![LexemeV::Symbol("("@)] + (render(*l, 2) + seq![
                    LexemeV::Symbol(sym_of(op)),
                ] + render(*r, 1)) + seq![LexemeV::Symbol(")"@)]
            } else if prod_op(op) {
                seq![LexemeV::Symbol("("@)] + (render(*l, 1) + seq![
                    LexemeV::Symbol(sym_of(op)),
                ] + render(*r, 0)) + seq![LexemeV::Symbol(")"@)]
            } else {
                Seq::empty()
            }
        },
    }
}

/// The full rendering of an expression.
pub open spec fn render_exp(e: ArithExp) -> Seq<LexemeV> {
    render(e, 2)
}

/// The operator symbols still pending on the stack when the converter
/// has read an expression's rendering at the given level: the root
/// operator of every bare right spine, loosest at the bottom.
pub open spec fn pend(e: ArithExp, level: int) -> Seq<Seq<char>>
    decreases e,
{
    match e {
        ArithExp::Num(_) => Seq::empty(),
        ArithExp::Bin(op, l, r) => {
            if sum_op(op) && level >= 2 {
                seq![sym_of(op)] + pend(*r, 1)
            } else if prod_op(op) && level >= 1 {
                seq![sym_of(op)] + pend(*r, 0)
            } else {
                Seq::empty()
            }
        },
    }
}

/// The tokens already emitted when the converter has read an
/// expression's rendering at the given level: its postfix stream short
/// of the pending operators.
pub open spec fn out_part(e: ArithExp, level: int) -> Seq<TokV>
    decreases e,
{
    match e {
        ArithExp::Num(n) => seq![TokV::Number(n)],
        ArithExp::Bin(op, l, r) => {
            if sum_op(op) && level >= 2 {
                postfix_of(*l) + out_part(*r, 1)
            } else if prod_op(op) && level >= 1 {
                postfix_of(*l) + out_part(*r, 0)
            } else if arith_op(op) {
                postfix_of(e)
            } else {
                Seq::empty()
            }
        },
    }
}

/// The tokens that popping a pending stack emits, topmost first.
pub open spec fn emit_stack(p: Seq<Seq<char>>) -> Seq<TokV>
    decreases p.len(),
{
    if p.len() == 0 {
        Seq::empty()
    } else {
        match op_of(p.last()) {
            Some(op) => seq![TokV::Operation(op)] + emit_stack(p.drop_last()),
            None => emit_stack(p.drop_last()),
        }
    }
}

/// The emitted part and the pending operators together are exactly the
/// postfix stream, and the pending stack is well-shaped for its level:
/// at most two operator symbols, at most one and multiplicative below
/// the additive level, none at the atom level.
proof fn lemma_parts(e: ArithExp, level: int)
    requires
        exp_wf(e),
    ensures
        out_part(e, level) + emit_stack(pend(e, level)) == postfix_of(e),
        pend(e, level).len() <= 2,
        forall|i: int| 0 <= i < pend(e, level).len() ==> op_sym(#[trigger] pend(e, level)[i]),
        level <= 1 ==> pend(e, level).len() <= 1,
        level <= 1 ==> forall|i: int|
            0 <= i < pend(e, level).len() ==> mul_sym(#[trigger] pend(e, level)[i]),
        level <= 0 ==> pend(e, level).len() == 0,
    decreases e,
{
    lemma_symbol_facts();
    reveal_with_fuel(emit_stack, 4);
    match e {
        ArithExp::Num(_) => {
            assert(out_part(e, level) + emit_stack(pend(e, level)) =~= postfix_of(e));
        },
        ArithExp::Bin(op, l, r) => {
            if sum_op(op) && level >= 2 {
                lemma_parts(*r, 1);
                let p = pend(e, level);
                let pr = pend(*r, 1);
                assert(p =~= seq![sym_of(op)] + pr);
                if pr.len() == 0 {
                    assert(p.last() == sym_of(op));
                    assert(p.drop_last() =~= Seq::<Seq<char>>::empty());
                    assert(emit_stack(p) =~= seq![TokV::Operation(op)]);
                } else {
                    assert(p.last() == pr.last());
                    assert(p.drop_last() =~= seq![sym_of(op)]);
                    assert(emit_stack(p) =~= emit_stack(pr) + seq![TokV::Operation(op)]);
                }
                assert(out_part(e, level) + emit_stack(p) =~= postfix_of(*l) + (out_part(*r, 1)
                    + emit_stack(pr)) + seq![TokV::Operation(op)]);
                assert(out_part(e, level) + emit_stack(p) =~= postfix_of(e));
            } else if prod_op(op) && level >= 1 {
                lemma_parts(*r, 0);
                let p = pend(e, level);
                let pr = pend(*r, 0);
                assert(pr.len() == 0);
                assert(p =~= seq![sym_of(op)]);
                assert(p.last() == sym_of(op));
                assert(p.drop_last() =~= Seq::<Seq<char>>::empty());
                assert(emit_stack(p) =~= seq![TokV::Operation(op)]);
                assert(out_part(*r, 0) =~= postfix_of(*r));
                assert(out_part(e, level) + emit_stack(p) =~= postfix_of(*l) + postfix_of(*r)
                    + seq![TokV::Operation(op)]);
                assert(out_part(e, level) + emit_stack(p) =~= postfix_of(e));
            } else {
                assert(pend(e, level) =~= Seq::<Seq<char>>::empty());
                assert(out_part(e, level) + emit_stack(pend(e, level)) =~= postfix_of(e));
            }
        },
    }
}

/// Popping for an arriving operator of rank `prio` takes exactly the
/// pending operators off the stack, emits them topmost first, and stops
/// at the base stack.
proof fn lemma_pop_pend(
    out: Seq<TokV>,
    base: Seq<Seq<char>>,
    p: Seq<Seq<char>>,
    cfg: ConfigV,
    prio: u8,
)
    requires
        arith_cfg(cfg),
        p.len() <= 2,
        forall|i: int| 0 <= i < p.len() ==> op_sym(#[trigger] p[i]),
        prio == 2 || prio == 3,
        prio == 3 ==> forall|i: int| 0 <= i < p.len() ==> mul_sym(#[trigger] p[i]),
        prio == 2 ==> base.len() == 0 || base.last() == "("@,
        prio == 3 ==> base.len() == 0 || base.last() == "("@ || base.last() == "+"@
            || base.last() == "-"@,
    ensures
        pop_ge(out, base + p, cfg, prio) == Ok::<_, ErrV>((out + emit_stack(p), base)),
    decreases p.len(),
{
    lemma_symbol_facts();
    if p.len() == 0 {
        assert(base + p =~= base);
        assert(out + emit_stack(p) =~= out);
        if base.len() > 0 {
            if base.last() == "+"@ || base.last() == "-"@ {
                assert(cfg.priority_of(base.last()) == Some(2u8));
            }
        }
    } else {
        let top = p.last();
        assert((base + p).last() == top);
        assert((base + p).len() > 0);
        assert(op_sym(top));
        assert(top != "("@ && top != ")"@);
        assert(!cfg.is_function(top));
        assert(cfg.priority_of(top) is Some);
        assert(cfg.priority_of(top)->0 >= prio);
        assert(op_token_of(top, cfg) is Some);
        let t = op_token_of(top, cfg)->0;
        assert((base + p).drop_last() =~= base + p.drop_last());
        lemma_pop_pend(out.push(t), base, p.drop_last(), cfg, prio);
        assert(out.push(t) + emit_stack(p.drop_last()) =~= out + emit_stack(p)) by {
            assert(emit_stack(p) =~= seq![t] + emit_stack(p.drop_last()));
        }
    }
}

/// Closing a parenthesis takes the pending operators and the matching
/// opening parenthesis off the stack; with no function name beneath,
/// nothing more is emitted.
proof fn lemma_close_pend(out: Seq<TokV>, base: Seq<Seq<char>>, p: Seq<Seq<char>>, cfg: ConfigV)
    requires
        arith_cfg(cfg),
        arith_stack(base),
        p.len() <= 2,
        forall|i: int| 0 <= i < p.len() ==> op_sym(#[trigger] p[i]),
    ensures
        close_paren(out, base + seq!["("@] + p, cfg) == Ok::<_, ErrV>((out + emit_stack(p), base)),
    decreases p.len(),
{
    lemma_symbol_facts();
    if p.len() == 0 {
        let st = base + seq!["("@] + p;
        assert(st =~= base + seq!["("@]);
        assert(st.last() == "("@);
        assert(st.drop_last() =~= base);
        if base.len() > 0 {
            assert(arith_sym(base.last()));
            assert(!cfg.is_function(base.last()));
        }
        assert(out + emit_stack(p) =~= out);
    } else {
        let st = base + seq!["("@] + p;
        let top = p.last();
        assert(st.last() == top);
        assert(op_sym(top));
        assert(top != "("@);
        assert(op_token_of(top, cfg) is Some);
        let t = op_token_of(top, cfg)->0;
        assert(st.drop_last() =~= base + seq!["("@] + p.drop_last());
        lemma_close_pend(out.push(t), base, p.drop_last(), cfg);
        assert(out.push(t) + emit_stack(p.drop_last()) =~= out + emit_stack(p)) by {
            assert(emit_stack(p) =~= seq![t] + emit_stack(p.drop_last()));
        }
    }
}

/// Flushing at the end of input empties a stack of pending operators,
/// emitting them topmost first.
proof fn lemma_end_pend(out: Seq<TokV>, p: Seq<Seq<char>>, cfg: ConfigV)
    requires
        arith_cfg(cfg),
        p.len() <= 2,
        forall|i: int| 0 <= i < p.len() ==> op_sym(#[trigger] p[i]),
    ensures
        end_flush(out, p, cfg) == Ok::<Seq<TokV>, ErrV>(out + emit_stack(p)),
    decreases p.len(),
{
    lemma_symbol_facts();
    if p.len() == 0 {
        assert(out + emit_stack(p) =~= out);
    } else {
        let top = p.last();
        assert(op_sym(top));
        assert(top != "("@);
        assert(op_token_of(top, cfg) is Some);
        let t = op_token_of(top, cfg)->0;
        lemma_end_pend(out.push(t), p.drop_last(), cfg);
        assert(out.push(t) + emit_stack(p.drop_last()) =~= out + emit_stack(p)) by {
            assert(emit_stack(p) =~= seq![t] + emit_stack(p.drop_last()));
        }
    }
}

/// A rendering is never empty.
proof fn lemma_render_len(e: ArithExp, level: int)
    requires
        exp_wf(e),
    ensures
        render(e, level).len() >= 1,
    decreases e,
{
    match e {
        ArithExp::Num(_) => {},
        ArithExp::Bin(op, l, r) => {
            lemma_render_len(*l, 2);
            lemma_render_len(*l, 1);
            lemma_render_len(*r, 1);
            lemma_render_len(*r, 0);
        },
    }
}

/// What the base stack must block for a rendering at each level: a bare
/// additive rendering must not pop into the base, so only an opening
/// parenthesis may be on top; a bare multiplicative rendering is also
/// safe over an additive operator.
pub open spec fn level_ok(stack: Seq<Seq<char>>, level: int) -> bool {
    if level >= 2 {
        stack.len() == 0 || stack.last() == "("@
    } else if level == 1 {
        stack.len() == 0 || stack.last() == "("@ || stack.last() == "+"@ || stack.last() == "-"@
    } else {
        true
    }
}

/// Reading an expression's rendering moves the converter exactly to the
/// emitted part and the pending operators of that expression, whatever
/// follows in the input.
#[verifier::rlimit(100)]
proof fn lemma_conv_render(
    s: Seq<LexemeV>,
    cfg: ConfigV,
    i: int,
    e: ArithExp,
    level: int,
    out: Seq<TokV>,
    stack: Seq<Seq<char>>,
)
    requires
        exp_wf(e),
        0 <= level <= 2,
        arith_cfg(cfg),
        arith_stack(stack),
        level_ok(stack, level),
        0 <= i,
        i + render(e, level).len() <= s.len(),
        s.subrange(i, i + render(e, level).len()) == render(e, level),
    ensures
        conv_loop(s, cfg, i, out, stack) == conv_loop(
            s,
            cfg,
            i + render(e, level).len(),
            out + out_part(e, level),
            stack + pend(e, level),
        ),
    decreases e, 2int,
{
    lemma_symbol_facts();
    match e {
        ArithExp::Num(n) => {
            assert(s[i] == render(e, level)[0]);
            assert(s[i] == LexemeV::Number(n));
            assert(out + out_part(e, level) =~= out.push(TokV::Number(n)));
            assert(stack + pend(e, level) =~= stack);
        },
        ArithExp::Bin(op, l, r) => {
            let sy = sym_of(op);
            let seg = render(e, level);
            let ln = seg.len() as int;
            if sum_op(op) && level >= 2 {
                let rl = render(*l, 2);
                let rr = render(*r, 1);
                let la = rl.len() as int;
                let lb = rr.len() as int;
                assert(seg =~= rl + seq![LexemeV::Symbol(sy)] + rr);
                assert(ln == la + 1 + lb);
                proof_conv_bare(s, cfg, i, e, 2, 1, 2u8, out, stack, la, lb);
                assert(out + postfix_of(*l) + out_part(*r, 1) =~= out + out_part(e, level));
                assert(stack.push(sy) + pend(*r, 1) =~= stack + pend(e, level));
            } else if prod_op(op) && level >= 1 {
                let rl = render(*l, 1);
                let rr = render(*r, 0);
                let la = rl.len() as int;
                let lb = rr.len() as int;
                assert(seg =~= rl + seq![LexemeV::Symbol(sy)] + rr);
                assert(ln == la + 1 + lb);
                proof_conv_bare(s, cfg, i, e, 1, 0, 3u8, out, stack, la, lb);
                assert(out + postfix_of(*l) + out_part(*r, 0) =~= out + out_part(e, level));
                assert(stack.push(sy) + pend(*r, 0) =~= stack + pend(e, level));
            } else {
                proof_conv_paren(s, cfg, i, e, level, out, stack);
            }
        },
    }
}

/// The parenthesized case of [`lemma_conv_render`]: the opening
/// parenthesis is pushed, the bare body runs over it, and the closing
/// parenthesis flushes the body's pending operators, leaving the whole
/// postfix stream emitted and the stack as it was.
#[verifier::rlimit(100)]
proof fn proof_conv_paren(
    s: Seq<LexemeV>,
    cfg: ConfigV,
    i: int,
    e: ArithExp,
    level: int,
    out: Seq<TokV>,
    stack: Seq<Seq<char>>,
)
    requires
        exp_wf(e),
        0 <= level <= 2,
        e is Bin,
        !(sum_op(e->Bin_0) && level >= 2),
        !(prod_op(e->Bin_0) && level >= 1),
        arith_cfg(cfg),
        arith_stack(stack),
        0 <= i,
        i + render(e, level).len() <= s.len(),
        s.subrange(i, i + render(e, level).len()) == render(e, level),
    ensures
        conv_loop(s, cfg, i, out, stack) == conv_loop(
            s,
            cfg,
            i + render(e, level).len(),
            out + postfix_of(e),
            stack,
        ),
    decreases e, 1int,
{
    lemma_symbol_facts();
    match e {
        ArithExp::Num(_) => {},
        ArithExp::Bin(op, l, r) => {
            let sy = sym_of(op);
            let seg = render(e, level);
            let ln = seg.len() as int;
            let llv: int = if sum_op(op) { 2 } else { 1 };
            let rlv: int = llv - 1;
            let prio: u8 = if sum_op(op) { 2u8 } else { 3u8 };
            let rl = render(*l, llv);
            let rr = render(*r, rlv);
            let la = rl.len() as int;
            let lb = rr.len() as int;
            let body = rl + seq![LexemeV::Symbol(sy)] + rr;
            assert(seg =~= seq![LexemeV::Symbol("("@)] + body + seq![LexemeV::Symbol(")"@)]);
            assert(ln == 1 + la + 1 + lb + 1);
            assert(forall|x: int| 0 <= x < ln ==> s.subrange(i, i + ln)[x] == #[trigger] seg[x]);
            assert(s[i] == seg[0]);
            assert(s[i] == LexemeV::Symbol("("@));
            // the opening parenthesis goes on the stack
            let stack2 = stack.push("("@);
            assert(conv_loop(s, cfg, i, out, stack) == conv_loop(s, cfg, i + 1, out, stack2));
            assert(arith_stack(stack2));
            // the bare body between the parentheses
            assert(s.subrange(i + 1, i + 1 + la + 1 + lb) =~= body) by {
                assert(forall|x: int|
                    0 <= x < la + 1 + lb ==> #[trigger] body[x] == seg[1 + x]);
                assert(forall|x: int|
                    0 <= x < la + 1 + lb ==> #[trigger] s.subrange(i + 1, i + 1 + la + 1 + lb)[x]
                        == s[i + 1 + x]);
                assert(forall|x: int| 0 <= x < ln ==> #[trigger] seg[x] == s[i + x]);
            }
            proof_conv_bare(s, cfg, i + 1, e, llv, rlv, prio, out, stack2, la, lb);
            let out3 = out + postfix_of(*l) + out_part(*r, rlv);
            let stack3 = stack2.push(sy) + pend(*r, rlv);
            let j = i + 1 + la + 1 + lb;
            // the closing parenthesis flushes the body's operators
            assert(s[j] == seg[ln - 1]);
            assert(s[j] == LexemeV::Symbol(")"@));
            lemma_parts(*r, rlv);
            let p = seq![sy] + pend(*r, rlv);
            assert(stack3 =~= stack + seq!["("@] + p);
            assert(p.len() <= 2);
            assert(forall|x: int| 0 <= x < p.len() ==> op_sym(#[trigger] p[x]));
            lemma_close_pend(out3, stack, p, cfg);
            assert(out3 + emit_stack(p) =~= out + postfix_of(e)) by {
                reveal_with_fuel(emit_stack, 4);
                if pend(*r, rlv).len() == 0 {
                    assert(p =~= seq![sy]);
                    assert(p.last() == sy);
                    assert(p.drop_last() =~= Seq::<Seq<char>>::empty());
                    assert(emit_stack(p) =~= seq![TokV::Operation(op)]);
                } else {
                    assert(p.last() == pend(*r, rlv).last());
                    assert(p.drop_last() =~= seq![sy]);
                    assert(pend(*r, rlv).len() == 1);
                    assert(emit_stack(p) =~= emit_stack(pend(*r, rlv)) + seq![
                        TokV::Operation(op),
                    ]) by {
                        assert(seq![sy].last() == sy);
                        assert(seq![sy].drop_last() =~= Seq::<Seq<char>>::empty());
                        assert(pend(*r, rlv).drop_last() =~= Seq::<Seq<char>>::empty());
                    }
                }
                assert(out_part(*r, rlv) + emit_stack(pend(*r, rlv)) == postfix_of(*r));
                assert(out3 + emit_stack(p) =~= out + (postfix_of(*l) + postfix_of(*r) + seq![
                    TokV::Operation(op),
                ]));
            }
            assert(close_paren(out3, stack3, cfg) == Ok::<_, ErrV>((out + postfix_of(e), stack)));
            assert(conv_loop(s, cfg, j, out3, stack3) == conv_loop(
                s,
                cfg,
                j + 1,
                out + postfix_of(e),
                stack,
            ));
        },
    }
}

/// The shared step for a bare binary rendering `l op r`: the left
/// rendering, then the operator popping the left pending, then the right
/// rendering over the pushed operator.
#[verifier::rlimit(100)]
proof fn proof_conv_bare(
    s: Seq<LexemeV>,
    cfg: ConfigV,
    i: int,
    e: ArithExp,
    llv: int,
    rlv: int,
    prio: u8,
    out: Seq<TokV>,
    stack: Seq<Seq<char>>,
    la: int,
    lb: int,
)
    requires
        exp_wf(e),
        e is Bin,
        ({
            let op = e->Bin_0;
            (sum_op(op) && llv == 2 && rlv == 1 && prio == 2) || (prod_op(op) && llv == 1 && rlv
                == 0 && prio == 3)
        }),
        arith_cfg(cfg),
        arith_stack(stack),
        level_ok(stack, llv),
        0 <= i,
        la == render(*e->Bin_1, llv).len(),
        lb == render(*e->Bin_2, rlv).len(),
        i + la + 1 + lb <= s.len(),
        s.subrange(i, i + la + 1 + lb) == render(*e->Bin_1, llv) + seq![
            LexemeV::Symbol(sym_of(e->Bin_0)),
        ] + render(*e->Bin_2, rlv),
    ensures
        conv_loop(s, cfg, i, out, stack) == conv_loop(
            s,
            cfg,
            i + la + 1 + lb,
            out + postfix_of(*e->Bin_1) + out_part(*e->Bin_2, rlv),
            stack.push(sym_of(e->Bin_0)) + pend(*e->Bin_2, rlv),
        ),
    decreases e, 0int,
{
    lemma_symbol_facts();
    match e {
        ArithExp::Num(_) => {},
        ArithExp::Bin(op, bl, br) => {
            let l = *bl;
            let r = *br;
            let sy = sym_of(op);
            let seg = render(l, llv) + seq![LexemeV::Symbol(sy)] + render(r, rlv);
            let ln = la + 1 + lb;
            lemma_render_len(l, llv);
            lemma_render_len(r, rlv);
            assert(s.subrange(i, i + la) =~= render(l, llv)) by {
                assert(forall|x: int| 0 <= x < ln ==> #[trigger] seg[x] == s[i + x]) by {
                    assert(forall|x: int|
                        0 <= x < ln ==> s.subrange(i, i + ln)[x] == #[trigger] seg[x]);
                }
                assert(forall|x: int| 0 <= x < la ==> #[trigger] render(l, llv)[x] == seg[x]);
                assert(forall|x: int|
                    0 <= x < la ==> #[trigger] s.subrange(i, i + la)[x] == s[i + x]);
            }
            lemma_conv_render(s, cfg, i, l, llv, out, stack);
            let out1 = out + out_part(l, llv);
            let st1 = stack + pend(l, llv);
            assert(i + la < s.len());
            assert(s[i + la] == seg[la]);
            assert(s[i + la] == LexemeV::Symbol(sy));
            assert(sy != "("@ && sy != ")"@ && sy != ","@);
            assert(!cfg.is_function(sy));
            assert(cfg.priority_of(sy) == Some(prio));
            lemma_parts(l, llv);
            lemma_pop_pend(out1, stack, pend(l, llv), cfg, prio);
            assert(pop_ge(out1, st1, cfg, prio) == Ok::<_, ErrV>(
                (out1 + emit_stack(pend(l, llv)), stack),
            ));
            assert(out1 + emit_stack(pend(l, llv)) =~= out + postfix_of(l)) by {
                assert(out_part(l, llv) + emit_stack(pend(l, llv)) == postfix_of(l));
            }
            assert(conv_loop(s, cfg, i + la, out1, st1) == conv_loop(
                s,
                cfg,
                i + la + 1,
                out + postfix_of(l),
                stack.push(sy),
            ));
            assert(s.subrange(i + la + 1, i + ln) =~= render(r, rlv)) by {
                assert(forall|x: int| 0 <= x < ln ==> #[trigger] seg[x] == s[i + x]) by {
                    assert(forall|x: int|
                        0 <= x < ln ==> s.subrange(i, i + ln)[x] == #[trigger] seg[x]);
                }
                assert(forall|x: int|
                    0 <= x < lb ==> #[trigger] render(r, rlv)[x] == seg[la + 1 + x]);
                assert(forall|x: int|
                    0 <= x < lb ==> #[trigger] s.subrange(i + la + 1, i + ln)[x] == s[i + la + 1
                        + x]);
            }
            assert(arith_stack(stack.push(sy)));
            assert(level_ok(stack.push(sy), rlv));
            lemma_conv_render(s, cfg, i + la + 1, r, rlv, out + postfix_of(l), stack.push(sy));
            assert(out + postfix_of(l) + out_part(r, rlv) =~= (out + postfix_of(l)) + out_part(
                r,
                rlv,
            ));
        },
    }
}

/// TESTABLE LAW, converter half: for every arithmetic expression, the
/// infix-to-postfix converter run on the expression's standard infix
/// rendering — left-associative, `* /` binding tighter than `+ -`,
/// parentheses only where the structure needs them — yields exactly the
/// expression's postfix stream.
pub proof fn theorem_convert_renders_postfix(e: ArithExp, cfg: ConfigV)
    requires
        exp_wf(e),
        arith_cfg(cfg),
    ensures
        convert(render_exp(e), cfg) == Ok::<Seq<TokV>, ErrV>(postfix_of(e)),
{
    let s = render_exp(e);
    assert(s.subrange(0, s.len() as int) =~= s);
    let empty_out = Seq::<TokV>::empty();
    let empty_stack = Seq::<Seq<char>>::empty();
    lemma_conv_render(s, cfg, 0, e, 2, empty_out, empty_stack);
    lemma_parts(e, 2);
    lemma_end_pend(empty_out + out_part(e, 2), empty_stack + pend(e, 2), cfg);
    assert(empty_stack + pend(e, 2) =~= pend(e, 2));
    assert(empty_out + out_part(e, 2) =~= out_part(e, 2));
    assert(out_part(e, 2) + emit_stack(pend(e, 2)) == postfix_of(e));
}

/// TESTABLE LAW, parsing halves together: converting an arithmetic
/// expression's standard infix rendering and building the tree from the
/// resulting postfix stream yields exactly the expression's tree, so
/// whatever is computed from the built tree is computed from the
/// expression itself, by standard precedence.
pub proof fn theorem_infix_pipeline(e: ArithExp, cfg: ConfigV)
    requires
        exp_wf(e),
        arith_cfg(cfg),
    ensures
        convert(render_exp(e), cfg) == Ok::<Seq<TokV>, ErrV>(postfix_of(e)),
        build(postfix_of(e), cfg) == Ok::<NodeV, ErrV>(tree_of(e)),
{
    theorem_convert_renders_postfix(e, cfg);
    theorem_build_inverts_postfix(e, cfg);
}

/// One oracle-driven step: an outstanding task is answered at once by
/// the oracle — the host's arithmetic —, anything else is an ordinary
/// machine step.
pub open spec fn step_oracle(
    m: MachineV,
    st: Map<Seq<char>, Scalar>,
    oracle: spec_fn(TaskV) -> Scalar,
) -> (MachineV, Map<Seq<char>, Scalar>) {
    if m.pending is Some {
        (provide_spec(m, oracle(m.pending->0)), st)
    } else {
        step_spec(m, st)
    }
}

/// The machine and state after `k` oracle-driven steps.
pub open spec fn run_oracle(
    m: MachineV,
    st: Map<Seq<char>, Scalar>,
    oracle: spec_fn(TaskV) -> Scalar,
    k: nat,
) -> (MachineV, Map<Seq<char>, Scalar>)
    decreases k,
{
    if k == 0 {
        (m, st)
    } else {
        let n = step_oracle(m, st, oracle);
        run_oracle(n.0, n.1, oracle, (k - 1) as nat)
    }
}

proof fn lemma_run_oracle_add(
    m: MachineV,
    st: Map<Seq<char>, Scalar>,
    oracle: spec_fn(TaskV) -> Scalar,
    k1: nat,
    k2: nat,
)
    ensures
        run_oracle(m, st, oracle, k1 + k2) == run_oracle(
            run_oracle(m, st, oracle, k1).0,
            run_oracle(m, st, oracle, k1).1,
            oracle,
            k2,
        ),
    decreases k1,
{
    if k1 > 0 {
        let n = step_oracle(m, st, oracle);
        lemma_run_oracle_add(n.0, n.1, oracle, (k1 - 1) as nat, k2);
        assert(k1 + k2 - 1 == (k1 - 1) as nat + k2);
    }
}

/// How many oracle-driven steps evaluating an expression takes: one per
/// resolved number, two per literal and per operator — the step that
/// raises the task and the answer.
pub open spec fn steps_of(e: ArithExp) -> nat
    decreases e,
{
    match e {
        ArithExp::Num(n) => match n {
            NumericV::Value(_) => 1,
            NumericV::Literal(_) => 2,
        },
        ArithExp::Bin(_, l, r) => steps_of(*l) + steps_of(*r) + 2,
    }
}

/// The value of an expression under an oracle giving the numeric
/// semantics: literals and operator applications are the oracle's
/// answers, evaluated left operand first.
pub open spec fn eval_exp(e: ArithExp, oracle: spec_fn(TaskV) -> Scalar) -> Scalar
    decreases e,
{
    match e {
        ArithExp::Num(n) => match n {
            NumericV::Value(v) => v,
            NumericV::Literal(t) => oracle(TaskV::ReadNumber(t)),
        },
        ArithExp::Bin(op, l, r) => oracle(
            TaskV::BinOp(op, eval_exp(*l, oracle), eval_exp(*r, oracle)),
        ),
    }
}

/// The two steps of an operator application: the task goes out with the
/// two topmost values and the oracle's answer replaces them.
#[verifier::rlimit(100)]
proof fn lemma_apply_steps(
    m: MachineV,
    st: Map<Seq<char>, Scalar>,
    oracle: spec_fn(TaskV) -> Scalar,
    op: OperationType,
    base: Seq<Opnd>,
    vl: Scalar,
    vr: Scalar,
)
    requires
        m.finished is None,
        m.pending is None,
        0 <= m.pos < m.items.len(),
        m.items[m.pos] == ItemV::ApplyOp(op),
        m.opnds == base.push(Opnd::Value(vl)).push(Opnd::Value(vr)),
    ensures
        run_oracle(m, st, oracle, 2) == (
            MachineV {
                pos: m.pos + 1,
                opnds: base.push(Opnd::Value(oracle(TaskV::BinOp(op, vl, vr)))),
                ..m
            },
            st,
        ),
{
    reveal_with_fuel(run_oracle, 4);
    assert(m.opnds.len() >= 2);
    assert(m.opnds.last() == Opnd::Value(vr));
    assert(m.opnds[m.opnds.len() - 2] == Opnd::Value(vl));
    let n1 = step_oracle(m, st, oracle);
    assert(n1.0.pending == Some(TaskV::BinOp(op, vl, vr)));
    assert(n1.0.opnds =~= base) by {
        assert(m.opnds.subrange(0, m.opnds.len() - 2) =~= base);
    }
    let n2 = step_oracle(n1.0, n1.1, oracle);
    assert(n2.0 =~= MachineV {
        pos: m.pos + 1,
        opnds: base.push(Opnd::Value(oracle(TaskV::BinOp(op, vl, vr)))),
        ..m
    });
}

/// The step or two of a number item: a resolved scalar is pushed at
/// once, a literal raises its task and the oracle's answer is pushed.
#[verifier::rlimit(100)]
proof fn lemma_num_steps(
    m: MachineV,
    st: Map<Seq<char>, Scalar>,
    oracle: spec_fn(TaskV) -> Scalar,
    n: NumericV,
)
    requires
        m.finished is None,
        m.pending is None,
        0 <= m.pos < m.items.len(),
        m.items[m.pos] == (match n {
            NumericV::Value(v) => ItemV::PushValue(v),
            NumericV::Literal(t) => ItemV::PushLiteral(t),
        }),
    ensures
        run_oracle(m, st, oracle, steps_of(ArithExp::Num(n))) == (
            MachineV {
                pos: m.pos + 1,
                opnds: m.opnds.push(Opnd::Value(eval_exp(ArithExp::Num(n), oracle))),
                ..m
            },
            st,
        ),
{
    reveal_with_fuel(run_oracle, 3);
    match n {
        NumericV::Value(v) => {
            let n1 = step_oracle(m, st, oracle);
            assert(n1.0 =~= MachineV {
                pos: m.pos + 1,
                opnds: m.opnds.push(Opnd::Value(v)),
                ..m
            });
        },
        NumericV::Literal(t) => {
            let n1 = step_oracle(m, st, oracle);
            assert(n1.0.pending == Some(TaskV::ReadNumber(t)));
            let n2 = step_oracle(n1.0, n1.1, oracle);
            assert(n2.0 =~= MachineV {
                pos: m.pos + 1,
                opnds: m.opnds.push(Opnd::Value(oracle(TaskV::ReadNumber(t)))),
                ..m
            });
        },
    }
}

/// Running the machine over an expression's item segment pushes exactly
/// the expression's value and touches neither the state nor anything
/// beneath it on the operand stack.
#[verifier::rlimit(100)]
proof fn lemma_machine_eval(
    m: MachineV,
    st: Map<Seq<char>, Scalar>,
    oracle: spec_fn(TaskV) -> Scalar,
    e: ArithExp,
)
    requires
        exp_wf(e),
        m.finished is None,
        m.pending is None,
        0 <= m.pos,
        m.pos + items_of(tree_of(e)).len() <= m.items.len(),
        m.items.subrange(m.pos, m.pos + items_of(tree_of(e)).len()) == items_of(tree_of(e)),
    ensures
        run_oracle(m, st, oracle, steps_of(e)) == (
            MachineV {
                pos: m.pos + items_of(tree_of(e)).len(),
                opnds: m.opnds.push(Opnd::Value(eval_exp(e, oracle))),
                ..m
            },
            st,
        ),
    decreases e, 1int,
{
    match e {
        ArithExp::Num(n) => {
            assert(m.items[m.pos] == items_of(tree_of(e))[0]);
            lemma_num_steps(m, st, oracle, n);
        },
        ArithExp::Bin(_, _, _) => {
            lemma_machine_eval_bin(m, st, oracle, e);
        },
    }
}

/// A subsegment of a segment of a sequence is the matching subsegment
/// of the segment.
proof fn lemma_sub_sub(outer: Seq<ItemV>, i: int, seg: Seq<ItemV>, a: int, b: int)
    requires
        0 <= i,
        i + seg.len() <= outer.len(),
        outer.subrange(i, i + seg.len()) == seg,
        0 <= a <= b <= seg.len(),
    ensures
        outer.subrange(i + a, i + b) == seg.subrange(a, b),
{
    assert(forall|x: int|
        0 <= x < seg.len() ==> #[trigger] seg[x] == outer.subrange(i, i + seg.len())[x]);
    assert(outer.subrange(i + a, i + b) =~= seg.subrange(a, b)) by {
        assert(forall|x: int|
            0 <= x < b - a ==> #[trigger] outer.subrange(i + a, i + b)[x] == outer[i + a + x]);
        assert(forall|x: int|
            0 <= x < seg.len() ==> #[trigger] outer.subrange(i, i + seg.len())[x] == outer[i + x]);
    }
}

/// The item segment of an operator tree: the left operand's items, the
/// right operand's items, then the application.
proof fn lemma_items_bin(e: ArithExp)
    requires
        exp_wf(e),
        e is Bin,
    ensures
        items_of(tree_of(e)) == items_of(tree_of(*e->Bin_1)) + items_of(tree_of(*e->Bin_2))
            + seq![ItemV::ApplyOp(e->Bin_0)],
        items_of(tree_of(e)).subrange(0, items_of(tree_of(*e->Bin_1)).len() as int) == items_of(
            tree_of(*e->Bin_1),
        ),
        items_of(tree_of(e)).subrange(
            items_of(tree_of(*e->Bin_1)).len() as int,
            items_of(tree_of(*e->Bin_1)).len() + items_of(tree_of(*e->Bin_2)).len() as int,
        ) == items_of(tree_of(*e->Bin_2)),
        items_of(tree_of(e)).len() == items_of(tree_of(*e->Bin_1)).len() + items_of(
            tree_of(*e->Bin_2),
        ).len() + 1,
        items_of(tree_of(e))[items_of(tree_of(*e->Bin_1)).len() + items_of(
            tree_of(*e->Bin_2),
        ).len() as int] == ItemV::ApplyOp(e->Bin_0),
{
    match e {
        ArithExp::Num(_) => {},
        ArithExp::Bin(op, l, r) => {
            let il = items_of(tree_of(*l));
            let ir = items_of(tree_of(*r));
            assert(!(op == OperationType::Assign) && !(op == OperationType::Create));
            assert(tree_of(e).children =~= seq![tree_of(*l), tree_of(*r)]);
            assert(items_of(tree_of(e)) =~= il + ir + seq![ItemV::ApplyOp(op)]) by {
                assert(items_of(tree_of(e)) == items_of_list(tree_of(e).children) + seq![
                    ItemV::ApplyOp(op),
                ]);
                reveal_with_fuel(items_of_list, 4);
                assert(tree_of(e).children.drop_first() =~= seq![tree_of(*r)]);
                assert(seq![tree_of(*r)].drop_first() =~= Seq::<NodeV>::empty());
                assert(items_of_list(tree_of(e).children) =~= il + (ir + Seq::<ItemV>::empty()));
            }
            assert(items_of(tree_of(e)).subrange(0, il.len() as int) =~= il);
            assert(items_of(tree_of(e)).subrange(
                il.len() as int,
                il.len() + ir.len() as int,
            ) =~= ir);
        },
    }
}

/// The operator case of [`lemma_machine_eval`]: both operand segments
/// run in order, then the application task goes out and is answered.
#[verifier::rlimit(100)]
proof fn lemma_machine_eval_bin(
    m: MachineV,
    st: Map<Seq<char>, Scalar>,
    oracle: spec_fn(TaskV) -> Scalar,
    e: ArithExp,
)
    requires
        exp_wf(e),
        e is Bin,
        m.finished is None,
        m.pending is None,
        0 <= m.pos,
        m.pos + items_of(tree_of(e)).len() <= m.items.len(),
        m.items.subrange(m.pos, m.pos + items_of(tree_of(e)).len()) == items_of(tree_of(e)),
    ensures
        run_oracle(m, st, oracle, steps_of(e)) == (
            MachineV {
                pos: m.pos + items_of(tree_of(e)).len(),
                opnds: m.opnds.push(Opnd::Value(eval_exp(e, oracle))),
                ..m
            },
            st,
        ),
    decreases e, 0int,
{
    match e {
        ArithExp::Num(_) => {},
        ArithExp::Bin(op, l, r) => {
            let il = items_of(tree_of(*l));
            let ir = items_of(tree_of(*r));
            let ll = il.len() as int;
            let lr = ir.len() as int;
            let seg = items_of(tree_of(e));
            let ln = seg.len() as int;
            lemma_items_bin(e);
            lemma_sub_sub(m.items, m.pos, seg, 0, ll);
            assert(m.items.subrange(m.pos, m.pos + ll) == il);
            lemma_machine_eval(m, st, oracle, *l);
            let vl = eval_exp(*l, oracle);
            let m1 = MachineV { pos: m.pos + ll, opnds: m.opnds.push(Opnd::Value(vl)), ..m };
            lemma_sub_sub(m.items, m.pos, seg, ll, ll + lr);
            assert(m1.items.subrange(m1.pos, m1.pos + lr) == ir);
            lemma_machine_eval(m1, st, oracle, *r);
            let vr = eval_exp(*r, oracle);
            let m2 = MachineV {
                pos: m.pos + ll + lr,
                opnds: m.opnds.push(Opnd::Value(vl)).push(Opnd::Value(vr)),
                ..m
            };
            // the operator raises its task and the oracle answers it
            assert(m2.items[m2.pos] == ItemV::ApplyOp(op)) by {
                assert(seg[ll + lr] == ItemV::ApplyOp(op));
                assert(m.items.subrange(m.pos, m.pos + ln)[ll + lr] == seg[ll + lr]);
            }
            lemma_apply_steps(m2, st, oracle, op, m.opnds, vl, vr);
            assert(run_oracle(m2, st, oracle, 2) == (
                MachineV {
                    pos: m.pos + ln,
                    opnds: m.opnds.push(Opnd::Value(eval_exp(e, oracle))),
                    ..m
                },
                st,
            ));
            // compose the three stages
            lemma_run_oracle_add(m, st, oracle, steps_of(*l), steps_of(*r) + 2);
            lemma_run_oracle_add(m1, st, oracle, steps_of(*r), 2);
            assert(steps_of(e) == steps_of(*l) + (steps_of(*r) + 2));
        },
    }
}

/// TESTABLE LAW, evaluation half: a fresh machine for an arithmetic
/// expression's tree, run with any oracle for the numeric semantics,
/// finishes with exactly the expression's value under that oracle, and
/// leaves the variable state untouched.
pub proof fn theorem_tree_evaluates(
    e: ArithExp,
    st: Map<Seq<char>, Scalar>,
    oracle: spec_fn(TaskV) -> Scalar,
)
    requires
        exp_wf(e),
    ensures
        run_oracle(initial_machine(stmt_items(tree_of(e))), st, oracle, steps_of(e) + 1) == (
            MachineV {
                finished: Some(Ok(Some(eval_exp(e, oracle)))),
                ..run_oracle(initial_machine(stmt_items(tree_of(e))), st, oracle, steps_of(e)).0
            },
            st,
        ),
{
    let m0 = initial_machine(stmt_items(tree_of(e)));
    let items = stmt_items(tree_of(e));
    let li = items_of(tree_of(e)).len() as int;
    assert(m0.items.subrange(0, li) =~= items_of(tree_of(e))) by {
        assert(forall|x: int|
            0 <= x < li ==> #[trigger] items[x] == items_of(tree_of(e))[x]);
    }
    lemma_machine_eval(m0, st, oracle, e);
    let v = eval_exp(e, oracle);
    let m1 = MachineV { pos: li, opnds: m0.opnds.push(Opnd::Value(v)), ..m0 };
    assert(run_oracle(m0, st, oracle, steps_of(e)) == (m1, st));
    assert(items[li] == ItemV::EndStmt);
    assert(m1.items[m1.pos] == ItemV::EndStmt);
    assert(m1.opnds.len() == 1);
    assert(m1.opnds.last() == Opnd::Value(v));
    let n1 = step_oracle(m1, st, oracle);
    assert(n1.0 =~= MachineV { finished: Some(Ok(Some(v))), ..m1 });
    lemma_run_oracle_add(m0, st, oracle, steps_of(e), 1);
    assert(run_oracle(m1, st, oracle, 1) == (n1.0, st)) by {
        reveal_with_fuel(run_oracle, 3);
    }
    assert(run_oracle(m0, st, oracle, steps_of(e) + 1) == (n1.0, st));
}

/// TESTABLE LAW, whole pipeline: for every arithmetic expression in its
/// standard infix rendering, postfix conversion yields the expression's
/// postfix stream, tree building yields the expression's tree, and the
/// evaluator run on that tree yields exactly the value of evaluating the
/// infix expression directly by standard precedence — left-associative,
/// `* /` binding tighter than `+ -` — under any numeric semantics.
pub proof fn theorem_infix_roundtrip(
    e: ArithExp,
    cfg: ConfigV,
    st: Map<Seq<char>, Scalar>,
    oracle: spec_fn(TaskV) -> Scalar,
)
    requires
        exp_wf(e),
        arith_cfg(cfg),
    ensures
        convert(render_exp(e), cfg) == Ok::<Seq<TokV>, ErrV>(postfix_of(e)),
        build(postfix_of(e), cfg) == Ok::<NodeV, ErrV>(tree_of(e)),
        run_oracle(initial_machine(stmt_items(tree_of(e))), st, oracle, steps_of(e) + 1).0.finished
            == Some(Ok::<Option<Scalar>, ErrV>(Some(eval_exp(e, oracle)))),
        run_oracle(initial_machine(stmt_items(tree_of(e))), st, oracle, steps_of(e) + 1).1 == st,
{
    theorem_convert_renders_postfix(e, cfg);
    theorem_build_inverts_postfix(e, cfg);
    theorem_tree_evaluates(e, st, oracle);
}

/// The structural parentheses the block parser adds around a statement
/// change nothing: converting a wrapped rendering still yields exactly
/// the expression's postfix stream.
pub proof fn theorem_wrap_converts(e: ArithExp, cfg: ConfigV)
    requires
        exp_wf(e),
        arith_cfg(cfg),
    ensures
        convert(
            seq![LexemeV::Symbol("("@)] + render_exp(e) + seq![LexemeV::Symbol(")"@)],
            cfg,
        ) == Ok::<Seq<TokV>, ErrV>(postfix_of(e)),
{
    lemma_symbol_facts();
    let body = render_exp(e);
    let lw = body.len() as int;
    let s = seq![LexemeV::Symbol("("@)] + body + seq![LexemeV::Symbol(")"@)];
    let empty_out = Seq::<TokV>::empty();
    let empty_stack = Seq::<Seq<char>>::empty();
    assert(s[0] == LexemeV::Symbol("("@));
    let stack1 = empty_stack.push("("@);
    assert(conv_loop(s, cfg, 0, empty_out, empty_stack) == conv_loop(s, cfg, 1, empty_out, stack1));
    assert(s.subrange(1, 1 + lw) =~= body) by {
        assert(forall|x: int|
            0 <= x < lw ==> #[trigger] s.subrange(1, 1 + lw)[x] == s[1 + x]);
        assert(forall|x: int| 0 <= x < lw ==> #[trigger] body[x] == s[1 + x]);
    }
    assert(arith_stack(stack1)) by {
        assert(forall|i: int| 0 <= i < stack1.len() ==> arith_sym(#[trigger] stack1[i]));
    }
    lemma_conv_render(s, cfg, 1, e, 2, empty_out, stack1);
    lemma_parts(e, 2);
    let out2 = empty_out + out_part(e, 2);
    let stack2 = stack1 + pend(e, 2);
    assert(s[1 + lw] == LexemeV::Symbol(")"@));
    assert(stack2 =~= empty_stack + seq!["("@] + pend(e, 2));
    lemma_close_pend(out2, empty_stack, pend(e, 2), cfg);
    assert(out2 + emit_stack(pend(e, 2)) =~= postfix_of(e)) by {
        assert(out_part(e, 2) + emit_stack(pend(e, 2)) == postfix_of(e));
    }
    assert(conv_loop(s, cfg, 1 + lw, out2, stack2) == conv_loop(
        s,
        cfg,
        2 + lw,
        postfix_of(e),
        empty_stack,
    ));
    assert(conv_loop(s, cfg, 2 + lw, postfix_of(e), empty_stack) == end_flush(
        postfix_of(e),
        empty_stack,
        cfg,
    ));
}

/// The next position, forced strictly forward and into range;
/// sub-parses always move forward and stay in range, so on every
/// reachable path this is the identity.
pub open spec fn adv(s: Seq<LexemeV>, i: int, j: int) -> int {
    if i < j <= s.len() {
        j
    } else {
        i + 1
    }
}

/// The standard grammar of arithmetic infix text, an atom: a number, or
/// a parenthesized expression.
pub open spec fn parse_atom(s: Seq<LexemeV>, i: int) -> Option<(ArithExp, int)>
    decreases s.len() - i, 0int,
{
    if i < 0 || i >= s.len() {
        None
    } else {
        match s[i] {
            LexemeV::Number(n) => Some((ArithExp::Num(n), i + 1)),
            LexemeV::Symbol(sym) => if sym == "("@ {
                match parse_sum(s, i + 1) {
                    Some(r) => if r.1 < s.len() && s[r.1] == LexemeV::Symbol(")"@) {
                        Some((r.0, r.1 + 1))
                    } else {
                        None
                    },
                    None => None,
                }
            } else {
                None
            },
            _ => None,
        }
    }
}

/// A product: an atom followed by any run of `*` and `/` applications,
/// folded to the left.
pub open spec fn parse_prod(s: Seq<LexemeV>, i: int) -> Option<(ArithExp, int)>
    decreases s.len() - i, 2int,
{
    if i < 0 || i >= s.len() {
        None
    } else {
        match parse_atom(s, i) {
            Some(r) => parse_prod_tail(s, adv(s, i, r.1), r.0),
            None => None,
        }
    }
}

/// The multiplicative run after a first factor, folding to the left.
pub open spec fn parse_prod_tail(s: Seq<LexemeV>, j: int, acc: ArithExp) -> Option<
    (ArithExp, int),
>
    decreases s.len() - j, 1int,
{
    if 0 <= j < s.len() && (s[j] == LexemeV::Symbol("*"@) || s[j] == LexemeV::Symbol("/"@)) {
        let op = if s[j] == LexemeV::Symbol("*"@) {
            OperationType::Mul
        } else {
            OperationType::Div
        };
        match parse_atom(s, j + 1) {
            Some(r) => parse_prod_tail(
                s,
                adv(s, j, r.1),
                ArithExp::Bin(op, Box::new(acc), Box::new(r.0)),
            ),
            None => None,
        }
    } else {
        Some((acc, j))
    }
}

/// A sum: a product followed by any run of `+` and `-` applications,
/// folded to the left.  This is the start symbol: a lexeme sequence is a
/// well-formed arithmetic expression exactly when `parse_sum` consumes
/// all of it.
pub open spec fn parse_sum(s: Seq<LexemeV>, i: int) -> Option<(ArithExp, int)>
    decreases s.len() - i, 4int,
{
    if i < 0 || i >= s.len() {
        None
    } else {
        match parse_prod(s, i) {
            Some(r) => parse_sum_tail(s, adv(s, i, r.1), r.0),
            None => None,
        }
    }
}

/// The additive run after a first term, folding to the left.
pub open spec fn parse_sum_tail(s: Seq<LexemeV>, j: int, acc: ArithExp) -> Option<(ArithExp, int)>
    decreases s.len() - j, 3int,
{
    if 0 <= j < s.len() && (s[j] == LexemeV::Symbol("+"@) || s[j] == LexemeV::Symbol("-"@)) {
        let op = if s[j] == LexemeV::Symbol("+"@) {
            OperationType::Add
        } else {
            OperationType::Sub
        };
        match parse_prod(s, j + 1) {
            Some(r) => parse_sum_tail(
                s,
                adv(s, j, r.1),
                ArithExp::Bin(op, Box::new(acc), Box::new(r.0)),
            ),
            None => None,
        }
    } else {
        Some((acc, j))
    }
}

/// Every successful sub-parse moves strictly forward and stays within
/// the input, so the forced forward step of [`adv`] never fires.
proof fn lemma_parse_atom_bounds(s: Seq<LexemeV>, i: int)
    requires
        0 <= i <= s.len(),
    ensures
        parse_atom(s, i) matches Some(r) ==> i < r.1 <= s.len(),
    decreases s.len() - i, 0int,
{
    if i < s.len() {
        match s[i] {
            LexemeV::Symbol(sym) => {
                if sym == "("@ {
                    lemma_parse_sum_bounds(s, i + 1);
                }
            },
            _ => {},
        }
    }
}

proof fn lemma_parse_prod_bounds(s: Seq<LexemeV>, i: int)
    requires
        0 <= i <= s.len(),
    ensures
        parse_prod(s, i) matches Some(r) ==> i < r.1 <= s.len(),
    decreases s.len() - i, 2int,
{
    lemma_parse_atom_bounds(s, i);
    match parse_atom(s, i) {
        Some(r) => {
            lemma_parse_prod_tail_bounds(s, r.1, r.0);
            assert(adv(s, i, r.1) == r.1);
        },
        None => {},
    }
}

proof fn lemma_parse_prod_tail_bounds(s: Seq<LexemeV>, j: int, acc: ArithExp)
    requires
        0 <= j <= s.len(),
    ensures
        parse_prod_tail(s, j, acc) matches Some(r) ==> j <= r.1 <= s.len(),
    decreases s.len() - j, 1int,
{
    if 0 <= j < s.len() && (s[j] == LexemeV::Symbol("*"@) || s[j] == LexemeV::Symbol("/"@)) {
        lemma_parse_atom_bounds(s, j + 1);
        let op = if s[j] == LexemeV::Symbol("*"@) {
            OperationType::Mul
        } else {
            OperationType::Div
        };
        match parse_atom(s, j + 1) {
            Some(r) => {
                assert(adv(s, j, r.1) == r.1);
                lemma_parse_prod_tail_bounds(
                    s,
                    r.1,
                    ArithExp::Bin(op, Box::new(acc), Box::new(r.0)),
                );
            },
            None => {},
        }
    }
}

proof fn lemma_parse_sum_bounds(s: Seq<LexemeV>, i: int)
    requires
        0 <= i <= s.len(),
    ensures
        parse_sum(s, i) matches Some(r) ==> i < r.1 <= s.len(),
    decreases s.len() - i, 4int,
{
    lemma_parse_prod_bounds(s, i);
    match parse_prod(s, i) {
        Some(r) => {
            lemma_parse_sum_tail_bounds(s, r.1, r.0);
            assert(adv(s, i, r.1) == r.1);
        },
        None => {},
    }
}

proof fn lemma_parse_sum_tail_bounds(s: Seq<LexemeV>, j: int, acc: ArithExp)
    requires
        0 <= j <= s.len(),
    ensures
        parse_sum_tail(s, j, acc) matches Some(r) ==> j <= r.1 <= s.len(),
    decreases s.len() - j, 3int,
{
    if 0 <= j < s.len() && (s[j] == LexemeV::Symbol("+"@) || s[j] == LexemeV::Symbol("-"@)) {
        lemma_parse_prod_bounds(s, j + 1);
        let op = if s[j] == LexemeV::Symbol("+"@) {
            OperationType::Add
        } else {
            OperationType::Sub
        };
        match parse_prod(s, j + 1) {
            Some(r) => {
                assert(adv(s, j, r.1) == r.1);
                lemma_parse_sum_tail_bounds(
                    s,
                    r.1,
                    ArithExp::Bin(op, Box::new(acc), Box::new(r.0)),
                );
            },
            None => {},
        }
    }
}

/// Whatever the grammar accepts is a well-formed arithmetic expression.
proof fn lemma_parse_atom_wf(s: Seq<LexemeV>, i: int)
    requires
        0 <= i <= s.len(),
    ensures
        parse_atom(s, i) matches Some(r) ==> exp_wf(r.0),
    decreases s.len() - i, 0int,
{
    if i < s.len() {
        match s[i] {
            LexemeV::Symbol(sym) => {
                if sym == "("@ {
                    lemma_parse_sum_wf(s, i + 1);
                }
            },
            _ => {},
        }
    }
}

proof fn lemma_parse_prod_wf(s: Seq<LexemeV>, i: int)
    requires
        0 <= i <= s.len(),
    ensures
        parse_prod(s, i) matches Some(r) ==> exp_wf(r.0),
    decreases s.len() - i, 2int,
{
    lemma_parse_atom_wf(s, i);
    lemma_parse_atom_bounds(s, i);
    match parse_atom(s, i) {
        Some(r) => {
            lemma_parse_prod_tail_wf(s, r.1, r.0);
            assert(adv(s, i, r.1) == r.1);
        },
        None => {},
    }
}

proof fn lemma_parse_prod_tail_wf(s: Seq<LexemeV>, j: int, acc: ArithExp)
    requires
        0 <= j <= s.len(),
    ensures
        exp_wf(acc) ==> (parse_prod_tail(s, j, acc) matches Some(r) ==> exp_wf(r.0)),
    decreases s.len() - j, 1int,
{
    if 0 <= j < s.len() && (s[j] == LexemeV::Symbol("*"@) || s[j] == LexemeV::Symbol("/"@)) {
        lemma_parse_atom_wf(s, j + 1);
        lemma_parse_atom_bounds(s, j + 1);
        let op = if s[j] == LexemeV::Symbol("*"@) {
            OperationType::Mul
        } else {
            OperationType::Div
        };
        match parse_atom(s, j + 1) {
            Some(r) => {
                assert(adv(s, j, r.1) == r.1);
                lemma_parse_prod_tail_wf(
                    s,
                    r.1,
                    ArithExp::Bin(op, Box::new(acc), Box::new(r.0)),
                );
            },
            None => {},
        }
    }
}

proof fn lemma_parse_sum_wf(s: Seq<LexemeV>, i: int)
    requires
        0 <= i <= s.len(),
    ensures
        parse_sum(s, i) matches Some(r) ==> exp_wf(r.0),
    decreases s.len() - i, 4int,
{
    lemma_parse_prod_wf(s, i);
    lemma_parse_prod_bounds(s, i);
    match parse_prod(s, i) {
        Some(r) => {
            lemma_parse_sum_tail_wf(s, r.1, r.0);
            assert(adv(s, i, r.1) == r.1);
        },
        None => {},
    }
}

proof fn lemma_parse_sum_tail_wf(s: Seq<LexemeV>, j: int, acc: ArithExp)
    requires
        0 <= j <= s.len(),
    ensures
        exp_wf(acc) ==> (parse_sum_tail(s, j, acc) matches Some(r) ==> exp_wf(r.0)),
    decreases s.len() - j, 3int,
{
    if 0 <= j < s.len() && (s[j] == LexemeV::Symbol("+"@) || s[j] == LexemeV::Symbol("-"@)) {
        lemma_parse_prod_wf(s, j + 1);
        lemma_parse_prod_bounds(s, j + 1);
        let op = if s[j] == LexemeV::Symbol("+"@) {
            OperationType::Add
        } else {
            OperationType::Sub
        };
        match parse_prod(s, j + 1) {
            Some(r) => {
                assert(adv(s, j, r.1) == r.1);
                lemma_parse_sum_tail_wf(
                    s,
                    r.1,
                    ArithExp::Bin(op, Box::new(acc), Box::new(r.0)),
                );
            },
            None => {},
        }
    }
}

/// A pending stack as an additive run leaves it: at most an additive
/// and a multiplicative operator.
pub open spec fn pd_any(p: Seq<Seq<char>>) -> bool {
    p.len() <= 2 && (forall|i: int| 0 <= i < p.len() ==> op_sym(#[trigger] p[i]))
}

/// A pending stack as a multiplicative run leaves it: at most one
/// multiplicative operator.
pub open spec fn pd_mul(p: Seq<Seq<char>>) -> bool {
    p.len() <= 1 && (forall|i: int| 0 <= i < p.len() ==> mul_sym(#[trigger] p[i]))
}

/// Reading an atom of the grammar converts to exactly its postfix
/// stream, leaving the stack as it was.
#[verifier::rlimit(100)]
proof fn lemma_conv_atom(
    s: Seq<LexemeV>,
    cfg: ConfigV,
    i: int,
    out: Seq<TokV>,
    stack: Seq<Seq<char>>,
)
    requires
        arith_cfg(cfg),
        arith_stack(stack),
        0 <= i <= s.len(),
    ensures
        parse_atom(s, i) matches Some(r) ==> conv_loop(s, cfg, i, out, stack) == conv_loop(
            s,
            cfg,
            r.1,
            out + postfix_of(r.0),
            stack,
        ),
    decreases s.len() - i, 0int,
{
    lemma_symbol_facts();
    if i < s.len() {
        match s[i] {
            LexemeV::Number(n) => {
                assert(out + postfix_of(ArithExp::Num(n)) =~= out.push(TokV::Number(n)));
            },
            LexemeV::Symbol(sym) => {
                if sym == "("@ {
                    lemma_parse_sum_bounds(s, i + 1);
                    match parse_sum(s, i + 1) {
                        Some(r) => {
                            if r.1 < s.len() && s[r.1] == LexemeV::Symbol(")"@) {
                                let stack2 = stack.push("("@);
                                assert(conv_loop(s, cfg, i, out, stack) == conv_loop(
                                    s,
                                    cfg,
                                    i + 1,
                                    out,
                                    stack2,
                                ));
                                assert(arith_stack(stack2));
                                assert(level_ok(stack2, 2));
                                let w = lemma_conv_sum(s, cfg, i + 1, out, stack2);
                                assert(stack2 + w.1 =~= stack + seq!["("@] + w.1);
                                lemma_close_pend(w.0, stack, w.1, cfg);
                                assert(conv_loop(s, cfg, r.1, w.0, stack2 + w.1) == conv_loop(
                                    s,
                                    cfg,
                                    r.1 + 1,
                                    out + postfix_of(r.0),
                                    stack,
                                ));
                            }
                        },
                        None => {},
                    }
                }
            },
            _ => {},
        }
    }
}

/// Reading a product of the grammar converts to its postfix stream
/// short of at most one pending multiplicative operator; the emitted
/// part and the pending operator are handed back.
#[verifier::rlimit(100)]
proof fn lemma_conv_prod(
    s: Seq<LexemeV>,
    cfg: ConfigV,
    i: int,
    out: Seq<TokV>,
    stack: Seq<Seq<char>>,
) -> (w: (Seq<TokV>, Seq<Seq<char>>))
    requires
        arith_cfg(cfg),
        arith_stack(stack),
        level_ok(stack, 1),
        0 <= i <= s.len(),
    ensures
        parse_prod(s, i) matches Some(r) ==> conv_loop(s, cfg, i, out, stack) == conv_loop(
            s,
            cfg,
            r.1,
            w.0,
            stack + w.1,
        ) && w.0 + emit_stack(w.1) == out + postfix_of(r.0) && pd_mul(w.1),
    decreases s.len() - i, 2int,
{
    lemma_symbol_facts();
    if 0 <= i < s.len() {
        lemma_parse_atom_bounds(s, i);
        match parse_atom(s, i) {
            Some(ra) => {
                lemma_conv_atom(s, cfg, i, out, stack);
                assert(adv(s, i, ra.1) == ra.1);
                let pd0 = Seq::<Seq<char>>::empty();
                assert(stack + pd0 =~= stack);
                assert((out + postfix_of(ra.0)) + emit_stack(pd0) =~= out + postfix_of(ra.0));
                lemma_conv_prod_tail(s, cfg, ra.1, ra.0, out, out + postfix_of(ra.0), pd0, stack)
            },
            None => ((Seq::empty(), Seq::empty())),
        }
    } else {
        ((Seq::empty(), Seq::empty()))
    }
}

/// Reading a multiplicative run converts each further factor, keeping
/// the invariant that the emitted part plus the pending operator is the
/// accumulated expression's postfix stream.
#[verifier::rlimit(100)]
proof fn lemma_conv_prod_tail(
    s: Seq<LexemeV>,
    cfg: ConfigV,
    j: int,
    acc: ArithExp,
    out_base: Seq<TokV>,
    out_cur: Seq<TokV>,
    pd: Seq<Seq<char>>,
    stack: Seq<Seq<char>>,
) -> (w: (Seq<TokV>, Seq<Seq<char>>))
    requires
        arith_cfg(cfg),
        arith_stack(stack),
        level_ok(stack, 1),
        pd_mul(pd),
        out_cur + emit_stack(pd) == out_base + postfix_of(acc),
        0 <= j <= s.len(),
    ensures
        parse_prod_tail(s, j, acc) matches Some(r) ==> conv_loop(s, cfg, j, out_cur, stack + pd)
            == conv_loop(s, cfg, r.1, w.0, stack + w.1) && w.0 + emit_stack(w.1) == out_base
            + postfix_of(r.0) && pd_mul(w.1),
    decreases s.len() - j, 1int,
{
    lemma_symbol_facts();
    if 0 <= j < s.len() && (s[j] == LexemeV::Symbol("*"@) || s[j] == LexemeV::Symbol("/"@)) {
        let sym: Seq<char> = if s[j] == LexemeV::Symbol("*"@) {
            "*"@
        } else {
            "/"@
        };
        let op = if s[j] == LexemeV::Symbol("*"@) {
            OperationType::Mul
        } else {
            OperationType::Div
        };
        assert(s[j] == LexemeV::Symbol(sym));
        assert(!cfg.is_function(sym));
        assert(cfg.priority_of(sym) == Some(3u8));
        lemma_pop_pend(out_cur, stack, pd, cfg, 3);
        assert(conv_loop(s, cfg, j, out_cur, stack + pd) == conv_loop(
            s,
            cfg,
            j + 1,
            out_base + postfix_of(acc),
            stack.push(sym),
        ));
        lemma_parse_atom_bounds(s, j + 1);
        match parse_atom(s, j + 1) {
            Some(ra) => {
                assert(adv(s, j, ra.1) == ra.1);
                assert(arith_stack(stack.push(sym)));
                lemma_conv_atom(s, cfg, j + 1, out_base + postfix_of(acc), stack.push(sym));
                let acc2 = ArithExp::Bin(op, Box::new(acc), Box::new(ra.0));
                let out_cur2 = (out_base + postfix_of(acc)) + postfix_of(ra.0);
                let pd2 = seq![sym];
                assert(stack.push(sym) =~= stack + pd2);
                assert(out_cur2 + emit_stack(pd2) =~= out_base + postfix_of(acc2)) by {
                    reveal_with_fuel(emit_stack, 3);
                    assert(pd2.last() == sym);
                    assert(pd2.drop_last() =~= Seq::<Seq<char>>::empty());
                    assert(op_of(sym) == Some(op));
                    assert(emit_stack(pd2) =~= seq![TokV::Operation(op)]);
                    assert(postfix_of(acc2) =~= postfix_of(acc) + postfix_of(ra.0) + seq![
                        TokV::Operation(op),
                    ]);
                }
                assert(pd_mul(pd2)) by {
                    assert(pd2[0] == sym);
                }
                let w = lemma_conv_prod_tail(s, cfg, ra.1, acc2, out_base, out_cur2, pd2, stack);
                assert(conv_loop(s, cfg, ra.1, out_cur2, stack.push(sym)) == conv_loop(
                    s,
                    cfg,
                    ra.1,
                    out_cur2,
                    stack + pd2,
                ));
                assert(parse_prod_tail(s, j, acc) == parse_prod_tail(s, ra.1, acc2));
                w
            },
            None => ((Seq::empty(), Seq::empty())),
        }
    } else {
        ((out_cur, pd))
    }
}

/// Reading a sum of the grammar converts to its postfix stream short of
/// at most two pending operators; the emitted part and the pending
/// operators are handed back.
#[verifier::rlimit(100)]
proof fn lemma_conv_sum(
    s: Seq<LexemeV>,
    cfg: ConfigV,
    i: int,
    out: Seq<TokV>,
    stack: Seq<Seq<char>>,
) -> (w: (Seq<TokV>, Seq<Seq<char>>))
    requires
        arith_cfg(cfg),
        arith_stack(stack),
        level_ok(stack, 2),
        0 <= i <= s.len(),
    ensures
        parse_sum(s, i) matches Some(r) ==> conv_loop(s, cfg, i, out, stack) == conv_loop(
            s,
            cfg,
            r.1,
            w.0,
            stack + w.1,
        ) && w.0 + emit_stack(w.1) == out + postfix_of(r.0) && pd_any(w.1),
    decreases s.len() - i, 4int,
{
    lemma_symbol_facts();
    if 0 <= i < s.len() {
        lemma_parse_prod_bounds(s, i);
        assert(level_ok(stack, 1));
        let wp = lemma_conv_prod(s, cfg, i, out, stack);
        match parse_prod(s, i) {
            Some(rp) => {
                assert(adv(s, i, rp.1) == rp.1);
                assert(pd_any(wp.1));
                lemma_conv_sum_tail(s, cfg, rp.1, rp.0, out, wp.0, wp.1, stack)
            },
            None => ((Seq::empty(), Seq::empty())),
        }
    } else {
        ((Seq::empty(), Seq::empty()))
    }
}

/// Reading an additive run converts each further term, keeping the
/// invariant that the emitted part plus the pending operators is the
/// accumulated expression's postfix stream.
#[verifier::rlimit(100)]
proof fn lemma_conv_sum_tail(
    s: Seq<LexemeV>,
    cfg: ConfigV,
    j: int,
    acc: ArithExp,
    out_base: Seq<TokV>,
    out_cur: Seq<TokV>,
    pd: Seq<Seq<char>>,
    stack: Seq<Seq<char>>,
) -> (w: (Seq<TokV>, Seq<Seq<char>>))
    requires
        arith_cfg(cfg),
        arith_stack(stack),
        level_ok(stack, 2),
        pd_any(pd),
        out_cur + emit_stack(pd) == out_base + postfix_of(acc),
        0 <= j <= s.len(),
    ensures
        parse_sum_tail(s, j, acc) matches Some(r) ==> conv_loop(s, cfg, j, out_cur, stack + pd)
            == conv_loop(s, cfg, r.1, w.0, stack + w.1) && w.0 + emit_stack(w.1) == out_base
            + postfix_of(r.0) && pd_any(w.1),
    decreases s.len() - j, 3int,
{
    lemma_symbol_facts();
    if 0 <= j < s.len() && (s[j] == LexemeV::Symbol("+"@) || s[j] == LexemeV::Symbol("-"@)) {
        let sym: Seq<char> = if s[j] == LexemeV::Symbol("+"@) {
            "+"@
        } else {
            "-"@
        };
        let op = if s[j] == LexemeV::Symbol("+"@) {
            OperationType::Add
        } else {
            OperationType::Sub
        };
        assert(s[j] == LexemeV::Symbol(sym));
        assert(!cfg.is_function(sym));
        assert(cfg.priority_of(sym) == Some(2u8));
        lemma_pop_pend(out_cur, stack, pd, cfg, 2);
        assert(conv_loop(s, cfg, j, out_cur, stack + pd) == conv_loop(
            s,
            cfg,
            j + 1,
            out_base + postfix_of(acc),
            stack.push(sym),
        ));
        lemma_parse_prod_bounds(s, j + 1);
        assert(arith_stack(stack.push(sym)));
        assert(level_ok(stack.push(sym), 1));
        let wp = lemma_conv_prod(s, cfg, j + 1, out_base + postfix_of(acc), stack.push(sym));
        match parse_prod(s, j + 1) {
            Some(rp) => {
                assert(adv(s, j, rp.1) == rp.1);
                let acc2 = ArithExp::Bin(op, Box::new(acc), Box::new(rp.0));
                let pd2 = seq![sym] + wp.1;
                assert(stack.push(sym) + wp.1 =~= stack + pd2);
                assert(wp.0 + emit_stack(pd2) =~= out_base + postfix_of(acc2)) by {
                    reveal_with_fuel(emit_stack, 4);
                    assert(op_of(sym) == Some(op));
                    if wp.1.len() == 0 {
                        assert(pd2 =~= seq![sym]);
                        assert(pd2.last() == sym);
                        assert(pd2.drop_last() =~= Seq::<Seq<char>>::empty());
                        assert(emit_stack(pd2) =~= seq![TokV::Operation(op)]);
                        assert(emit_stack(wp.1) =~= Seq::<TokV>::empty());
                    } else {
                        assert(pd2.last() == wp.1.last());
                        assert(pd2.drop_last() =~= seq![sym]);
                        assert(wp.1.drop_last() =~= Seq::<Seq<char>>::empty());
                        assert(emit_stack(pd2) =~= emit_stack(wp.1) + seq![TokV::Operation(op)]);
                    }
                    assert(wp.0 + emit_stack(pd2) =~= (wp.0 + emit_stack(wp.1)) + seq![
                        TokV::Operation(op),
                    ]);
                    assert(postfix_of(acc2) =~= postfix_of(acc) + postfix_of(rp.0) + seq![
                        TokV::Operation(op),
                    ]);
                    assert(((out_base + postfix_of(acc)) + postfix_of(rp.0)) + seq![
                        TokV::Operation(op),
                    ] =~= out_base + postfix_of(acc2));
                }
                assert(pd_any(pd2)) by {
                    assert(pd2[0] == sym);
                    assert(forall|x: int|
                        1 <= x < pd2.len() ==> #[trigger] pd2[x] == wp.1[x - 1]);
                }
                let w = lemma_conv_sum_tail(s, cfg, rp.1, acc2, out_base, wp.0, pd2, stack);
                assert(conv_loop(s, cfg, rp.1, wp.0, stack.push(sym) + wp.1) == conv_loop(
                    s,
                    cfg,
                    rp.1,
                    wp.0,
                    stack + pd2,
                ));
                assert(parse_sum_tail(s, j, acc) == parse_sum_tail(s, rp.1, acc2));
                w
            },
            None => ((Seq::empty(), Seq::empty())),
        }
    } else {
        ((out_cur, pd))
    }
}

/// TESTABLE LAW, full generality: every lexeme sequence that the
/// standard arithmetic grammar accepts as a whole converts to exactly
/// the postfix stream of the expression the grammar reads off it.
pub proof fn theorem_convert_complete(s: Seq<LexemeV>, cfg: ConfigV, e: ArithExp)
    requires
        arith_cfg(cfg),
        parse_sum(s, 0) == Some((e, s.len() as int)),
    ensures
        convert(s, cfg) == Ok::<Seq<TokV>, ErrV>(postfix_of(e)),
        exp_wf(e),
{
    let empty_out = Seq::<TokV>::empty();
    let empty_stack = Seq::<Seq<char>>::empty();
    lemma_parse_sum_wf(s, 0);
    let w = lemma_conv_sum(s, cfg, 0, empty_out, empty_stack);
    lemma_end_pend(w.0, empty_stack + w.1, cfg);
    assert(empty_stack + w.1 =~= w.1);
    assert(w.0 + emit_stack(w.1) =~= postfix_of(e)) by {
        assert(empty_out + postfix_of(e) =~= postfix_of(e));
    }
    assert(empty_stack + w.1 == w.1);
    assert(end_flush(w.0, empty_stack + w.1, cfg) == Ok::<Seq<TokV>, ErrV>(postfix_of(e)));
}

/// TESTABLE LAW, the whole of it: for every well-formed infix
/// arithmetic expression — every lexeme sequence the standard grammar
/// accepts — conversion yields its postfix stream, building yields its
/// tree, and the evaluator run on that tree yields exactly the value of
/// the infix expression read directly by standard precedence, under any
/// numeric semantics, leaving the variable state untouched.
pub proof fn theorem_infix_complete(
    s: Seq<LexemeV>,
    cfg: ConfigV,
    e: ArithExp,
    st: Map<Seq<char>, Scalar>,
    oracle: spec_fn(TaskV) -> Scalar,
)
    requires
        arith_cfg(cfg),
        parse_sum(s, 0) == Some((e, s.len() as int)),
    ensures
        convert(s, cfg) == Ok::<Seq<TokV>, ErrV>(postfix_of(e)),
        build(postfix_of(e), cfg) == Ok::<NodeV, ErrV>(tree_of(e)),
        run_oracle(initial_machine(stmt_items(tree_of(e))), st, oracle, steps_of(e) + 1).0.finished
            == Some(Ok::<Option<Scalar>, ErrV>(Some(eval_exp(e, oracle)))),
        run_oracle(initial_machine(stmt_items(tree_of(e))), st, oracle, steps_of(e) + 1).1 == st,
{
    theorem_convert_complete(s, cfg, e);
    theorem_build_inverts_postfix(e, cfg);
    theorem_tree_evaluates(e, st, oracle);
}

} // verus!
