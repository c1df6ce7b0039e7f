use crate::config::{Config, ConfigV};
use crate::error::{ErrV, Error};
use crate::node::{build, make_tree, nodes_view, Node, NodeV};
use crate::scan::{scan, tokenize, Lexeme, LexemeV};
use crate::text::str_eq;
use crate::token::{op_of, OperationType, TokV, Token};
use vstd::prelude::*;

verus! {

/// The token a popped stack symbol turns into: an operation for an
/// operator symbol or its spelled-out name, a function token for a name
/// the configuration knows, nothing for anything else.
pub open spec fn op_token_of(s: Seq<char>, cfg: ConfigV) -> Option<TokV> {
    match op_of(s) {
        Some(op) => Some(TokV::Operation(op)),
        None => if cfg.is_function(s) {
            Some(TokV::Function(s))
        } else {
            None
        },
    }
}

/// What a closing parenthesis does: every symbol above the matching
/// opening parenthesis is popped and emitted, the parenthesis pair is
/// discarded, and a function name found directly beneath it is emitted as
/// a function token.  A stack without an opening parenthesis is
/// unbalanced.
pub open spec fn close_paren(out: Seq<TokV>, stack: Seq<Seq<char>>, cfg: ConfigV) -> Result<
    (Seq<TokV>, Seq<Seq<char>>),
    ErrV,
>
    decreases stack.len(),
{
    if stack.len() == 0 {
        Err(ErrV::UnbalancedParens)
    } else {
        let top = stack.last();
        if top == "("@ {
            let rest = stack.drop_last();
            if rest.len() > 0 && cfg.is_function(rest.last()) {
                Ok((out.push(TokV::Function(rest.last())), rest.drop_last()))
            } else {
                Ok((out, rest))
            }
        } else {
            match op_token_of(top, cfg) {
                Some(t) => close_paren(out.push(t), stack.drop_last(), cfg),
                None => Err(ErrV::InvalidToken(top)),
            }
        }
    }
}

/// What a comma does: it delimits a function argument, so every pending
/// symbol above the nearest opening parenthesis is popped and emitted and
/// the parenthesis stays.  A comma outside parentheses is unbalanced.
pub open spec fn comma_flush(out: Seq<TokV>, stack: Seq<Seq<char>>, cfg: ConfigV) -> Result<
    (Seq<TokV>, Seq<Seq<char>>),
    ErrV,
>
    decreases stack.len(),
{
    if stack.len() == 0 {
        Err(ErrV::UnbalancedParens)
    } else {
        let top = stack.last();
        if top == "("@ {
            Ok((out, stack))
        } else {
            match op_token_of(top, cfg) {
                Some(t) => comma_flush(out.push(t), stack.drop_last(), cfg),
                None => Err(ErrV::InvalidToken(top)),
            }
        }
    }
}

/// What an arriving operator of rank `prio` does first: every operator on
/// the stack with an equal or higher rank is popped and emitted — ties
/// pop, so binary operators associate to the left — stopping at a
/// parenthesis or a function name.
pub open spec fn pop_ge(out: Seq<TokV>, stack: Seq<Seq<char>>, cfg: ConfigV, prio: u8) -> Result<
    (Seq<TokV>, Seq<Seq<char>>),
    ErrV,
>
    decreases stack.len(),
{
    if stack.len() == 0 {
        Ok((out, stack))
    } else {
        let top = stack.last();
        if top == "("@ || top == ")"@ || cfg.is_function(top) {
            Ok((out, stack))
        } else {
            match cfg.priority_of(top) {
                Some(p) => if p >= prio {
                    match op_token_of(top, cfg) {
                        Some(t) => pop_ge(out.push(t), stack.drop_last(), cfg, prio),
                        None => Err(ErrV::InvalidToken(top)),
                    }
                } else {
                    Ok((out, stack))
                },
                None => Err(ErrV::InvalidToken(top)),
            }
        }
    }
}

/// What the end of input does: every remaining symbol is popped and
/// emitted; an opening parenthesis still on the stack is unbalanced.
pub open spec fn end_flush(out: Seq<TokV>, stack: Seq<Seq<char>>, cfg: ConfigV) -> Result<
    Seq<TokV>,
    ErrV,
>
    decreases stack.len(),
{
    if stack.len() == 0 {
        Ok(out)
    } else {
        let top = stack.last();
        if top == "("@ {
            Err(ErrV::UnbalancedParens)
        } else {
            match op_token_of(top, cfg) {
                Some(t) => end_flush(out.push(t), stack.drop_last(), cfg),
                None => Err(ErrV::InvalidToken(top)),
            }
        }
    }
}

/// The infix-to-postfix conversion from lexeme `i` on, with `out` already
/// emitted and `stack` holding the pending symbols: numbers and variables
/// go straight to the output; parentheses, commas and operators move
/// symbols between the stack and the output as the helpers above say; a
/// symbol that is no function, no operator and no parenthesis is invalid.
pub open spec fn conv_loop(
    lexs: Seq<LexemeV>,
    cfg: ConfigV,
    i: int,
    out: Seq<TokV>,
    stack: Seq<Seq<char>>,
) -> Result<Seq<TokV>, ErrV>
    decreases lexs.len() - i,
{
    if i < 0 || i >= lexs.len() {
        end_flush(out, stack, cfg)
    } else {
        match lexs[i] {
            LexemeV::Number(n) => conv_loop(lexs, cfg, i + 1, out.push(TokV::Number(n)), stack),
            LexemeV::Variable(x) => conv_loop(
                lexs,
                cfg,
                i + 1,
                out.push(TokV::Variable(x)),
                stack,
            ),
            LexemeV::Symbol(s) => {
                if s == "("@ {
                    conv_loop(lexs, cfg, i + 1, out, stack.push(s))
                } else if s == ")"@ {
                    match close_paren(out, stack, cfg) {
                        Ok(r) => conv_loop(lexs, cfg, i + 1, r.0, r.1),
                        Err(e) => Err(e),
                    }
                } else if s == ","@ {
                    match comma_flush(out, stack, cfg) {
                        Ok(r) => conv_loop(lexs, cfg, i + 1, r.0, r.1),
                        Err(e) => Err(e),
                    }
                } else if cfg.is_function(s) {
                    conv_loop(lexs, cfg, i + 1, out, stack.push(s))
                } else {
                    match cfg.priority_of(s) {
                        Some(p) => match pop_ge(out, stack, cfg, p) {
                            Ok(r) => conv_loop(lexs, cfg, i + 1, r.0, r.1.push(s)),
                            Err(e) => Err(e),
                        },
                        None => Err(ErrV::InvalidToken(s)),
                    }
                }
            },
        }
    }
}

/// The infix-to-postfix converter.
pub open spec fn convert(lexs: Seq<LexemeV>, cfg: ConfigV) -> Result<Seq<TokV>, ErrV> {
    conv_loop(lexs, cfg, 0, Seq::empty(), Seq::empty())
}

/// The postfix token stream of one scanned and converted statement.
pub open spec fn line_tokens(cs: Seq<char>, cfg: ConfigV) -> Result<Seq<TokV>, ErrV> {
    match scan(cs, cfg) {
        Ok(lexs) => convert(lexs, cfg),
        Err(e) => Err(e),
    }
}

/// Turns one popped stack symbol into its token.
fn op_token(symbol: String, config: &Config) -> (r: Result<Token, Error>)
    ensures
        r matches Ok(t) ==> op_token_of(symbol@, config@) == Some(t@),
        r matches Err(e) ==> op_token_of(symbol@, config@) is None && e@ == ErrV::InvalidToken(
            symbol@,
        ),
{
    match OperationType::from_str(symbol.as_str()) {
        Some(op) => Ok(Token::new_operation(op)),
        None => {
            if config.is_function(&symbol) {
                Ok(Token::new_function(symbol))
            } else {
                Err(Error::InvalidToken(symbol))
            }
        },
    }
}

/// Pops and emits for a closing parenthesis, as [`close_paren`] says.
fn close_paren_exec(out: &mut Vec<Token>, stack: &mut Vec<String>, config: &Config) -> (r: Result<
    (),
    Error,
>)
    ensures
        r matches Ok(()) ==> close_paren(old(out).deep_view(), old(stack).deep_view(), config@)
            == Ok::<_, ErrV>((final(out).deep_view(), final(stack).deep_view())),
        r matches Err(e) ==> close_paren(old(out).deep_view(), old(stack).deep_view(), config@)
            == Err::<(Seq<TokV>, Seq<Seq<char>>), ErrV>(e@),
{
    let ghost out0 = out.deep_view();
    let ghost st0 = stack.deep_view();
    loop
        invariant
            close_paren(out0, st0, config@) == close_paren(
                out.deep_view(),
                stack.deep_view(),
                config@,
            ),
        decreases stack.len(),
    {
        let ghost outv = out.deep_view();
        let ghost stv = stack.deep_view();
        match stack.pop() {
            None => {
                return Err(Error::UnbalancedParens);
            },
            Some(top) => {
                proof {
                    assert(stv.last() == top@);
                    assert(stack.deep_view() =~= stv.drop_last());
                }
                if str_eq(top.as_str(), "(") {
                    let emit_fun = stack.len() > 0 && config.is_function(&stack[stack.len() - 1]);
                    if emit_fun {
                        let ghost stv2 = stack.deep_view();
                        let name = stack.pop().unwrap();
                        proof {
                            assert(stv2.last() == name@);
                            assert(stack.deep_view() =~= stv2.drop_last());
                        }
                        let ghost outv2 = out.deep_view();
                        out.push(Token::new_function(name));
                        proof {
                            assert(out.deep_view() =~= outv2.push(TokV::Function(stv2.last())));
                        }
                    }
                    return Ok(());
                }
                match op_token(top, config) {
                    Ok(t) => {
                        let ghost outv2 = out.deep_view();
                        let ghost tv = t@;
                        out.push(t);
                        proof {
                            assert(out.deep_view() =~= outv2.push(tv));
                        }
                    },
                    Err(e) => {
                        return Err(e);
                    },
                }
            },
        }
    }
}

/// Pops and emits for a comma, as [`comma_flush`] says.
fn comma_flush_exec(out: &mut Vec<Token>, stack: &mut Vec<String>, config: &Config) -> (r: Result<
    (),
    Error,
>)
    ensures
        r matches Ok(()) ==> comma_flush(old(out).deep_view(), old(stack).deep_view(), config@)
            == Ok::<_, ErrV>((final(out).deep_view(), final(stack).deep_view())),
        r matches Err(e) ==> comma_flush(old(out).deep_view(), old(stack).deep_view(), config@)
            == Err::<(Seq<TokV>, Seq<Seq<char>>), ErrV>(e@),
{
    let ghost out0 = out.deep_view();
    let ghost st0 = stack.deep_view();
    loop
        invariant
            comma_flush(out0, st0, config@) == comma_flush(
                out.deep_view(),
                stack.deep_view(),
                config@,
            ),
        decreases stack.len(),
    {
        let ghost stv = stack.deep_view();
        match stack.pop() {
            None => {
                return Err(Error::UnbalancedParens);
            },
            Some(top) => {
                proof {
                    assert(stv.last() == top@);
                    assert(stack.deep_view() =~= stv.drop_last());
                }
                if str_eq(top.as_str(), "(") {
                    stack.push(top);
                    proof {
                        assert(stack.deep_view() =~= stv);
                    }
                    return Ok(());
                }
                match op_token(top, config) {
                    Ok(t) => {
                        let ghost outv2 = out.deep_view();
                        let ghost tv = t@;
                        out.push(t);
                        proof {
                            assert(out.deep_view() =~= outv2.push(tv));
                        }
                    },
                    Err(e) => {
                        return Err(e);
                    },
                }
            },
        }
    }
}

/// Pops and emits for an arriving operator, as [`pop_ge`] says.
fn pop_ge_exec(out: &mut Vec<Token>, stack: &mut Vec<String>, config: &Config, prio: u8) -> (r:
    Result<(), Error>)
    ensures
        r matches Ok(()) ==> pop_ge(old(out).deep_view(), old(stack).deep_view(), config@, prio)
            == Ok::<_, ErrV>((final(out).deep_view(), final(stack).deep_view())),
        r matches Err(e) ==> pop_ge(old(out).deep_view(), old(stack).deep_view(), config@, prio)
            == Err::<(Seq<TokV>, Seq<Seq<char>>), ErrV>(e@),
{
    let ghost out0 = out.deep_view();
    let ghost st0 = stack.deep_view();
    loop
        invariant
            pop_ge(out0, st0, config@, prio) == pop_ge(
                out.deep_view(),
                stack.deep_view(),
                config@,
                prio,
            ),
        decreases stack.len(),
    {
        let ghost stv = stack.deep_view();
        match stack.pop() {
            None => {
                return Ok(());
            },
            Some(top) => {
                proof {
                    assert(stv.last() == top@);
                    assert(stack.deep_view() =~= stv.drop_last());
                }
                if str_eq(top.as_str(), "(") || str_eq(top.as_str(), ")") || config.is_function(
                    &top,
                ) {
                    stack.push(top);
                    proof {
                        assert(stack.deep_view() =~= stv);
                    }
                    return Ok(());
                }
                match config.priority(&top) {
                    Some(p) => {
                        if p >= prio {
                            match op_token(top, config) {
                                Ok(t) => {
                                    let ghost outv2 = out.deep_view();
                                    let ghost tv = t@;
                                    out.push(t);
                                    proof {
                                        assert(out.deep_view() =~= outv2.push(tv));
                                    }
                                },
                                Err(e) => {
                                    return Err(e);
                                },
                            }
                        } else {
                            stack.push(top);
                            proof {
                                assert(stack.deep_view() =~= stv);
                            }
                            return Ok(());
                        }
                    },
                    None => {
                        return Err(Error::InvalidToken(top));
                    },
                }
            },
        }
    }
}

/// Pops and emits everything at the end of input, as [`end_flush`] says.
fn end_flush_exec(out: &mut Vec<Token>, stack: &mut Vec<String>, config: &Config) -> (r: Result<
    (),
    Error,
>)
    ensures
        r matches Ok(()) ==> end_flush(old(out).deep_view(), old(stack).deep_view(), config@)
            == Ok::<_, ErrV>(final(out).deep_view()),
        r matches Err(e) ==> end_flush(old(out).deep_view(), old(stack).deep_view(), config@)
            == Err::<Seq<TokV>, ErrV>(e@),
{
    let ghost out0 = out.deep_view();
    let ghost st0 = stack.deep_view();
    loop
        invariant
            end_flush(out0, st0, config@) == end_flush(
                out.deep_view(),
                stack.deep_view(),
                config@,
            ),
        decreases stack.len(),
    {
        let ghost stv = stack.deep_view();
        match stack.pop() {
            None => {
                return Ok(());
            },
            Some(top) => {
                proof {
                    assert(stv.last() == top@);
                    assert(stack.deep_view() =~= stv.drop_last());
                }
                if str_eq(top.as_str(), "(") {
                    return Err(Error::UnbalancedParens);
                }
                match op_token(top, config) {
                    Ok(t) => {
                        let ghost outv2 = out.deep_view();
                        let ghost tv = t@;
                        out.push(t);
                        proof {
                            assert(out.deep_view() =~= outv2.push(tv));
                        }
                    },
                    Err(e) => {
                        return Err(e);
                    },
                }
            },
        }
    }
}

/// Converts a classified lexeme stream into its postfix token stream,
/// honoring precedence, left-associativity, parentheses and function-call
/// grouping, exactly as [`convert`] says.
pub fn to_postfix(lexemes: &Vec<Lexeme>, config: &Config) -> (r: Result<Vec<Token>, Error>)
    ensures
        r matches Ok(v) ==> convert(lexemes.deep_view(), config@) == Ok::<Seq<TokV>, ErrV>(
            v.deep_view(),
        ),
        r matches Err(e) ==> convert(lexemes.deep_view(), config@) == Err::<Seq<TokV>, ErrV>(e@),
{
    let ghost lexs = lexemes.deep_view();
    let ghost cfg = config@;
    let n = lexemes.len();
    let mut out: Vec<Token> = Vec::new();
    let mut stack: Vec<String> = Vec::new();
    let mut i: usize = 0;
    proof {
        assert(out.deep_view() =~= Seq::<TokV>::empty());
        assert(stack.deep_view() =~= Seq::<Seq<char>>::empty());
    }
    while i < n
        invariant
            n == lexs.len(),
            i <= n,
            lexs == lexemes.deep_view(),
            cfg == config@,
            convert(lexs, cfg) == conv_loop(lexs, cfg, i as int, out.deep_view(), stack.deep_view()),
        decreases n - i,
    {
        let ghost outv = out.deep_view();
        let ghost stv = stack.deep_view();
        let lex = &lexemes[i];
        proof {
            assert(lexs[i as int] == lex@);
        }
        match lex {
            Lexeme::Number(num) => {
                let tok = Token::Number(num.clone());
                let ghost tv = tok@;
                out.push(tok);
                proof {
                    assert(out.deep_view() =~= outv.push(tv));
                }
            },
            Lexeme::Variable(x) => {
                out.push(Token::new_variable(x.clone()));
                proof {
                    assert(out.deep_view() =~= outv.push(TokV::Variable(x@)));
                }
            },
            Lexeme::Symbol(s) => {
                if str_eq(s.as_str(), "(") {
                    stack.push(s.clone());
                    proof {
                        assert(stack.deep_view() =~= stv.push(s@));
                    }
                } else if str_eq(s.as_str(), ")") {
                    match close_paren_exec(&mut out, &mut stack, config) {
                        Ok(()) => {},
                        Err(e) => {
                            return Err(e);
                        },
                    }
                } else if str_eq(s.as_str(), ",") {
                    match comma_flush_exec(&mut out, &mut stack, config) {
                        Ok(()) => {},
                        Err(e) => {
                            return Err(e);
                        },
                    }
                } else if config.is_function(s) {
                    stack.push(s.clone());
                    proof {
                        assert(stack.deep_view() =~= stv.push(s@));
                    }
                } else {
                    match config.priority(s) {
                        Some(p) => {
                            match pop_ge_exec(&mut out, &mut stack, config, p) {
                                Ok(()) => {
                                    let ghost stv2 = stack.deep_view();
                                    stack.push(s.clone());
                                    proof {
                                        assert(stack.deep_view() =~= stv2.push(s@));
                                    }
                                },
                                Err(e) => {
                                    return Err(e);
                                },
                            }
                        },
                        None => {
                            return Err(Error::InvalidToken(s.clone()));
                        },
                    }
                }
            },
        }
        i += 1;
    }
    match end_flush_exec(&mut out, &mut stack, config) {
        Ok(()) => Ok(out),
        Err(e) => Err(e),
    }
}

/// Converts one popped symbol into an operation or function token,
/// answering nothing for the structural symbols `(`, `)` and `,`.
pub fn get_operation_token(input: String, config: &Config) -> (r: Result<Option<Token>, Error>)
    ensures
        r matches Ok(Some(t)) ==> input@ != "("@ && input@ != ")"@ && input@ != ","@
            && op_token_of(input@, config@) == Some(t@),
        r matches Ok(None) ==> input@ == "("@ || input@ == ")"@ || input@ == ","@,
        r matches Err(e) ==> input@ != "("@ && input@ != ")"@ && input@ != ","@ && op_token_of(
            input@,
            config@,
        ) is None && e@ == ErrV::InvalidToken(input@),
{
    if str_eq(input.as_str(), "(") || str_eq(input.as_str(), ")") || str_eq(input.as_str(), ",") {
        return Ok(None);
    }
    match op_token(input, config) {
        Ok(t) => Ok(Some(t)),
        Err(e) => Err(e),
    }
}

/// Scans one statement and converts it to postfix in one call.
pub fn parse_line(input: &str, config: &Config) -> (r: Result<Vec<Token>, Error>)
    ensures
        r matches Ok(v) ==> line_tokens(input@, config@) == Ok::<Seq<TokV>, ErrV>(v.deep_view()),
        r matches Err(e) ==> line_tokens(input@, config@) == Err::<Seq<TokV>, ErrV>(e@),
{
    match tokenize(input, config) {
        Ok(lexemes) => to_postfix(&lexemes, config),
        Err(e) => Err(e),
    }
}

/// The statement texts of a program: split at every newline or `;`, with
/// `start` opening the segment that position `i` is scanning.
pub open spec fn split_stmts(cs: Seq<char>, i: int, start: int) -> Seq<Seq<char>>
    decreases cs.len() - i,
{
    if i < 0 || i >= cs.len() {
        seq![cs.subrange(start, cs.len() as int)]
    } else if cs[i] == '\n' || cs[i] == ';' {
        seq![cs.subrange(start, i)] + split_stmts(cs, i + 1, i + 1)
    } else {
        split_stmts(cs, i + 1, start)
    }
}

/// The statement texts of a program, in order.
pub open spec fn statements_of(cs: Seq<char>) -> Seq<Seq<char>> {
    split_stmts(cs, 0, 0)
}

/// One statement wrapped in the structural parentheses the block parser
/// adds, so the converter need not treat the line boundary specially.
pub open spec fn wrap_stmt(stmt: Seq<char>) -> Seq<char> {
    seq!['('] + stmt + seq![')']
}

/// The tree of one statement text: wrapped, scanned, converted and
/// built; a statement with no tokens at all — blank, or only the added
/// parentheses — yields no tree and is skipped.
pub open spec fn stmt_tree(stmt: Seq<char>, cfg: ConfigV) -> Result<Option<NodeV>, ErrV> {
    match line_tokens(wrap_stmt(stmt), cfg) {
        Ok(toks) => if toks.len() == 0 {
            Ok(None)
        } else {
            match build(toks, cfg) {
                Ok(n) => Ok(Some(n)),
                Err(e) => Err(e),
            }
        },
        Err(e) => Err(e),
    }
}

/// The trees of the statements from index `i` on; the first failing
/// statement's error ends the parse.
pub open spec fn block_trees_from(stmts: Seq<Seq<char>>, cfg: ConfigV, i: int) -> Result<
    Seq<NodeV>,
    ErrV,
>
    decreases stmts.len() - i,
{
    if i < 0 || i >= stmts.len() {
        Ok(Seq::empty())
    } else {
        match stmt_tree(stmts[i], cfg) {
            Ok(opt) => match block_trees_from(stmts, cfg, i + 1) {
                Ok(rest) => Ok(
                    match opt {
                        Some(n) => seq![n] + rest,
                        None => rest,
                    },
                ),
                Err(e) => Err(e),
            },
            Err(e) => Err(e),
        }
    }
}

/// One tree per non-blank statement of a program text.
pub open spec fn program_trees(cs: Seq<char>, cfg: ConfigV) -> Result<Seq<NodeV>, ErrV> {
    block_trees_from(statements_of(cs), cfg, 0)
}

/// Parsing from statement `i` on with `pre` already built.
pub open spec fn block_cont(stmts: Seq<Seq<char>>, cfg: ConfigV, i: int, pre: Seq<NodeV>) -> Result<
    Seq<NodeV>,
    ErrV,
> {
    match block_trees_from(stmts, cfg, i) {
        Ok(rest) => Ok(pre + rest),
        Err(e) => Err(e),
    }
}

proof fn lemma_block_cont_step(stmts: Seq<Seq<char>>, cfg: ConfigV, i: int, pre: Seq<NodeV>)
    requires
        0 <= i < stmts.len(),
    ensures
        stmt_tree(stmts[i], cfg) matches Ok(opt) ==> block_cont(stmts, cfg, i, pre) == (match opt {
            Some(n) => block_cont(stmts, cfg, i + 1, pre.push(n)),
            None => block_cont(stmts, cfg, i + 1, pre),
        }),
        stmt_tree(stmts[i], cfg) matches Err(e) ==> block_cont(stmts, cfg, i, pre) == Err::<
            Seq<NodeV>,
            ErrV,
        >(e),
{
    match stmt_tree(stmts[i], cfg) {
        Ok(opt) => {
            match block_trees_from(stmts, cfg, i + 1) {
                Ok(rest) => {
                    match opt {
                        Some(n) => {
                            assert(pre + (seq![n] + rest) =~= pre.push(n) + rest);
                        },
                        None => {},
                    }
                },
                Err(_) => {},
            }
        },
        Err(_) => {},
    }
}

/// Splits a program into its statement texts at newlines and semicolons.
pub fn split_statements(block: &str) -> (r: Vec<String>)
    ensures
        r.deep_view() == statements_of(block@),
{
    let ghost cs = block@;
    let n = block.unicode_len();
    let mut acc: Vec<String> = Vec::new();
    let mut start: usize = 0;
    let mut i: usize = 0;
    proof {
        assert(acc.deep_view() =~= Seq::<Seq<char>>::empty());
    }
    while i < n
        invariant
            n == cs.len(),
            start <= i <= n,
            statements_of(cs) == acc.deep_view() + split_stmts(cs, i as int, start as int),
        decreases n - i,
    {
        let ghost pre = acc.deep_view();
        let c = block.get_char(i);
        if c == '\n' || c == ';' {
            let stmt = block.substring_char(start, i).to_owned();
            acc.push(stmt);
            proof {
                assert(acc.deep_view() =~= pre.push(cs.subrange(start as int, i as int)));
                assert(pre + (seq![cs.subrange(start as int, i as int)] + split_stmts(
                    cs,
                    i + 1,
                    i + 1,
                )) =~= acc.deep_view() + split_stmts(cs, i + 1, i + 1));
            }
            start = i + 1;
        }
        i += 1;
    }
    let stmt = block.substring_char(start, n).to_owned();
    let ghost pre = acc.deep_view();
    acc.push(stmt);
    proof {
        assert(acc.deep_view() =~= pre.push(cs.subrange(start as int, cs.len() as int)));
        assert(pre + seq![cs.subrange(start as int, cs.len() as int)] =~= acc.deep_view());
        assert(acc.deep_view() =~= statements_of(cs));
    }
    acc
}

/// Parses a whole program: one expression tree per non-blank statement,
/// exactly as [`program_trees`] says.  Statements are delimited by
/// newlines and semicolons; each is wrapped in structural parentheses
/// before conversion; the first malformed statement's error ends the
/// parse.
pub fn parse_block(block: &str, config: &Config) -> (r: Result<Vec<Node>, Error>)
    ensures
        r matches Ok(v) ==> program_trees(block@, config@) == Ok::<Seq<NodeV>, ErrV>(
            nodes_view(v@),
        ),
        r matches Err(e) ==> program_trees(block@, config@) == Err::<Seq<NodeV>, ErrV>(e@),
{
    let ghost cs = block@;
    let ghost cfg = config@;
    let stmts = split_statements(block);
    let ghost sv = stmts.deep_view();
    let n = stmts.len();
    let mut trees: Vec<Node> = Vec::new();
    let mut i: usize = 0;
    proof {
        assert(nodes_view(trees@) =~= Seq::<NodeV>::empty());
        match block_trees_from(sv, cfg, 0) {
            Ok(rest) => {
                assert(Seq::<NodeV>::empty() + rest =~= rest);
            },
            Err(_) => {},
        }
    }
    while i < n
        invariant
            n == sv.len(),
            i <= n,
            sv == stmts.deep_view(),
            cfg == config@,
            program_trees(cs, cfg) == block_cont(sv, cfg, i as int, nodes_view(trees@)),
        decreases n - i,
    {
        let ghost pre = nodes_view(trees@);
        let stmt = &stmts[i];
        proof {
            assert(sv[i as int] == stmt@);
        }
        let wrapped = String::from_str("(").concat(stmt.as_str()).concat(")");
        proof {
            reveal_strlit("(");
            reveal_strlit(")");
            assert("("@ =~= seq!['(']);
            assert(")"@ =~= seq![')']);
            assert(wrapped@ =~= wrap_stmt(sv[i as int]));
        }
        match parse_line(wrapped.as_str(), config) {
            Ok(tokens) => {
                if tokens.len() > 0 {
                    match make_tree(&tokens, config) {
                        Ok(tree) => {
                            let ghost tv = tree@;
                            let ghost pre_vec = trees@;
                            trees.push(tree);
                            proof {
                                crate::node::lemma_nodes_view(trees@);
                                crate::node::lemma_nodes_view(pre_vec);
                                assert(forall|j: int|
                                    0 <= j < pre_vec.len() ==> #[trigger] trees@[j] == pre_vec[j]);
                                assert(nodes_view(trees@) =~= pre.push(tv));
                                lemma_block_cont_step(sv, cfg, i as int, pre);
                            }
                        },
                        Err(e) => {
                            proof {
                                lemma_block_cont_step(sv, cfg, i as int, pre);
                            }
                            return Err(e);
                        },
                    }
                } else {
                    proof {
                        lemma_block_cont_step(sv, cfg, i as int, pre);
                    }
                }
            },
            Err(e) => {
                proof {
                    lemma_block_cont_step(sv, cfg, i as int, pre);
                }
                return Err(e);
            },
        }
        i += 1;
    }
    proof {
        assert(nodes_view(trees@) + Seq::<NodeV>::empty() =~= nodes_view(trees@));
    }
    Ok(trees)
}

} // verus!
