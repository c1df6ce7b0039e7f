use crate::config::{Config, ConfigV};
use crate::error::{ErrV, Error};
use crate::token::{Numeric, NumericV};
use vstd::prelude::*;

verus! {

/// One scanned unit of text: a number (a literal, or a constant resolved
/// to its value), a variable reference stripped of its `$` sigil, or a
/// deferred symbol — an operator, a parenthesis, a comma or a bare name —
/// that the converter classifies.
#[derive(Debug)]
pub enum Lexeme {
    Number(Numeric),
    Variable(String),
    Symbol(String),
}

/// The mathematical value of a [`Lexeme`].
pub ghost enum LexemeV {
    Number(NumericV),
    Variable(Seq<char>),
    Symbol(Seq<char>),
}

impl View for Lexeme {
    type V = LexemeV;

    open spec fn view(&self) -> LexemeV {
        match self {
            Lexeme::Number(n) => LexemeV::Number(n@),
            Lexeme::Variable(s) => LexemeV::Variable(s@),
            Lexeme::Symbol(s) => LexemeV::Symbol(s@),
        }
    }
}

impl DeepView for Lexeme {
    type V = LexemeV;

    open spec fn deep_view(&self) -> LexemeV {
        self@
    }
}

impl Clone for Lexeme {
    fn clone(&self) -> (r: Lexeme)
        ensures
            r@ == self@,
    {
        match self {
            Lexeme::Number(n) => Lexeme::Number(n.clone()),
            Lexeme::Variable(s) => Lexeme::Variable(s.clone()),
            Lexeme::Symbol(s) => Lexeme::Symbol(s.clone()),
        }
    }
}

/// A decimal digit.
pub open spec fn is_digit_char(c: char) -> bool {
    48 <= c as u32 <= 57
}

/// A letter, a digit or an underscore: the characters words are made of.
pub open spec fn is_word_char(c: char) -> bool {
    (65 <= c as u32 <= 90) || (97 <= c as u32 <= 122) || is_digit_char(c) || c as u32 == 95
}

/// A letter or an underscore: the characters a word may start with.
pub open spec fn is_alpha_char(c: char) -> bool {
    (65 <= c as u32 <= 90) || (97 <= c as u32 <= 122) || c as u32 == 95
}

/// Blank space inside a statement.
pub open spec fn is_space_char(c: char) -> bool {
    c == ' ' || c == '\t' || c == '\r'
}

fn digit_char(c: char) -> (r: bool)
    ensures
        r == is_digit_char(c),
{
    let u = c as u32;
    48 <= u && u <= 57
}

fn word_char(c: char) -> (r: bool)
    ensures
        r == is_word_char(c),
{
    let u = c as u32;
    (65 <= u && u <= 90) || (97 <= u && u <= 122) || (48 <= u && u <= 57) || u == 95
}

fn alpha_char(c: char) -> (r: bool)
    ensures
        r == is_alpha_char(c),
{
    let u = c as u32;
    (65 <= u && u <= 90) || (97 <= u && u <= 122) || u == 95
}

fn space_char(c: char) -> (r: bool)
    ensures
        r == is_space_char(c),
{
    c == ' ' || c == '\t' || c == '\r'
}

/// The first position at or after `i` that does not hold a digit.
pub open spec fn digits_end(cs: Seq<char>, i: int) -> int
    decreases cs.len() - i,
{
    if 0 <= i < cs.len() && is_digit_char(cs[i]) {
        digits_end(cs, i + 1)
    } else {
        i
    }
}

/// The first position at or after `i` that does not hold a word character.
pub open spec fn word_end(cs: Seq<char>, i: int) -> int
    decreases cs.len() - i,
{
    if 0 <= i < cs.len() && is_word_char(cs[i]) {
        word_end(cs, i + 1)
    } else {
        i
    }
}

proof fn lemma_digits_end_bounds(cs: Seq<char>, i: int)
    requires
        0 <= i <= cs.len(),
    ensures
        i <= digits_end(cs, i) <= cs.len(),
    decreases cs.len() - i,
{
    if i < cs.len() && is_digit_char(cs[i]) {
        lemma_digits_end_bounds(cs, i + 1);
    }
}

proof fn lemma_word_end_bounds(cs: Seq<char>, i: int)
    requires
        0 <= i <= cs.len(),
    ensures
        i <= word_end(cs, i) <= cs.len(),
    decreases cs.len() - i,
{
    if i < cs.len() && is_word_char(cs[i]) {
        lemma_word_end_bounds(cs, i + 1);
    }
}

/// Where a numeric literal that starts at `i` ends: its digits, then one
/// dot and at least one further digit, or no fractional part at all.
pub open spec fn number_end(cs: Seq<char>, i: int) -> int {
    let d = digits_end(cs, i);
    if d < cs.len() && cs[d] == '.' && d + 1 < cs.len() && is_digit_char(cs[d + 1]) {
        digits_end(cs, d + 1)
    } else {
        d
    }
}

/// The scanner from position `i` on, one lexeme per step: blank space is
/// skipped; a digit starts a numeric literal; `$` must introduce a
/// variable name; a word is a constant of the configuration or else a
/// deferred symbol; `==` and the single characters `+ - * / ( ) = ,` are
/// deferred symbols; any other character is an invalid token.
pub open spec fn scan_loop(cs: Seq<char>, cfg: ConfigV, i: int) -> Result<Seq<LexemeV>, ErrV>
    decreases cs.len() - i,
    when 0 <= i <= cs.len()
    via scan_loop_decreases
{
    if i >= cs.len() {
        Ok(Seq::empty())
    } else {
        let c = cs[i];
        if is_space_char(c) {
            scan_loop(cs, cfg, i + 1)
        } else if is_digit_char(c) {
            let j = number_end(cs, i);
            match scan_loop(cs, cfg, j) {
                Ok(rest) => Ok(seq![LexemeV::Number(NumericV::Literal(cs.subrange(i, j)))] + rest),
                Err(e) => Err(e),
            }
        } else if c == '$' {
            if i + 1 < cs.len() && is_word_char(cs[i + 1]) {
                let j = word_end(cs, i + 1);
                match scan_loop(cs, cfg, j) {
                    Ok(rest) => Ok(seq![LexemeV::Variable(cs.subrange(i + 1, j))] + rest),
                    Err(e) => Err(e),
                }
            } else {
                Err(ErrV::InvalidToken(cs.subrange(i, i + 1)))
            }
        } else if is_alpha_char(c) {
            let j = word_end(cs, i);
            let w = cs.subrange(i, j);
            let lex = match cfg.constant_of(w) {
                Some(v) => LexemeV::Number(NumericV::Value(v)),
                None => LexemeV::Symbol(w),
            };
            match scan_loop(cs, cfg, j) {
                Ok(rest) => Ok(seq![lex] + rest),
                Err(e) => Err(e),
            }
        } else if c == '=' && i + 1 < cs.len() && cs[i + 1] == '=' {
            match scan_loop(cs, cfg, i + 2) {
                Ok(rest) => Ok(seq![LexemeV::Symbol(cs.subrange(i, i + 2))] + rest),
                Err(e) => Err(e),
            }
        } else if c == '+' || c == '-' || c == '*' || c == '/' || c == '(' || c == ')' || c == '='
            || c == ',' {
            match scan_loop(cs, cfg, i + 1) {
                Ok(rest) => Ok(seq![LexemeV::Symbol(cs.subrange(i, i + 1))] + rest),
                Err(e) => Err(e),
            }
        } else {
            Err(ErrV::InvalidToken(cs.subrange(i, i + 1)))
        }
    }
}

#[via_fn]
proof fn scan_loop_decreases(cs: Seq<char>, cfg: ConfigV, i: int) {
    if 0 <= i < cs.len() {
        lemma_digits_end_bounds(cs, i);
        if digits_end(cs, i) < cs.len() {
            lemma_digits_end_bounds(cs, digits_end(cs, i) + 1);
        }
        if i + 1 <= cs.len() {
            lemma_word_end_bounds(cs, i + 1);
        }
        lemma_word_end_bounds(cs, i);
        if is_digit_char(cs[i]) {
            assert(digits_end(cs, i) == digits_end(cs, i + 1));
            lemma_digits_end_bounds(cs, i + 1);
        }
        if is_word_char(cs[i]) {
            assert(word_end(cs, i) == word_end(cs, i + 1));
            lemma_word_end_bounds(cs, i + 1);
        }
        if i + 1 < cs.len() && is_word_char(cs[i + 1]) {
            assert(word_end(cs, i + 1) == word_end(cs, i + 2));
            lemma_word_end_bounds(cs, i + 2);
        }
    }
}

/// The tokenizer: every lexeme of the text, in order.
pub open spec fn scan(cs: Seq<char>, cfg: ConfigV) -> Result<Seq<LexemeV>, ErrV> {
    scan_loop(cs, cfg, 0)
}

/// Scanning from `i` with `pre` already produced.
pub open spec fn scan_cont(cs: Seq<char>, cfg: ConfigV, i: int, pre: Seq<LexemeV>) -> Result<
    Seq<LexemeV>,
    ErrV,
> {
    match scan_loop(cs, cfg, i) {
        Ok(rest) => Ok(pre + rest),
        Err(e) => Err(e),
    }
}

proof fn lemma_cont_push(cs: Seq<char>, cfg: ConfigV, i: int, j: int, pre: Seq<LexemeV>, lex: LexemeV)
    requires
        scan_loop(cs, cfg, i) == (match scan_loop(cs, cfg, j) {
            Ok(rest) => Ok::<Seq<LexemeV>, ErrV>(seq![lex] + rest),
            Err(e) => Err(e),
        }),
    ensures
        scan_cont(cs, cfg, i, pre) == scan_cont(cs, cfg, j, pre.push(lex)),
{
    match scan_loop(cs, cfg, j) {
        Ok(rest) => {
            assert(pre + (seq![lex] + rest) =~= pre.push(lex) + rest);
        },
        Err(_) => {},
    }
}

proof fn lemma_cont_skip(cs: Seq<char>, cfg: ConfigV, i: int, j: int, pre: Seq<LexemeV>)
    requires
        scan_loop(cs, cfg, i) == scan_loop(cs, cfg, j),
    ensures
        scan_cont(cs, cfg, i, pre) == scan_cont(cs, cfg, j, pre),
{
}

/// Scans one statement into its lexemes, resolving constants through the
/// configuration; fails with `InvalidToken` on the first character or
/// lexeme that fits no category.
pub fn tokenize(line: &str, config: &Config) -> (r: Result<Vec<Lexeme>, Error>)
    ensures
        r matches Ok(v) ==> scan(line@, config@) == Ok::<Seq<LexemeV>, ErrV>(v.deep_view()),
        r matches Err(e) ==> scan(line@, config@) == Err::<Seq<LexemeV>, ErrV>(e@),
{
    let ghost l = line@;
    let ghost cfg = config@;
    let n = line.unicode_len();
    let mut acc: Vec<Lexeme> = Vec::new();
    let mut i: usize = 0;
    proof {
        assert(acc.deep_view() =~= Seq::<LexemeV>::empty());
    }
    while i < n
        invariant
            n == l.len(),
            i <= n,
            scan(l, cfg) == scan_cont(l, cfg, i as int, acc.deep_view()),
        decreases n - i,
    {
        let ghost pre = acc.deep_view();
        let c = line.get_char(i);
        if space_char(c) {
            proof {
                lemma_cont_skip(l, cfg, i as int, i + 1, pre);
            }
            i += 1;
        } else if digit_char(c) {
            // the digits of the integer part
            let mut j = i + 1;
            while j < n && digit_char(line.get_char(j))
                invariant
                    i < j <= n,
                    n == l.len(),
                    digits_end(l, i as int) == digits_end(l, j as int),
                decreases n - j,
            {
                j += 1;
            }
            assert(digits_end(l, i as int) == j);
            // a fractional part needs a dot and at least one digit
            if j < n && line.get_char(j) == '.' {
                if j + 1 < n && digit_char(line.get_char(j + 1)) {
                    let mut k = j + 2;
                    while k < n && digit_char(line.get_char(k))
                        invariant
                            j + 1 < k <= n,
                            n == l.len(),
                            digits_end(l, j + 1) == digits_end(l, k as int),
                        decreases n - k,
                    {
                        k += 1;
                    }
                    assert(digits_end(l, j + 1) == k);
                    j = k;
                }
            }
            assert(number_end(l, i as int) == j);
            let text = line.substring_char(i, j).to_owned();
            let ghost lex = LexemeV::Number(NumericV::Literal(l.subrange(i as int, j as int)));
            acc.push(Lexeme::Number(Numeric::Literal(text)));
            proof {
                assert(acc.deep_view() =~= pre.push(lex));
                lemma_cont_push(l, cfg, i as int, j as int, pre, lex);
            }
            i = j;
        } else if c == '$' {
            if i + 1 < n && word_char(line.get_char(i + 1)) {
                let mut j = i + 2;
                while j < n && word_char(line.get_char(j))
                    invariant
                        i + 1 < j <= n,
                        n == l.len(),
                        word_end(l, i + 1) == word_end(l, j as int),
                    decreases n - j,
                {
                    j += 1;
                }
                assert(word_end(l, i + 1) == j);
                let name = line.substring_char(i + 1, j).to_owned();
                let ghost lex = LexemeV::Variable(l.subrange(i + 1, j as int));
                acc.push(Lexeme::Variable(name));
                proof {
                    assert(acc.deep_view() =~= pre.push(lex));
                    lemma_cont_push(l, cfg, i as int, j as int, pre, lex);
                }
                i = j;
            } else {
                let text = line.substring_char(i, i + 1).to_owned();
                return Err(Error::InvalidToken(text));
            }
        } else if alpha_char(c) {
            let mut j = i + 1;
            while j < n && word_char(line.get_char(j))
                invariant
                    i < j <= n,
                    n == l.len(),
                    word_end(l, i as int) == word_end(l, j as int),
                decreases n - j,
            {
                j += 1;
            }
            assert(word_end(l, i as int) == j);
            let word = line.substring_char(i, j).to_owned();
            let lex = match config.constant(&word) {
                Some(v) => Lexeme::Number(Numeric::Value(v)),
                None => Lexeme::Symbol(word),
            };
            let ghost lexv = lex@;
            acc.push(lex);
            proof {
                assert(acc.deep_view() =~= pre.push(lexv));
                lemma_cont_push(l, cfg, i as int, j as int, pre, lexv);
            }
            i = j;
        } else if c == '=' && i + 1 < n && line.get_char(i + 1) == '=' {
            let text = line.substring_char(i, i + 2).to_owned();
            let ghost lex = LexemeV::Symbol(l.subrange(i as int, i + 2));
            acc.push(Lexeme::Symbol(text));
            proof {
                assert(acc.deep_view() =~= pre.push(lex));
                lemma_cont_push(l, cfg, i as int, i + 2, pre, lex);
            }
            i += 2;
        } else if c == '+' || c == '-' || c == '*' || c == '/' || c == '(' || c == ')' || c == '='
            || c == ',' {
            let text = line.substring_char(i, i + 1).to_owned();
            let ghost lex = LexemeV::Symbol(l.subrange(i as int, i + 1));
            acc.push(Lexeme::Symbol(text));
            proof {
                assert(acc.deep_view() =~= pre.push(lex));
                lemma_cont_push(l, cfg, i as int, i + 1, pre, lex);
            }
            i += 1;
        } else {
            let text = line.substring_char(i, i + 1).to_owned();
            return Err(Error::InvalidToken(text));
        }
    }
    proof {
        assert(acc.deep_view() + Seq::<LexemeV>::empty() =~= acc.deep_view());
    }
    Ok(acc)
}

} // verus!
