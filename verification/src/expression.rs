//! Formulas in postfix notation: a line of text is split into tokens once,
//! and the tokens are then run as a stack machine on a window of terms.

use crate::bigint::{
    big_add, big_clone, big_mul, big_parse, big_pow, big_sub, big_to_usize, int_of, values,
};
use crate::decimal::literal_value;
use crate::error::SequenceError;
use ibig::IBig;
use std::collections::VecDeque;
use vstd::arithmetic::power::pow;
use vstd::prelude::*;
use vstd::string::StrSliceExecFns;

verus! {

/// What a token stands for.
pub enum Symbol {
    /// `+`
    Add,
    /// `-`
    Sub,
    /// `*`
    Mul,
    /// `**`
    Pow,
    /// A letter: `a` is term 0 of the window, its oldest, `b` term 1, and so
    /// on.
    Term(nat),
    /// An integer constant.
    Literal(int),
}

/// One token of a compiled formula.
#[derive(Debug)]
pub enum Token {
    /// `+`
    Add,
    /// `-`
    Sub,
    /// `*`
    Mul,
    /// `**`
    Pow,
    /// A letter, by its distance from `a`.
    Term(usize),
    /// An integer constant.
    Literal(IBig),
}

impl View for Token {
    type V = Symbol;

    open spec fn view(&self) -> Symbol {
        match *self {
            Token::Add => Symbol::Add,
            Token::Sub => Symbol::Sub,
            Token::Mul => Symbol::Mul,
            Token::Pow => Symbol::Pow,
            Token::Term(i) => Symbol::Term(i as nat),
            Token::Literal(v) => Symbol::Literal(int_of(v)),
        }
    }
}

/// A compiled formula: its tokens in the order they were written.
#[derive(Debug)]
pub struct Expression {
    pub tokens: Vec<Token>,
}

impl View for Expression {
    type V = Seq<Symbol>;

    open spec fn view(&self) -> Seq<Symbol> {
        Seq::new(self.tokens@.len(), |i: int| self.tokens@[i]@)
    }
}

/// The characters that separate tokens: those that Unicode calls white
/// space.
pub open spec fn is_space(c: char) -> bool {
    ||| '\t' <= c <= '\r'
    ||| c == ' '
    ||| c == '\u{85}'
    ||| c == '\u{a0}'
    ||| c == '\u{1680}'
    ||| '\u{2000}' <= c <= '\u{200a}'
    ||| c == '\u{2028}'
    ||| c == '\u{2029}'
    ||| c == '\u{202f}'
    ||| c == '\u{205f}'
    ||| c == '\u{3000}'
}

/// The word read so far, as a list of one word, or no word if nothing has
/// been read.
pub open spec fn finished(cur: Seq<char>) -> Seq<Seq<char>> {
    if cur.len() > 0 {
        seq![cur]
    } else {
        Seq::empty()
    }
}

/// The words of `s`, given that the characters of `cur` were read just
/// before it and belong to its first word.
pub open spec fn words_after(s: Seq<char>, cur: Seq<char>) -> Seq<Seq<char>>
    decreases s.len(),
{
    if s.len() == 0 {
        finished(cur)
    } else if is_space(s[0]) {
        finished(cur) + words_after(s.drop_first(), Seq::empty())
    } else {
        words_after(s.drop_first(), cur.push(s[0]))
    }
}

/// The maximal runs of characters of `s` that hold no white space, in
/// order.
pub open spec fn words(s: Seq<char>) -> Seq<Seq<char>> {
    words_after(s, Seq::empty())
}

/// What a word stands for: an operator, a single lowercase letter, or else
/// an integer literal. Any other word stands for nothing.
pub open spec fn symbol_of(w: Seq<char>) -> Option<Symbol> {
    if w.len() == 1 && w[0] == '+' {
        Some(Symbol::Add)
    } else if w.len() == 1 && w[0] == '-' {
        Some(Symbol::Sub)
    } else if w.len() == 1 && w[0] == '*' {
        Some(Symbol::Mul)
    } else if w.len() == 2 && w[0] == '*' && w[1] == '*' {
        Some(Symbol::Pow)
    } else if w.len() == 1 && 'a' <= w[0] <= 'z' {
        Some(Symbol::Term((w[0] as int - 'a' as int) as nat))
    } else {
        match literal_value(w) {
            Some(v) => Some(Symbol::Literal(v)),
            None => None,
        }
    }
}

/// The symbols of a list of words, if every word stands for one.
pub open spec fn symbols_of(ws: Seq<Seq<char>>) -> Option<Seq<Symbol>> {
    if forall|i: int| 0 <= i < ws.len() ==> symbol_of(#[trigger] ws[i]) is Some {
        Some(Seq::new(ws.len(), |i: int| symbol_of(ws[i])->Some_0))
    } else {
        None
    }
}

/// The stack after one symbol, or nothing where the symbol cannot be run:
/// an operator finds fewer than two values, a letter lies beyond the
/// window, or an exponent is negative or too large for the machine. An
/// operator takes the value below the top as its left operand; for `**`
/// that is the base, and the top is the exponent.
pub open spec fn step(stack: Seq<int>, t: Symbol, window: Seq<int>) -> Option<Seq<int>> {
    match t {
        Symbol::Term(i) => if i < window.len() {
            Some(stack.push(window[i as int]))
        } else {
            None
        },
        Symbol::Literal(v) => Some(stack.push(v)),
        _ => if stack.len() >= 2 {
            let a = stack[stack.len() - 2];
            let b = stack[stack.len() - 1];
            let rest = stack.take(stack.len() - 2);
            match t {
                Symbol::Add => Some(rest.push(a + b)),
                Symbol::Sub => Some(rest.push(a - b)),
                Symbol::Mul => Some(rest.push(a * b)),
                _ => if 0 <= b <= usize::MAX {
                    Some(rest.push(pow(a, b as nat)))
                } else {
                    None
                },
            }
        } else {
            None
        },
    }
}

/// The stack after the first `n` symbols, starting from the empty stack.
pub open spec fn run(symbols: Seq<Symbol>, window: Seq<int>, n: nat) -> Option<Seq<int>>
    decreases n,
{
    if n == 0 {
        Some(Seq::empty())
    } else {
        match run(symbols, window, (n - 1) as nat) {
            Some(stack) => step(stack, symbols[n - 1], window),
            None => None,
        }
    }
}

/// The value of a formula on a window: the one value left on the stack
/// after all symbols have run. A formula that cannot be run, or leaves no
/// value or more than one, has no value.
pub open spec fn expression_value(symbols: Seq<Symbol>, window: Seq<int>) -> Option<int> {
    match run(symbols, window, symbols.len()) {
        Some(stack) => if stack.len() == 1 {
            Some(stack[0])
        } else {
            None
        },
        None => None,
    }
}

/// Once a formula has failed it stays failed.
pub proof fn lemma_run_fails_on(symbols: Seq<Symbol>, window: Seq<int>, n: nat, m: nat)
    requires
        n <= m,
        run(symbols, window, n) is None,
    ensures
        run(symbols, window, m) is None,
    decreases m,
{
    if n < m {
        lemma_run_fails_on(symbols, window, n, (m - 1) as nat);
    }
}

fn is_space_char(c: char) -> (b: bool)
    ensures
        b == is_space(c),
{
    ('\t' <= c && c <= '\r')
        || c == ' '
        || c == '\u{85}'
        || c == '\u{a0}'
        || c == '\u{1680}'
        || ('\u{2000}' <= c && c <= '\u{200a}')
        || c == '\u{2028}'
        || c == '\u{2029}'
        || c == '\u{202f}'
        || c == '\u{205f}'
        || c == '\u{3000}'
}

/// Tells what one word stands for.
fn classify(word: &str) -> (r: Option<Token>)
    ensures
        match symbol_of(word@) {
            Some(s) => r is Some && r->Some_0@ == s,
            None => r is None,
        },
{
    let len = word.unicode_len();
    if len == 1 {
        let c = word.get_char(0);
        if c == '+' {
            return Some(Token::Add);
        } else if c == '-' {
            return Some(Token::Sub);
        } else if c == '*' {
            return Some(Token::Mul);
        } else if 'a' <= c && c <= 'z' {
            let index = (c as u32 - 'a' as u32) as usize;
            return Some(Token::Term(index));
        }
    } else if len == 2 {
        if word.get_char(0) == '*' && word.get_char(1) == '*' {
            return Some(Token::Pow);
        }
    }
    match big_parse(word) {
        Ok(v) => Some(Token::Literal(v)),
        Err(_) => None,
    }
}

proof fn lemma_words_after_space(s: Seq<char>, pos: int, cur: Seq<char>)
    requires
        0 <= pos < s.len(),
        is_space(s[pos]),
    ensures
        words_after(s.skip(pos), cur) == finished(cur) + words_after(s.skip(pos + 1), Seq::empty()),
{
    assert(s.skip(pos).drop_first() =~= s.skip(pos + 1));
}

proof fn lemma_words_after_letter(s: Seq<char>, start: int, pos: int)
    requires
        0 <= start <= pos < s.len(),
        !is_space(s[pos]),
    ensures
        words_after(s.skip(pos), s.subrange(start, pos)) == words_after(
            s.skip(pos + 1),
            s.subrange(start, pos + 1),
        ),
{
    assert(s.skip(pos).drop_first() =~= s.skip(pos + 1));
    assert(s.subrange(start, pos).push(s[pos]) =~= s.subrange(start, pos + 1));
}

/// Classifies the word from `start` to `end` and appends its token. Tells
/// whether the word stands for anything.
fn push_word(expression: &str, start: usize, end: usize, tokens: &mut Vec<Token>) -> (ok: bool)
    requires
        start < end <= expression@.len(),
    ensures
        ok == symbol_of(expression@.subrange(start as int, end as int)) is Some,
        ok ==> final(tokens)@.len() == old(tokens)@.len() + 1 && final(tokens)@.take(
            old(tokens)@.len() as int,
        ) == old(tokens)@ && Some(final(tokens)@.last()@) == symbol_of(
            expression@.subrange(start as int, end as int),
        ),
        !ok ==> final(tokens)@ == old(tokens)@,
{
    let word = expression.substring_char(start, end);
    match classify(word) {
        Some(t) => {
            tokens.push(t);
            true
        },
        None => false,
    }
}

/// The tokens so far stand for the words so far.
spec fn stands_for(tokens: Seq<Token>, done: Seq<Seq<char>>) -> bool {
    &&& tokens.len() == done.len()
    &&& forall|i: int| 0 <= i < done.len() ==> Some(#[trigger] tokens[i]@) == symbol_of(done[i])
}

/// Compiles a formula: splits it at white space and settles, once, what
/// each word stands for. The formula is refused where a word is no
/// operator, no single lowercase letter and no integer literal. Whether the
/// letters lie within a window, and whether the operators find their
/// operands, shows only when the formula is evaluated.
pub fn compile(expression: &str) -> (r: Result<Expression, SequenceError>)
    ensures
        match r {
            Ok(e) => symbols_of(words(expression@)) == Some(e@),
            Err(err) => err == SequenceError::MalformedExpression && symbols_of(
                words(expression@),
            ) is None,
        },
{
    let ghost s = expression@;
    let n = expression.unicode_len();
    let mut tokens: Vec<Token> = Vec::new();
    let ghost mut done: Seq<Seq<char>> = Seq::empty();
    let mut start: usize = 0;
    let mut in_word = false;
    let mut pos: usize = 0;
    assert(s.skip(0) =~= s);
    while pos < n
        invariant
            pos <= n,
            n == s.len(),
            s == expression@,
            in_word ==> start < pos,
            words(s) == done + words_after(
                s.skip(pos as int),
                if in_word {
                    s.subrange(start as int, pos as int)
                } else {
                    Seq::empty()
                },
            ),
            stands_for(tokens@, done),
        decreases n - pos,
    {
        let c = expression.get_char(pos);
        let ghost cur = if in_word {
            s.subrange(start as int, pos as int)
        } else {
            Seq::empty()
        };
        if is_space_char(c) {
            proof {
                lemma_words_after_space(s, pos as int, cur);
            }
            if in_word {
                let ghost before = tokens@;
                let ok = push_word(expression, start, pos, &mut tokens);
                if !ok {
                    proof {
                        let ws = words(s);
                        assert(ws[done.len() as int] == cur);
                    }
                    return Err(SequenceError::MalformedExpression);
                }
                proof {
                    assert forall|i: int| 0 <= i < done.len() implies Some(#[trigger] tokens@[i]@)
                        == symbol_of(done[i]) by {
                        assert(tokens@[i] == before[i]);
                    }
                    done = done.push(cur);
                }
                in_word = false;
            }
        } else {
            if !in_word {
                start = pos;
                in_word = true;
                assert(s.subrange(pos as int, pos as int) =~= Seq::<char>::empty());
            }
            proof {
                lemma_words_after_letter(s, start as int, pos as int);
            }
        }
        pos += 1;
    }
    if in_word {
        let ghost cur = s.subrange(start as int, n as int);
        let ghost before = tokens@;
        let ok = push_word(expression, start, n, &mut tokens);
        if !ok {
            proof {
                let ws = words(s);
                assert(ws[done.len() as int] == cur);
            }
            return Err(SequenceError::MalformedExpression);
        }
        proof {
            assert forall|i: int| 0 <= i < done.len() implies Some(#[trigger] tokens@[i]@)
                == symbol_of(done[i]) by {
                assert(tokens@[i] == before[i]);
            }
            done = done.push(cur);
        }
    }
    let compiled = Expression { tokens };
    proof {
        let ws = words(s);
        assert forall|i: int| 0 <= i < ws.len() implies symbol_of(#[trigger] ws[i]) is Some by {
            assert(Some(compiled.tokens@[i]@) == symbol_of(done[i]));
        }
    }
    Ok(compiled)
}

impl Expression {
    /// Runs the formula on a window, oldest term first, and returns the one
    /// value that it leaves. The formula is malformed for this window where
    /// an operator finds fewer than two values, a letter lies beyond the
    /// window, an exponent is negative or too large for the machine, or the
    /// end leaves no value or more than one.
    pub fn evaluate(&self, window: &VecDeque<IBig>) -> (r: Result<IBig, SequenceError>)
        ensures
            match expression_value(self@, values(window@)) {
                Some(v) => r is Ok && int_of(r->Ok_0) == v,
                None => r == Err::<IBig, SequenceError>(SequenceError::MalformedExpression),
            },
    {
        let ghost symbols = self@;
        let ghost w = values(window@);
        let n = self.tokens.len();
        let mut stack: Vec<IBig> = Vec::new();
        let mut i: usize = 0;
        while i < n
            invariant
                i <= n,
                n == self.tokens.len(),
                symbols == self@,
                w == values(window@),
                run(symbols, w, i as nat) == Some(values(stack@)),
            decreases n - i,
        {
            match &self.tokens[i] {
                Token::Term(index) => {
                    let at: usize = *index;
                    if at < window.len() {
                        let term = big_clone(&window[at]);
                        stack.push(term);
                    } else {
                        proof {
                            lemma_run_fails_on(symbols, w, (i + 1) as nat, n as nat);
                        }
                        return Err(SequenceError::MalformedExpression);
                    }
                },
                Token::Literal(v) => {
                    let constant = big_clone(v);
                    stack.push(constant);
                },
                operator => {
                    if stack.len() < 2 {
                        proof {
                            lemma_run_fails_on(symbols, w, (i + 1) as nat, n as nat);
                        }
                        return Err(SequenceError::MalformedExpression);
                    }
                    let b = stack.pop().unwrap();
                    let a = stack.pop().unwrap();
                    let value = match operator {
                        Token::Add => big_add(&a, &b),
                        Token::Sub => big_sub(&a, &b),
                        Token::Mul => big_mul(&a, &b),
                        _ => {
                            match big_to_usize(&b) {
                                Ok(exponent) => big_pow(&a, exponent),
                                Err(_) => {
                                    proof {
                                        lemma_run_fails_on(symbols, w, (i + 1) as nat, n as nat);
                                    }
                                    return Err(SequenceError::MalformedExpression);
                                },
                            }
                        },
                    };
                    stack.push(value);
                },
            }
            i += 1;
        }
        if stack.len() == 1 {
            Ok(stack.pop().unwrap())
        } else {
            Err(SequenceError::MalformedExpression)
        }
    }
}

} // verus!
