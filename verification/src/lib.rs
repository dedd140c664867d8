//! A small arithmetic-expression front end: a lexer that turns raw text into
//! a token sequence, and a backtracking recursive-descent parser that decides
//! whether the sequence belongs to an arithmetic grammar with integers, the
//! four operators and parenthesized sub-expressions.

pub mod collections;
pub mod lexer;

use vstd::prelude::*;

use crate::lexer::iterators::{bytes_len, lemma_bytes_len_ge_len};
use crate::lexer::{spec_lex, Lexer, Token};

verus! {

/// The tokens left after consuming `n` from the front, clamped so that
/// consuming more than the whole sequence leaves nothing.
pub open spec fn rest_after(t: Seq<Token>, n: int) -> Seq<Token> {
    if 0 <= n <= t.len() {
        t.skip(n)
    } else if n > t.len() {
        Seq::empty()
    } else {
        t
    }
}

/// How many tokens the grammar rule `Expr := Integer ExprPrime | Bracket
/// ExprPrime` consumes from the front of `t`, tried in that order, or `None`
/// when neither alternative matches.
pub open spec fn match_expr(t: Seq<Token>) -> Option<nat>
    decreases t.len(), 1int,
{
    if t.len() > 0 && (t[0] matches Token::Integer(_)) {
        Some((1 + match_expr_prime(rest_after(t, 1))) as nat)
    } else if t.len() > 0 && t[0] == Token::ParenL {
        match match_expr(rest_after(t, 1)) {
            Some(e) => {
                if 1 + e < t.len() && t[1 + e as int] == Token::ParenR {
                    Some((e + 2 + match_expr_prime(rest_after(t, e as int + 2))) as nat)
                } else {
                    None
                }
            },
            None => None,
        }
    } else {
        None
    }
}

/// How many tokens the rule `ExprPrime := AddSub | MulDiv | epsilon`
/// consumes: the alternatives are tried in that order and the empty
/// derivation makes the rule total.
pub open spec fn match_expr_prime(t: Seq<Token>) -> nat
    decreases t.len(), 3int,
{
    match match_addsub(t) {
        Some(n) => n,
        None => match match_muldiv(t) {
            Some(n) => n,
            None => 0,
        },
    }
}

/// How many tokens the rule `AddSub := ('+' | '-') Expr ExprPrime` consumes,
/// or `None` when it does not match.
pub open spec fn match_addsub(t: Seq<Token>) -> Option<nat>
    decreases t.len(), 2int,
{
    if t.len() > 0 && (t[0] == Token::Add || t[0] == Token::Sub) {
        match match_expr(rest_after(t, 1)) {
            Some(e) => Some((1 + e + match_expr_prime(rest_after(t, 1 + e as int))) as nat),
            None => None,
        }
    } else {
        None
    }
}

/// How many tokens the rule `MulDiv := ('*' | '/') Expr ExprPrime` consumes,
/// or `None` when it does not match.
pub open spec fn match_muldiv(t: Seq<Token>) -> Option<nat>
    decreases t.len(), 2int,
{
    if t.len() > 0 && (t[0] == Token::Mul || t[0] == Token::Div) {
        match match_expr(rest_after(t, 1)) {
            Some(e) => Some((1 + e + match_expr_prime(rest_after(t, 1 + e as int))) as nat),
            None => None,
        }
    } else {
        None
    }
}

/// How many tokens the rule `Bracket := '(' Expr ')'` consumes, or `None`
/// when it does not match.
pub open spec fn match_bracket(t: Seq<Token>) -> Option<nat> {
    if t.len() > 0 && t[0] == Token::ParenL {
        match match_expr(rest_after(t, 1)) {
            Some(e) => {
                if 1 + e < t.len() && t[1 + e as int] == Token::ParenR {
                    Some((e + 2) as nat)
                } else {
                    None
                }
            },
            None => None,
        }
    } else {
        None
    }
}

/// Whether the grammar derives the entire token sequence: the top rule must
/// match and leave no trailing token unconsumed.
pub open spec fn parse_accepted(toks: Seq<Token>) -> bool {
    match match_expr(toks) {
        Some(n) => n == toks.len(),
        None => false,
    }
}

/// A matching rule consumes at least its leading token and never more than
/// the whole sequence.
pub proof fn lemma_match_bounds(t: Seq<Token>)
    ensures
        match_expr(t) matches Some(n) ==> 1 <= n <= t.len(),
        match_expr_prime(t) <= t.len(),
        match_addsub(t) matches Some(n) ==> 2 <= n <= t.len(),
        match_muldiv(t) matches Some(n) ==> 2 <= n <= t.len(),
    decreases t.len(),
{
    if t.len() > 0 {
        lemma_match_bounds(t.skip(1));
        assert(rest_after(t, 1) == t.skip(1));
        if t[0] == Token::ParenL {
            match match_expr(t.skip(1)) {
                Some(e) => {
                    if 1 + e < t.len() && t[1 + e as int] == Token::ParenR {
                        lemma_match_bounds(rest_after(t, e as int + 2));
                    }
                },
                None => {},
            }
        }
        if t[0] == Token::Add || t[0] == Token::Sub || t[0] == Token::Mul || t[0]
            == Token::Div {
            match match_expr(t.skip(1)) {
                Some(e) => {
                    lemma_match_bounds(rest_after(t, 1 + e as int));
                },
                None => {},
            }
        }
    }
}

/// A token a derivation can end on: an operand, not an operator.
pub open spec fn is_operand_end(tok: Token) -> bool {
    tok matches Token::Integer(_) || tok == Token::ParenR
}

/// The last token any matching rule consumes is an integer or a closing
/// parenthesis, never an operator or an opening parenthesis.
pub proof fn lemma_match_ends_with_operand(t: Seq<Token>)
    ensures
        match_expr(t) matches Some(n) ==> is_operand_end(t[n - 1]),
        match_expr_prime(t) > 0 ==> is_operand_end(t[match_expr_prime(t) - 1]),
        match_addsub(t) matches Some(n) ==> is_operand_end(t[n - 1]),
        match_muldiv(t) matches Some(n) ==> is_operand_end(t[n - 1]),
    decreases t.len(),
{
    lemma_match_bounds(t);
    if t.len() > 0 {
        lemma_match_bounds(t.skip(1));
        lemma_match_ends_with_operand(t.skip(1));
        assert(rest_after(t, 1) == t.skip(1));
        if t[0] matches Token::Integer(_) {
            let p = match_expr_prime(t.skip(1));
            if p > 0 {
                assert(t.skip(1)[p - 1] == t[p as int]);
            }
        } else if t[0] == Token::ParenL {
            match match_expr(t.skip(1)) {
                Some(e) => {
                    if 1 + e < t.len() && t[1 + e as int] == Token::ParenR {
                        lemma_match_bounds(rest_after(t, e as int + 2));
                        lemma_match_ends_with_operand(rest_after(t, e as int + 2));
                        let p = match_expr_prime(rest_after(t, e as int + 2));
                        if p > 0 {
                            assert(rest_after(t, e as int + 2)[p - 1] == t[e + 2 + p - 1]);
                        }
                    }
                },
                None => {},
            }
        }
        if t[0] == Token::Add || t[0] == Token::Sub || t[0] == Token::Mul || t[0]
            == Token::Div {
            match match_expr(t.skip(1)) {
                Some(e) => {
                    lemma_match_bounds(rest_after(t, 1 + e as int));
                    lemma_match_ends_with_operand(rest_after(t, 1 + e as int));
                    let p = match_expr_prime(rest_after(t, 1 + e as int));
                    if p == 0 {
                        assert(t.skip(1)[e as int - 1] == t[e as int]);
                    } else {
                        assert(rest_after(t, 1 + e as int)[p - 1] == t[1 + e + p - 1]);
                    }
                },
                None => {},
            }
        }
    }
}

/// An accepted token sequence never ends on a dangling operator or an
/// unclosed opening parenthesis: its last token is an integer or a closing
/// parenthesis.
pub proof fn lemma_no_dangling_operator(toks: Seq<Token>)
    requires
        parse_accepted(toks),
        toks.len() > 0,
    ensures
        is_operand_end(toks.last()),
{
    lemma_match_bounds(toks);
    lemma_match_ends_with_operand(toks);
}

/// A top-rule match that leaves trailing tokens unconsumed is not
/// acceptance: the parser accepts only a derivation of the whole sequence.
pub proof fn lemma_full_consumption_required(toks: Seq<Token>, n: nat)
    requires
        match_expr(toks) == Some(n),
        n < toks.len(),
    ensures
        !parse_accepted(toks),
{
}

/// The parser: lexes the text and decides membership in the arithmetic
/// grammar by backtracking recursive descent. Its view is the token
/// sequence of the last run.
pub struct Parser {
    lex: Lexer,
}

impl View for Parser {
    type V = Seq<Token>;

    closed spec fn view(&self) -> Seq<Token> {
        self.lex@
    }
}

/// The parser's cursor into the token sequence. The whole state is a plain
/// copyable value, so a rule snapshots it before a speculative branch and
/// assigns the snapshot back when the branch fails.
#[derive(Copy, Clone)]
pub struct ParserState<'a> {
    tokens: &'a [Token],
    token_cursor: usize,
}

impl<'a> ParserState<'a> {
    /// The token sequence the cursor reads.
    pub closed spec fn toks(&self) -> Seq<Token> {
        self.tokens@
    }

    /// The cursor's position.
    pub closed spec fn cursor(&self) -> int {
        self.token_cursor as int
    }

    pub open spec fn wf(&self) -> bool {
        0 <= self.cursor() <= self.toks().len() && self.toks().len() < usize::MAX
    }

    /// The tokens not yet consumed.
    pub open spec fn remaining(&self) -> Seq<Token> {
        self.toks().skip(self.cursor())
    }

    /// The token the cursor stands on, or `None` past the end.
    pub open spec fn peek(&self) -> Option<Token> {
        if 0 <= self.cursor() < self.toks().len() {
            Some(self.toks()[self.cursor()])
        } else {
            None
        }
    }

    /// The one primitive that moves the cursor: consumes the next token
    /// exactly when the predicate accepts it (or accepts the end of input),
    /// saving the pre-consumption state into `ss`; otherwise it reports
    /// failure and leaves both states untouched.
    pub fn accept<CB: Fn(Option<Token>) -> bool>(
        &mut self,
        ss: &mut ParserState<'a>,
        f: CB,
    ) -> (r: bool)
        requires
            old(self).cursor() < usize::MAX,
            call_requires(f, (old(self).peek(),)),
        ensures
            final(self).toks() == old(self).toks(),
            r ==> call_ensures(f, (old(self).peek(),), true) && final(ss).toks() == old(
                self,
            ).toks() && final(ss).cursor() == old(self).cursor() && final(self).cursor() == old(
                self,
            ).cursor() + 1,
            !r ==> call_ensures(f, (old(self).peek(),), false) && final(self).cursor() == old(
                self,
            ).cursor() && final(ss).toks() == old(ss).toks() && final(ss).cursor() == old(
                ss,
            ).cursor(),
    {
        let token = if self.token_cursor < self.tokens.len() {
            Some(self.tokens[self.token_cursor])
        } else {
            None
        };
        if f(token) {
            *ss = *self;
            self.token_cursor += 1;
            true
        } else {
            false
        }
    }

    /// Moves the cursor one token backwards.
    pub fn return_token(&mut self)
        requires
            old(self).cursor() >= 1,
        ensures
            final(self).toks() == old(self).toks(),
            final(self).cursor() == old(self).cursor() - 1,
    {
        self.token_cursor -= 1;
    }

    /// Whether the cursor has consumed the whole token sequence.
    pub fn all_tokens_used(&self) -> (r: bool)
        ensures
            r == (self.cursor() >= self.toks().len()),
    {
        self.token_cursor >= self.tokens.len()
    }
}

impl Parser {
    pub fn new() -> (r: Self)
        ensures
            r@ == Seq::<Token>::empty(),
    {
        Self { lex: Lexer::new() }
    }

    /// Lexes the text and reports whether the grammar derives the whole
    /// token sequence; trailing unconsumed tokens mean rejection.
    pub fn parse(&mut self, text: &str) -> (r: bool)
        requires
            bytes_len(text@) < usize::MAX,
        ensures
            final(self)@ == spec_lex(text@),
            r == parse_accepted(spec_lex(text@)),
    {
        self.lex.lex(text);
        let tokens = self.lex.tokens();
        proof {
            crate::lexer::lemma_lex_from_len(text@, Seq::empty());
            lemma_bytes_len_ge_len(text@);
            lemma_match_bounds(tokens@);
        }
        let mut state = ParserState { tokens, token_cursor: 0 };
        proof {
            assert(state.remaining() =~= tokens@);
        }
        let r0 = Self::start(&mut state);
        let r = r0 && state.all_tokens_used();
        r
    }

    fn start(state: &mut ParserState<'_>) -> (r: bool)
        requires
            old(state).wf(),
        ensures
            final(state).wf(),
            final(state).toks() == old(state).toks(),
            r == (match_expr(old(state).remaining()) is Some),
            r ==> final(state).cursor() >= old(state).cursor() && match_expr(
                old(state).remaining(),
            ) == Some((final(state).cursor() - old(state).cursor()) as nat),
            !r ==> final(state).cursor() == old(state).cursor(),
    {
        Self::arith_expr(state)
    }

    fn arith_expr(state: &mut ParserState<'_>) -> (r: bool)
        requires
            old(state).wf(),
        ensures
            final(state).wf(),
            final(state).toks() == old(state).toks(),
            r == (match_expr(old(state).remaining()) is Some),
            r ==> final(state).cursor() >= old(state).cursor() && match_expr(
                old(state).remaining(),
            ) == Some((final(state).cursor() - old(state).cursor()) as nat),
            !r ==> final(state).cursor() == old(state).cursor(),
        decreases state.toks().len() - state.cursor(), 1int,
    {
        let ghost rem0 = old(state).remaining();
        let mut os = *state;
        let c0 = state.accept(
            &mut os,
            |tok: Option<Token>| -> (b: bool)
                ensures
                    b == (tok matches Some(Token::Integer(_)))
                {
                    matches!(tok, Some(Token::Integer(_)))
                },
        );
        if c0 {
            proof {
                assert(old(state).peek() matches Some(tk) && (tk matches Token::Integer(_)));
                assert(rem0[0] == old(state).toks()[old(state).cursor()]);
                assert(state.remaining() =~= rem0.skip(1));
                assert(rest_after(rem0, 1) == rem0.skip(1));
            }
            Self::arith_expr_prime(state);
            return true;
        }
        *state = os;
        proof {
            assert(rem0.len() > 0 ==> rem0[0] == old(state).toks()[old(state).cursor()]);
            assert(!(rem0.len() > 0 && (rem0[0] matches Token::Integer(_))));
        }
        let b = Self::arith_bracket(state);
        if b {
            let ghost mid = *state;
            let ghost bn: nat = (mid.cursor() - old(state).cursor()) as nat;
            proof {
                assert(match_bracket(rem0) == Some(bn));
                match match_expr(rest_after(rem0, 1)) {
                    Some(e) => {
                        assert(bn == e + 2);
                        assert(1 + e < rem0.len());
                    },
                    None => {
                        assert(false);
                    },
                }
                assert(mid.remaining() =~= rest_after(rem0, bn as int));
            }
            Self::arith_expr_prime(state);
            return true;
        }
        *state = os;
        false
    }

    fn arith_expr_prime(state: &mut ParserState<'_>) -> (r: bool)
        requires
            old(state).wf(),
        ensures
            final(state).wf(),
            final(state).toks() == old(state).toks(),
            r,
            final(state).cursor() == old(state).cursor() + match_expr_prime(
                old(state).remaining(),
            ),
        decreases state.toks().len() - state.cursor(), 3int,
    {
        let epsilon = *state;
        let a = Self::arith_addsub(state);
        if a {
            return true;
        }
        *state = epsilon;
        let m = Self::arith_muldiv(state);
        if m {
            return true;
        }
        *state = epsilon;
        true
    }

    fn arith_bracket(state: &mut ParserState<'_>) -> (r: bool)
        requires
            old(state).wf(),
        ensures
            final(state).wf(),
            final(state).toks() == old(state).toks(),
            r == (match_bracket(old(state).remaining()) is Some),
            r ==> final(state).cursor() >= old(state).cursor() && match_bracket(
                old(state).remaining(),
            ) == Some((final(state).cursor() - old(state).cursor()) as nat),
            !r ==> final(state).cursor() == old(state).cursor(),
        decreases state.toks().len() - state.cursor(), 0int,
    {
        let ghost rem0 = old(state).remaining();
        let mut os = *state;
        let c0 = state.accept(
            &mut os,
            |tok: Option<Token>| -> (b: bool)
                ensures
                    b == (tok matches Some(Token::ParenL))
                {
                    matches!(tok, Some(Token::ParenL))
                },
        );
        if c0 {
            proof {
                assert(rem0[0] == old(state).toks()[old(state).cursor()]);
                assert(state.remaining() =~= rem0.skip(1));
                assert(rest_after(rem0, 1) == rem0.skip(1));
            }
            let e_ok = Self::arith_expr(state);
            if e_ok {
                let ghost mid = *state;
                let ghost e: nat = (mid.cursor() - old(state).cursor() - 1) as nat;
                proof {
                    assert(match_expr(rest_after(rem0, 1)) == Some(e));
                }
                let c1 = state.accept(
                    &mut os,
                    |tok: Option<Token>| -> (b: bool)
                        ensures
                            b == (tok matches Some(Token::ParenR))
                        {
                            matches!(tok, Some(Token::ParenR))
                        },
                );
                proof {
                    lemma_match_bounds(rest_after(rem0, 1));
                    assert(mid.cursor() == old(state).cursor() + 1 + e);
                    if 1 + e < rem0.len() {
                        assert(mid.peek() == Some(rem0[1 + e as int]));
                    } else {
                        assert(mid.peek() is None);
                    }
                }
                if c1 {
                    return true;
                }
                *state = os;
                return false;
            }
            *state = os;
            return false;
        }
        proof {
            assert(rem0.len() > 0 ==> rem0[0] == old(state).toks()[old(state).cursor()]);
        }
        false
    }

    fn arith_addsub(state: &mut ParserState<'_>) -> (r: bool)
        requires
            old(state).wf(),
        ensures
            final(state).wf(),
            final(state).toks() == old(state).toks(),
            r == (match_addsub(old(state).remaining()) is Some),
            r ==> final(state).cursor() >= old(state).cursor() && match_addsub(
                old(state).remaining(),
            ) == Some((final(state).cursor() - old(state).cursor()) as nat),
            !r ==> final(state).cursor() == old(state).cursor(),
        decreases state.toks().len() - state.cursor(), 2int,
    {
        let ghost rem0 = old(state).remaining();
        let mut os = *state;
        let c0 = state.accept(
            &mut os,
            |tok: Option<Token>| -> (b: bool)
                ensures
                    b == (tok matches Some(Token::Add) || tok matches Some(Token::Sub))
                {
                    matches!(tok, Some(Token::Add)) || matches!(tok, Some(Token::Sub))
                },
        );
        if c0 {
            proof {
                assert(rem0[0] == old(state).toks()[old(state).cursor()]);
                assert(state.remaining() =~= rem0.skip(1));
                assert(rest_after(rem0, 1) == rem0.skip(1));
            }
            let e_ok = Self::arith_expr(state);
            if e_ok {
                let ghost mid = *state;
                let ghost e: nat = (mid.cursor() - old(state).cursor() - 1) as nat;
                proof {
                    assert(match_expr(rest_after(rem0, 1)) == Some(e));
                    lemma_match_bounds(rest_after(rem0, 1));
                    assert(mid.remaining() =~= rest_after(rem0, 1 + e as int));
                }
                Self::arith_expr_prime(state);
                return true;
            }
            *state = os;
            return false;
        }
        proof {
            assert(rem0.len() > 0 ==> rem0[0] == old(state).toks()[old(state).cursor()]);
        }
        false
    }

    fn arith_muldiv(state: &mut ParserState<'_>) -> (r: bool)
        requires
            old(state).wf(),
        ensures
            final(state).wf(),
            final(state).toks() == old(state).toks(),
            r == (match_muldiv(old(state).remaining()) is Some),
            r ==> final(state).cursor() >= old(state).cursor() && match_muldiv(
                old(state).remaining(),
            ) == Some((final(state).cursor() - old(state).cursor()) as nat),
            !r ==> final(state).cursor() == old(state).cursor(),
        decreases state.toks().len() - state.cursor(), 2int,
    {
        let ghost rem0 = old(state).remaining();
        let mut os = *state;
        let c0 = state.accept(
            &mut os,
            |tok: Option<Token>| -> (b: bool)
                ensures
                    b == (tok matches Some(Token::Mul) || tok matches Some(Token::Div))
                {
                    matches!(tok, Some(Token::Mul)) || matches!(tok, Some(Token::Div))
                },
        );
        if c0 {
            proof {
                assert(rem0[0] == old(state).toks()[old(state).cursor()]);
                assert(state.remaining() =~= rem0.skip(1));
                assert(rest_after(rem0, 1) == rem0.skip(1));
            }
            let e_ok = Self::arith_expr(state);
            if e_ok {
                let ghost mid = *state;
                let ghost e: nat = (mid.cursor() - old(state).cursor() - 1) as nat;
                proof {
                    assert(match_expr(rest_after(rem0, 1)) == Some(e));
                    lemma_match_bounds(rest_after(rem0, 1));
                    assert(mid.remaining() =~= rest_after(rem0, 1 + e as int));
                }
                Self::arith_expr_prime(state);
                return true;
            }
            *state = os;
            return false;
        }
        proof {
            assert(rem0.len() > 0 ==> rem0[0] == old(state).toks()[old(state).cursor()]);
        }
        false
    }
}

impl Default for Parser {
    fn default() -> (r: Self)
        ensures
            r@ == Seq::<Token>::empty(),
    {
        Self::new()
    }
}

} // verus!
