pub mod iterators;
pub mod range;

use vstd::prelude::*;
use vstd::string::StrSliceExecFns;

use crate::lexer::iterators::{bytes_len, lemma_bytes_len_take_succ, ByteTracker};
use crate::lexer::range::MyRange;

verus! {

/// One lexical symbol of the arithmetic language.
#[derive(Debug, Copy, Clone, PartialEq, Eq, Structural)]
pub enum Token {
    Integer(i32),
    Add,
    Sub,
    Div,
    Mul,
    ParenL,
    ParenR,
}

/// True of the ten decimal digit characters.
pub open spec fn is_digit_char(c: char) -> bool {
    ('0' as u32) <= (c as u32) && (c as u32) <= ('9' as u32)
}

/// Numeric value of one digit character.
pub open spec fn digit_val(c: char) -> int {
    (c as u32) - ('0' as u32)
}

/// Value of a digit run read as a decimal numeral.
pub open spec fn digits_val(s: Seq<char>) -> int
    decreases s.len(),
{
    if s.len() == 0 {
        0
    } else {
        digits_val(s.drop_last()) * 10 + digit_val(s.last())
    }
}

/// The 32-bit value the lexer gives a digit run: the numeral's value when it
/// fits, and zero when it does not.
pub open spec fn i32_of_digits(s: Seq<char>) -> i32 {
    if digits_val(s) <= i32::MAX as int {
        digits_val(s) as i32
    } else {
        0
    }
}

/// The integer token a flushed digit run becomes.
pub open spec fn token_of_digits(s: Seq<char>) -> Token {
    Token::Integer(i32_of_digits(s))
}

/// The token an operator or parenthesis character stands for, if any.
pub open spec fn symbol_token(c: char) -> Option<Token> {
    if c == '+' {
        Some(Token::Add)
    } else if c == '-' {
        Some(Token::Sub)
    } else if c == '*' {
        Some(Token::Mul)
    } else if c == '/' {
        Some(Token::Div)
    } else if c == '(' {
        Some(Token::ParenL)
    } else if c == ')' {
        Some(Token::ParenR)
    } else {
        None
    }
}

/// The tokens the lexer's state machine emits from the remaining text `s`
/// when it has already accumulated the digit run `run` of the number it is
/// reading: a digit extends the run; any other character first flushes the
/// run as an integer token and is then examined again with the run empty;
/// an operator or parenthesis becomes its token; any other character is
/// dropped; and the end of the text flushes a pending run.
pub open spec fn lex_from(s: Seq<char>, run: Seq<char>) -> Seq<Token>
    decreases s.len(), run.len(),
{
    if s.len() == 0 {
        if run.len() > 0 {
            seq![token_of_digits(run)]
        } else {
            seq![]
        }
    } else if run.len() > 0 {
        if is_digit_char(s[0]) {
            lex_from(s.drop_first(), run.push(s[0]))
        } else {
            seq![token_of_digits(run)] + lex_from(s, Seq::empty())
        }
    } else {
        if is_digit_char(s[0]) {
            lex_from(s.drop_first(), seq![s[0]])
        } else {
            match symbol_token(s[0]) {
                Some(t) => seq![t] + lex_from(s.drop_first(), Seq::empty()),
                None => lex_from(s.drop_first(), Seq::empty()),
            }
        }
    }
}

/// The token sequence the lexer produces from the given text.
pub open spec fn spec_lex(text: Seq<char>) -> Seq<Token> {
    lex_from(text, Seq::empty())
}

/// The lexer emits at most one token per remaining character, plus one for
/// a pending digit run.
pub proof fn lemma_lex_from_len(s: Seq<char>, run: Seq<char>)
    ensures
        lex_from(s, run).len() <= s.len() + if run.len() > 0 {
            1int
        } else {
            0int
        },
    decreases s.len(), run.len(),
{
    if s.len() == 0 {
    } else if run.len() > 0 {
        if is_digit_char(s[0]) {
            lemma_lex_from_len(s.drop_first(), run.push(s[0]));
        } else {
            lemma_lex_from_len(s, Seq::empty());
        }
    } else {
        if is_digit_char(s[0]) {
            lemma_lex_from_len(s.drop_first(), seq![s[0]]);
        } else {
            lemma_lex_from_len(s.drop_first(), Seq::empty());
        }
    }
}

/// The digit character for one decimal digit value.
pub open spec fn digit_char(d: int) -> char {
    if d == 0 {
        '0'
    } else if d == 1 {
        '1'
    } else if d == 2 {
        '2'
    } else if d == 3 {
        '3'
    } else if d == 4 {
        '4'
    } else if d == 5 {
        '5'
    } else if d == 6 {
        '6'
    } else if d == 7 {
        '7'
    } else if d == 8 {
        '8'
    } else {
        '9'
    }
}

/// The decimal numeral of a non-negative value, most significant digit first.
pub open spec fn dec_digits(n: int) -> Seq<char>
    decreases n,
{
    if n < 10 {
        seq![digit_char(n)]
    } else {
        dec_digits(n / 10).push(digit_char(n % 10))
    }
}

/// The canonical text of one token.
pub open spec fn token_text(t: Token) -> Seq<char> {
    match t {
        Token::Integer(v) => dec_digits(v as int),
        Token::Add => seq!['+'],
        Token::Sub => seq!['-'],
        Token::Mul => seq!['*'],
        Token::Div => seq!['/'],
        Token::ParenL => seq!['('],
        Token::ParenR => seq![')'],
    }
}

/// The canonical text of a token sequence: each token's text followed by one
/// space, so that adjacent integer tokens stay separate.
pub open spec fn render_tokens(ts: Seq<Token>) -> Seq<char>
    decreases ts.len(),
{
    if ts.len() == 0 {
        Seq::empty()
    } else {
        token_text(ts[0]) + seq![' '] + render_tokens(ts.drop_first())
    }
}

/// A token the lexer can produce: an integer token never holds a negative
/// value, since the lexer reads bare numerals.
pub open spec fn wf_token(t: Token) -> bool {
    match t {
        Token::Integer(v) => 0 <= v,
        _ => true,
    }
}

/// A digit run's value is never negative.
pub proof fn lemma_digits_val_nonneg(s: Seq<char>)
    requires
        forall|j: int| 0 <= j < s.len() ==> is_digit_char(#[trigger] s[j]),
    ensures
        digits_val(s) >= 0,
    decreases s.len(),
{
    if s.len() > 0 {
        lemma_digits_val_nonneg(s.drop_last());
    }
}

/// The decimal numeral of a non-negative value is a non-empty digit run that
/// reads back as that value.
pub proof fn lemma_dec_digits(n: int)
    requires
        0 <= n,
    ensures
        dec_digits(n).len() >= 1,
        forall|j: int| 0 <= j < dec_digits(n).len() ==> is_digit_char(#[trigger] dec_digits(n)[j]),
        digits_val(dec_digits(n)) == n,
    decreases n,
{
    if n < 10 {
        assert(dec_digits(n) =~= seq![digit_char(n)]);
        assert(dec_digits(n).drop_last() =~= Seq::<char>::empty());
        assert(digits_val(Seq::<char>::empty()) == 0);
        assert(dec_digits(n).last() == digit_char(n));
        assert(digits_val(dec_digits(n)) == digit_val(digit_char(n)));
    } else {
        lemma_dec_digits(n / 10);
        assert(dec_digits(n) == dec_digits(n / 10).push(digit_char(n % 10)));
        assert(dec_digits(n).drop_last() =~= dec_digits(n / 10));
        assert(dec_digits(n).last() == digit_char(n % 10));
    }
}

/// Lexing a digit run followed by more text accumulates the run: the digits
/// move from the text into the pending run.
pub proof fn lemma_lex_digits(d: Seq<char>, tail: Seq<char>, run: Seq<char>)
    requires
        forall|j: int| 0 <= j < d.len() ==> is_digit_char(#[trigger] d[j]),
    ensures
        lex_from(d + tail, run) == lex_from(tail, run + d),
    decreases d.len(),
{
    if d.len() == 0 {
        assert(d + tail =~= tail);
        assert(run + d =~= run);
    } else {
        assert((d + tail)[0] == d[0]);
        assert((d + tail).drop_first() =~= d.drop_first() + tail);
        if run.len() > 0 {
            lemma_lex_digits(d.drop_first(), tail, run.push(d[0]));
            assert(run.push(d[0]) + d.drop_first() =~= run + d);
        } else {
            lemma_lex_digits(d.drop_first(), tail, seq![d[0]]);
            assert(seq![d[0]] + d.drop_first() =~= run + d);
        }
    }
}

/// Lexing the canonical text of one well-formed token, followed by a space
/// and more text, yields that token and then the tokens of the rest.
pub proof fn lemma_lex_render_token(t: Token, rest: Seq<char>)
    requires
        wf_token(t),
    ensures
        lex_from(token_text(t) + seq![' '] + rest, Seq::empty()) == seq![t] + lex_from(
            rest,
            Seq::empty(),
        ),
{
    let sp = seq![' '];
    let tt = token_text(t);
    assert(tt + sp + rest =~= tt + (sp + rest));
    assert((sp + rest)[0] == ' ');
    assert((sp + rest).drop_first() =~= rest);
    assert(lex_from(sp + rest, Seq::empty()) == lex_from(rest, Seq::empty()));
    match t {
        Token::Integer(v) => {
            lemma_dec_digits(v as int);
            lemma_lex_digits(tt, sp + rest, Seq::empty());
            assert(Seq::<char>::empty() + tt =~= tt);
            assert(lex_from(tt + (sp + rest), Seq::empty()) == lex_from(sp + rest, tt));
            assert(lex_from(sp + rest, tt) == seq![token_of_digits(tt)] + lex_from(
                sp + rest,
                Seq::empty(),
            ));
            assert(token_of_digits(tt) == t);
        },
        _ => {
            assert((tt + (sp + rest))[0] == tt[0]);
            assert((tt + (sp + rest)).drop_first() =~= sp + rest);
            assert(lex_from(tt + (sp + rest), Seq::empty()) == seq![t] + lex_from(
                sp + rest,
                Seq::empty(),
            ));
        },
    }
}

/// Every token the lexer emits is well formed, as long as the pending run
/// holds only digits.
pub proof fn lemma_lex_from_wf(s: Seq<char>, run: Seq<char>)
    requires
        forall|j: int| 0 <= j < run.len() ==> is_digit_char(#[trigger] run[j]),
    ensures
        forall|k: int|
            0 <= k < lex_from(s, run).len() ==> wf_token(#[trigger] lex_from(s, run)[k]),
    decreases s.len(), run.len(),
{
    if run.len() > 0 {
        lemma_digits_val_nonneg(run);
        assert(wf_token(token_of_digits(run)));
    }
    if s.len() == 0 {
        if run.len() > 0 {
            assert(lex_from(s, run) =~= seq![token_of_digits(run)]);
        }
    } else if run.len() > 0 {
        if is_digit_char(s[0]) {
            lemma_lex_from_wf(s.drop_first(), run.push(s[0]));
            assert(lex_from(s, run) == lex_from(s.drop_first(), run.push(s[0])));
        } else {
            lemma_lex_from_wf(s, Seq::empty());
            let rest = lex_from(s, Seq::empty());
            assert(lex_from(s, run) == seq![token_of_digits(run)] + rest);
            assert forall|k: int|
                0 <= k < lex_from(s, run).len() implies wf_token(
                #[trigger] lex_from(s, run)[k],
            ) by {
                if k > 0 {
                    assert(lex_from(s, run)[k] == rest[k - 1]);
                }
            }
        }
    } else {
        if is_digit_char(s[0]) {
            lemma_lex_from_wf(s.drop_first(), seq![s[0]]);
            assert(lex_from(s, run) == lex_from(s.drop_first(), seq![s[0]]));
        } else {
            lemma_lex_from_wf(s.drop_first(), Seq::empty());
            let rest = lex_from(s.drop_first(), Seq::empty());
            match symbol_token(s[0]) {
                Some(t) => {
                    assert(wf_token(t));
                    assert(lex_from(s, run) == seq![t] + rest);
                    assert forall|k: int|
                        0 <= k < lex_from(s, run).len() implies wf_token(
                        #[trigger] lex_from(s, run)[k],
                    ) by {
                        if k > 0 {
                            assert(lex_from(s, run)[k] == rest[k - 1]);
                        }
                    }
                },
                None => {
                    assert(lex_from(s, run) == rest);
                },
            }
        }
    }
}

/// Lexing the canonical text of a sequence of well-formed tokens yields
/// exactly that sequence.
pub proof fn lemma_lex_render_tokens(ts: Seq<Token>)
    requires
        forall|k: int| 0 <= k < ts.len() ==> wf_token(#[trigger] ts[k]),
    ensures
        spec_lex(render_tokens(ts)) == ts,
    decreases ts.len(),
{
    if ts.len() == 0 {
    } else {
        lemma_lex_render_token(ts[0], render_tokens(ts.drop_first()));
        lemma_lex_render_tokens(ts.drop_first());
        assert(seq![ts[0]] + ts.drop_first() =~= ts);
    }
}

/// Lexing is idempotent across canonical re-serialization: lexing any text,
/// rendering the tokens back to their canonical form and lexing again yields
/// the identical token sequence.
pub proof fn lemma_lex_idempotent(text: Seq<char>)
    ensures
        spec_lex(render_tokens(spec_lex(text))) == spec_lex(text),
{
    lemma_lex_from_wf(text, Seq::empty());
    lemma_lex_render_tokens(spec_lex(text));
}

/// A leading character that is neither a digit nor an operator nor a
/// parenthesis, whitespace included, is dropped without a trace.
pub proof fn lemma_unrecognized_char_dropped(c: char, s: Seq<char>)
    requires
        !is_digit_char(c),
        symbol_token(c) is None,
    ensures
        spec_lex(seq![c] + s) == spec_lex(s),
{
    assert((seq![c] + s)[0] == c);
    assert((seq![c] + s).drop_first() =~= s);
}

/// True of the decimal digit characters, decided on the scalar value.
fn digit_glyph(c: char) -> (r: bool)
    ensures
        r == is_digit_char(c),
{
    let u = c as u32;
    ('0' as u32) <= u && u <= ('9' as u32)
}

/// The token an operator or parenthesis character stands for, if any.
fn symbol_token_of(c: char) -> (r: Option<Token>)
    ensures
        r == symbol_token(c),
{
    if c == '+' {
        Some(Token::Add)
    } else if c == '-' {
        Some(Token::Sub)
    } else if c == '*' {
        Some(Token::Mul)
    } else if c == '/' {
        Some(Token::Div)
    } else if c == '(' {
        Some(Token::ParenL)
    } else if c == ')' {
        Some(Token::ParenR)
    } else {
        None
    }
}

/// Reads a digit run as a decimal numeral, degrading to zero when the value
/// does not fit a 32-bit signed integer.
fn parse_i32_digits(digits: &str) -> (r: i32)
    requires
        forall|j: int| 0 <= j < digits@.len() ==> is_digit_char(#[trigger] digits@[j]),
    ensures
        r == i32_of_digits(digits@),
{
    let n = digits.unicode_len();
    let mut acc: i32 = 0;
    let mut over: bool = false;
    let mut k: usize = 0;
    while k < n
        invariant
            n == digits@.len(),
            k <= digits@.len(),
            forall|j: int| 0 <= j < digits@.len() ==> is_digit_char(#[trigger] digits@[j]),
            !over ==> acc == digits_val(digits@.take(k as int)) && 0 <= acc,
            over ==> digits_val(digits@.take(k as int)) > i32::MAX as int,
        decreases digits@.len() - k,
    {
        let c = digits.get_char(k);
        let d = (c as u32 - '0' as u32) as i32;
        proof {
            assert(digits@.take(k + 1).drop_last() =~= digits@.take(k as int));
            assert(digits@.take(k + 1).last() == digits@[k as int]);
            assert(digits_val(digits@.take(k + 1)) == digits_val(digits@.take(k as int)) * 10
                + digit_val(digits@[k as int]));
        }
        if over || acc > (i32::MAX - d) / 10 {
            proof {
                if over {
                    assert(digits_val(digits@.take(k as int)) * 10 + digit_val(digits@[k as int])
                        > i32::MAX as int) by (nonlinear_arith)
                        requires
                            digits_val(digits@.take(k as int)) > i32::MAX as int,
                            0 <= digit_val(digits@[k as int]),
                    ;
                }
            }
            over = true;
        } else {
            acc = acc * 10 + d;
        }
        k += 1;
    }
    proof {
        assert(digits@.take(digits@.len() as int) =~= digits@);
    }
    if over {
        0
    } else {
        acc
    }
}

/// State of the lexer's two-state machine: outside a number, or accumulating
/// the digits of one.
enum LexerState {
    Start,
    Number,
}

/// The lexer: drives a [`ByteTracker`] over the text through a two-state
/// machine and accumulates the emitted tokens.
pub struct Lexer {
    tokens: Vec<Token>,
}

impl View for Lexer {
    type V = Seq<Token>;

    closed spec fn view(&self) -> Seq<Token> {
        self.tokens@
    }
}

impl Lexer {
    pub fn new() -> (r: Self)
        ensures
            r@ == Seq::<Token>::empty(),
    {
        Self { tokens: Vec::new() }
    }

    /// Read-only view of the tokens the last run produced.
    pub fn tokens(&self) -> (r: &[Token])
        ensures
            r@ == self@,
    {
        self.tokens.as_slice()
    }

    /// Turns the text into its token sequence. Lexing is total: whitespace
    /// and unrecognized characters are dropped, and a numeral too large for
    /// a 32-bit signed integer degrades to zero.
    pub fn lex(&mut self, raw_text: &str)
        requires
            bytes_len(raw_text@) <= usize::MAX,
        ensures
            final(self)@ == spec_lex(raw_text@),
    {
        let ghost text = raw_text@;
        self.tokens = Vec::new();

        let n_chars = raw_text.unicode_len();
        let mut chars: Vec<char> = Vec::new();
        let mut k: usize = 0;
        while k < n_chars
            invariant
                n_chars == text.len(),
                k <= n_chars,
                chars@ == text.take(k as int),
                text == raw_text@,
            decreases n_chars - k,
        {
            let c = raw_text.get_char(k);
            chars.push(c);
            proof {
                assert(chars@ =~= text.take(k + 1));
            }
            k += 1;
        }
        proof {
            assert(chars@ =~= text);
        }

        let mut tracker = ByteTracker::new(chars);
        let mut state = LexerState::Start;
        let mut slice = MyRange::new();
        let ghost mut run: Seq<char> = Seq::empty();
        let mut i: usize = 0;

        loop
            invariant
                tracker.wf(),
                tracker.text() == text,
                text == raw_text@,
                bytes_len(text) <= usize::MAX,
                text.len() <= usize::MAX,
                tracker.idx() == i as int,
                i <= text.len(),
                run.len() <= i as int,
                (state is Number) <==> run.len() > 0,
                forall|j: int| 0 <= j < run.len() ==> is_digit_char(#[trigger] run[j]),
                state is Number ==> {
                    &&& run == text.subrange(i - run.len(), i as int)
                    &&& slice.lo() == bytes_len(text.take(i - run.len()))
                    &&& slice.hi() == bytes_len(text.take(i as int))
                },
                spec_lex(text) == self.tokens@ + lex_from(text.skip(i as int), run),
            ensures
                i == text.len(),
                run.len() <= i as int,
                (state is Number) <==> run.len() > 0,
                forall|j: int| 0 <= j < run.len() ==> is_digit_char(#[trigger] run[j]),
                state is Number ==> {
                    &&& run == text.subrange(i - run.len(), i as int)
                    &&& slice.lo() == bytes_len(text.take(i - run.len()))
                    &&& slice.hi() == bytes_len(text.take(i as int))
                },
                spec_lex(text) == self.tokens@ + lex_from(text.skip(i as int), run),
            decreases text.len() - i,
        {
            let cur = tracker.next();
            match cur {
                None => {
                    break ;
                },
                Some(ci) => {
                    proof {
                        assert(i < text.len());
                        assert(text.skip(i as int)[0] == text[i as int]);
                        assert(text.skip(i as int).drop_first() =~= text.skip(i + 1));
                    }
                    let ghost toks_before = self.tokens@;
                    let ghost run_before = run;
                    match state {
                        LexerState::Start => {
                            if digit_glyph(ci.glyph) {
                                slice = MyRange::start_at_and_include(ci.pos, ci.glyph);
                                state = LexerState::Number;
                                proof {
                                    run = run.push(ci.glyph);
                                    lemma_bytes_len_take_succ(text, i as int);
                                    assert(run_before =~= Seq::<char>::empty());
                                    assert(run =~= seq![text[i as int]]);
                                    assert(run =~= text.subrange(i as int, i + 1));
                                    assert(lex_from(text.skip(i as int), Seq::empty()) == lex_from(
                                        text.skip(i + 1),
                                        run,
                                    ));
                                }
                            } else {
                                match symbol_token_of(ci.glyph) {
                                    Some(tok) => {
                                        self.tokens.push(tok);
                                        proof {
                                            assert(lex_from(text.skip(i as int), Seq::empty())
                                                == seq![tok] + lex_from(
                                                text.skip(i + 1),
                                                Seq::empty(),
                                            ));
                                            assert(toks_before + (seq![tok] + lex_from(
                                                text.skip(i + 1),
                                                Seq::empty(),
                                            )) =~= self.tokens@ + lex_from(
                                                text.skip(i + 1),
                                                Seq::empty(),
                                            ));
                                        }
                                    },
                                    None => {
                                        proof {
                                            assert(lex_from(text.skip(i as int), Seq::empty())
                                                == lex_from(text.skip(i + 1), Seq::empty()));
                                        }
                                    },
                                }
                            }
                        },
                        LexerState::Number => {
                            if digit_glyph(ci.glyph) {
                                slice.expand(ci.pos, ci.glyph);
                                proof {
                                    run = run.push(ci.glyph);
                                    lemma_bytes_len_take_succ(text, i as int);
                                    assert(run =~= text.subrange(
                                        i + 1 - run.len(),
                                        i + 1,
                                    ));
                                    assert(lex_from(text.skip(i as int), run_before) == lex_from(
                                        text.skip(i + 1),
                                        run,
                                    ));
                                }
                            } else {
                                proof {
                                    assert(0 <= i - run.len() <= i as int <= text.len()
                                        && slice.lo() == bytes_len(
                                        #[trigger] text.take(i - run.len()),
                                    ) && slice.hi() == bytes_len(#[trigger] text.take(i as int)));
                                }
                                let seg = slice.as_text(raw_text);
                                proof {
                                    assert(seg@ == text.subrange(i - run.len(), i as int));
                                    assert(seg@ == run);
                                }
                                let v = parse_i32_digits(seg);
                                self.tokens.push(Token::Integer(v));
                                slice.clear_right();
                                state = LexerState::Start;
                                proof {
                                    run = Seq::empty();
                                    assert(Token::Integer(v) == token_of_digits(run_before));
                                    assert(lex_from(text.skip(i as int), run_before)
                                        == seq![token_of_digits(run_before)] + lex_from(
                                        text.skip(i as int),
                                        Seq::empty(),
                                    ));
                                }
                                match symbol_token_of(ci.glyph) {
                                    Some(tok) => {
                                        self.tokens.push(tok);
                                        proof {
                                            assert(lex_from(text.skip(i as int), Seq::empty())
                                                == seq![tok] + lex_from(
                                                text.skip(i + 1),
                                                Seq::empty(),
                                            ));
                                            assert(toks_before + lex_from(
                                                text.skip(i as int),
                                                run_before,
                                            ) =~= self.tokens@ + lex_from(
                                                text.skip(i + 1),
                                                Seq::empty(),
                                            ));
                                        }
                                    },
                                    None => {
                                        proof {
                                            assert(lex_from(text.skip(i as int), Seq::empty())
                                                == lex_from(text.skip(i + 1), Seq::empty()));
                                            assert(toks_before + lex_from(
                                                text.skip(i as int),
                                                run_before,
                                            ) =~= self.tokens@ + lex_from(
                                                text.skip(i + 1),
                                                Seq::empty(),
                                            ));
                                        }
                                    },
                                }
                            }
                        },
                    }
                    i += 1;
                },
            }
        }
        proof {
            assert(i == text.len());
            assert(text.skip(text.len() as int) =~= Seq::<char>::empty());
        }
        let ghost toks_at_end = self.tokens@;
        let ghost run_at_end = run;
        if let LexerState::Number = state {
            proof {
                assert(0 <= i - run.len() <= i as int <= text.len() && slice.lo() == bytes_len(
                    #[trigger] text.take(i - run.len()),
                ) && slice.hi() == bytes_len(#[trigger] text.take(i as int)));
            }
            let seg = slice.as_text(raw_text);
            proof {
                assert(seg@ == text.subrange(i - run.len(), i as int));
                assert(seg@ == run);
            }
            let v = parse_i32_digits(seg);
            self.tokens.push(Token::Integer(v));
            proof {
                assert(lex_from(Seq::<char>::empty(), run_at_end) =~= seq![
                    token_of_digits(run_at_end),
                ]);
                assert(toks_at_end + seq![token_of_digits(run_at_end)] =~= self.tokens@);
            }
        } else {
            proof {
                assert(lex_from(Seq::<char>::empty(), run_at_end) =~= Seq::<Token>::empty());
                assert(toks_at_end + Seq::<Token>::empty() =~= self.tokens@);
            }
        }
    }
}

impl Default for Lexer {
    fn default() -> (r: Self)
        ensures
            r@ == Seq::<Token>::empty(),
    {
        Self::new()
    }
}

} // verus!
