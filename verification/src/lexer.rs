//! The lexer: folds over the source text one character at a time and
//! produces a sequence of position-stamped tokens.
//!
//! The whole behaviour is pinned by a mathematical model: `lex_step`
//! describes what consuming one character does to the lexer state, and
//! `spec_lex` is the fold of that step over the input together with the
//! end-of-input flush.  The executable `lex` is proved equal to
//! `spec_lex` on every input.

use crate::numeric::{parse_i32, spec_parse_i32};
use crate::text::{is_whitespace_char, is_ws, trim_spec, trim_string};
use vstd::prelude::*;

verus! {

#[derive(Debug, PartialEq)]
pub enum Tokens {
    LParen,
    RParen,
    TypeSeparator,
    Number(i32),
    String(String),
    Identifier(String),
    Comment(String),
}

/// Mathematical image of a `Tokens` value: text as character sequences,
/// numbers as unbounded integers.
#[verifier::ext_equal]
pub ghost enum TokensModel {
    LParen,
    RParen,
    TypeSeparator,
    Number(int),
    StrLit(Seq<char>),
    Identifier(Seq<char>),
    Comment(Seq<char>),
}

impl View for Tokens {
    type V = TokensModel;

    open spec fn view(&self) -> TokensModel {
        match self {
            Tokens::LParen => TokensModel::LParen,
            Tokens::RParen => TokensModel::RParen,
            Tokens::TypeSeparator => TokensModel::TypeSeparator,
            Tokens::Number(n) => TokensModel::Number(*n as int),
            Tokens::String(s) => TokensModel::StrLit(s@),
            Tokens::Identifier(s) => TokensModel::Identifier(s@),
            Tokens::Comment(s) => TokensModel::Comment(s@),
        }
    }
}

impl Clone for Tokens {
    fn clone(&self) -> (r: Self)
        ensures
            r == *self,
    {
        match self {
            Tokens::LParen => Tokens::LParen,
            Tokens::RParen => Tokens::RParen,
            Tokens::TypeSeparator => Tokens::TypeSeparator,
            Tokens::Number(n) => Tokens::Number(*n),
            Tokens::String(s) => Tokens::String(s.clone()),
            Tokens::Identifier(s) => Tokens::Identifier(s.clone()),
            Tokens::Comment(s) => Tokens::Comment(s.clone()),
        }
    }
}

#[derive(Debug, PartialEq)]
pub struct Token {
    pub token: Tokens,
    pub line: usize,
    pub line_pos: usize,
}

#[verifier::ext_equal]
pub ghost struct TokenModel {
    pub token: TokensModel,
    pub line: nat,
    pub line_pos: nat,
}

impl View for Token {
    type V = TokenModel;

    open spec fn view(&self) -> TokenModel {
        TokenModel { token: self.token@, line: self.line as nat, line_pos: self.line_pos as nat }
    }
}

impl Clone for Token {
    fn clone(&self) -> (r: Self)
        ensures
            r == *self,
    {
        Token { token: self.token.clone(), line: self.line, line_pos: self.line_pos }
    }
}

impl Token {
    /// Stamp a token kind with the position at which it began.
    pub fn make(line: usize, line_pos: usize, token: Tokens) -> (t: Self)
        ensures
            t == (Token { token, line, line_pos }),
    {
        Self { line, line_pos, token }
    }
}

#[derive(Debug, PartialEq)]
pub enum LexErr {
    UnclosedString,
}

pub open spec fn token_views(ts: Seq<Token>) -> Seq<TokenModel> {
    ts.map_values(|t: Token| t@)
}

/// The single in-progress accumulation, if any: a string body, an
/// identifier-or-number accumulation, or a comment body.
pub(crate) enum State {
    BuildString(String),
    BuildIdentifier(String),
    BuildComment(String),
}

#[verifier::ext_equal]
pub ghost enum StateModel {
    BuildString(Seq<char>),
    BuildIdentifier(Seq<char>),
    BuildComment(Seq<char>),
}

impl View for State {
    type V = StateModel;

    closed spec fn view(&self) -> StateModel {
        match self {
            State::BuildString(s) => StateModel::BuildString(s@),
            State::BuildIdentifier(s) => StateModel::BuildIdentifier(s@),
            State::BuildComment(s) => StateModel::BuildComment(s@),
        }
    }
}

/// Full lexer state: current position, the position the next token will
/// be stamped with, the tokens emitted so far, and the pending
/// accumulation.
pub(crate) struct LexState {
    pub current_line: usize,
    pub current_line_pos: usize,
    pub token_line: usize,
    pub token_line_pos: usize,
    pub tokens: Vec<Token>,
    pub pending: Option<State>,
}

#[verifier::ext_equal]
pub ghost struct LexModel {
    pub current_line: nat,
    pub current_line_pos: nat,
    pub token_line: nat,
    pub token_line_pos: nat,
    pub tokens: Seq<TokenModel>,
    pub pending: Option<StateModel>,
}

impl View for LexState {
    type V = LexModel;

    closed spec fn view(&self) -> LexModel {
        LexModel {
            current_line: self.current_line as nat,
            current_line_pos: self.current_line_pos as nat,
            token_line: self.token_line as nat,
            token_line_pos: self.token_line_pos as nat,
            tokens: token_views(self.tokens@),
            pending: match self.pending {
                Option::Some(s) => Option::Some(s@),
                Option::None => Option::None,
            },
        }
    }
}

pub open spec fn model_reset(m: LexModel) -> LexModel {
    LexModel { token_line: m.current_line, token_line_pos: m.current_line_pos, ..m }
}

pub open spec fn model_add_newline(m: LexModel) -> LexModel {
    model_reset(LexModel { current_line: m.current_line + 1, current_line_pos: 0, ..m })
}

pub open spec fn model_add_token(m: LexModel, k: TokensModel) -> LexModel {
    model_reset(
        LexModel {
            tokens: m.tokens.push(
                TokenModel { token: k, line: m.token_line, line_pos: m.token_line_pos },
            ),
            ..m
        },
    )
}

/// Characters that end an identifier-or-number accumulation.
pub open spec fn is_terminal(c: char) -> bool {
    c == '(' || c == ')' || c == ':' || c == '"' || is_ws(c)
}

/// The token an identifier-or-number accumulation flushes to: a number
/// where the text reads as an `i32`, otherwise an identifier.
pub open spec fn finish_ident(i: Seq<char>) -> TokensModel {
    match spec_parse_i32(i) {
        Option::Some(v) => TokensModel::Number(v),
        Option::None => TokensModel::Identifier(i),
    }
}

/// The lexer state after the position update and the pending-state
/// handling, before the unconditional single-character tokens.
pub open spec fn lex_step_before_singles(m: LexModel, c: char) -> LexModel {
    let is_newline = c == '\n';
    let prev_line = m.token_line;
    let prev_pos = m.token_line_pos;
    let m1 = if is_newline {
        model_add_newline(m)
    } else {
        LexModel { current_line_pos: m.current_line_pos + 1, ..m }
    };
    match m.pending {
        Option::Some(StateModel::BuildString(s)) => {
            if c == '"' {
                LexModel { pending: Option::None, ..model_add_token(m1, TokensModel::StrLit(s)) }
            } else {
                LexModel { pending: Option::Some(StateModel::BuildString(s.push(c))), ..m1 }
            }
        },
        Option::Some(StateModel::BuildIdentifier(i)) => {
            if is_terminal(c) {
                let me = model_add_token(m1, finish_ident(i));
                let mb = if (c == '(' || c == ')' || c == ':') && me.token_line_pos > 0 {
                    LexModel { token_line_pos: (me.token_line_pos - 1) as nat, ..me }
                } else {
                    me
                };
                LexModel { pending: Option::None, ..mb }
            } else {
                let i2 = i.push(c);
                if i2 == seq![';', ';'] {
                    LexModel {
                        pending: Option::Some(StateModel::BuildComment(Seq::empty())),
                        ..m1
                    }
                } else {
                    LexModel { pending: Option::Some(StateModel::BuildIdentifier(i2)), ..m1 }
                }
            }
        },
        Option::Some(StateModel::BuildComment(cm)) => {
            if is_newline {
                let mt = LexModel {
                    tokens: m1.tokens.push(
                        TokenModel {
                            token: TokensModel::Comment(trim_spec(cm)),
                            line: prev_line,
                            line_pos: prev_pos,
                        },
                    ),
                    ..m1
                };
                LexModel { pending: Option::None, ..model_reset(mt) }
            } else {
                LexModel { pending: Option::Some(StateModel::BuildComment(cm.push(c))), ..m1 }
            }
        },
        Option::None => {
            if c == '"' {
                LexModel { pending: Option::Some(StateModel::BuildString(Seq::empty())), ..m1 }
            } else if !is_ws(c) && c != '(' && c != ')' {
                LexModel { pending: Option::Some(StateModel::BuildIdentifier(seq![c])), ..m1 }
            } else if is_ws(c) {
                model_reset(m1)
            } else {
                m1
            }
        },
    }
}

/// What consuming one character does to the lexer state: the
/// position bookkeeping and pending-state handling, then the
/// unconditional single-character tokens.
pub open spec fn lex_step(m: LexModel, c: char) -> LexModel {
    let m2 = lex_step_before_singles(m, c);
    if c == '(' {
        model_add_token(m2, TokensModel::LParen)
    } else if c == ')' {
        model_add_token(m2, TokensModel::RParen)
    } else if c == ':' {
        model_add_token(m2, TokensModel::TypeSeparator)
    } else {
        m2
    }
}

pub open spec fn init_model() -> LexModel {
    LexModel {
        current_line: 0,
        current_line_pos: 0,
        token_line: 0,
        token_line_pos: 0,
        tokens: Seq::empty(),
        pending: Option::None,
    }
}

pub open spec fn lex_fold(m: LexModel, s: Seq<char>) -> LexModel
    decreases s.len(),
{
    if s.len() == 0 {
        m
    } else {
        lex_fold(lex_step(m, s[0]), s.drop_first())
    }
}

/// The tokens of a whole input: the fold of `lex_step`, then the
/// end-of-input flush.  A still-open string literal is the one lexical
/// error.
pub open spec fn spec_lex(s: Seq<char>) -> Result<Seq<TokenModel>, LexErr> {
    let m = lex_fold(init_model(), s);
    match m.pending {
        Option::Some(StateModel::BuildString(_)) => Result::Err(LexErr::UnclosedString),
        Option::Some(StateModel::BuildIdentifier(i)) => Result::Ok(
            model_add_token(m, finish_ident(i)).tokens,
        ),
        Option::Some(StateModel::BuildComment(cm)) => Result::Ok(
            model_add_token(m, TokensModel::Comment(trim_spec(cm))).tokens,
        ),
        Option::None => Result::Ok(m.tokens),
    }
}

impl LexState {
    fn add_newline(&mut self) -> (prev: (usize, usize))
        requires
            old(self)@.current_line + 1 <= usize::MAX,
        ensures
            final(self)@ == model_add_newline(old(self)@),
            prev.0 as nat == old(self)@.token_line,
            prev.1 as nat == old(self)@.token_line_pos,
    {
        let current = (self.token_line, self.token_line_pos);

        self.current_line = self.current_line + 1;
        self.current_line_pos = 0;
        self.reset_token_lines();

        current
    }

    fn reset_token_lines(&mut self)
        ensures
            final(self)@ == model_reset(old(self)@),
    {
        self.token_line = self.current_line;
        self.token_line_pos = self.current_line_pos;
    }

    fn add_token(&mut self, token: Tokens)
        ensures
            final(self)@ == model_add_token(old(self)@, token@),
    {
        let t = Token::make(self.token_line, self.token_line_pos, token);
        self.tokens.push(t);
        proof {
            assert(token_views(self.tokens@) =~= old(self)@.tokens.push(
                TokenModel {
                    token: t.token@,
                    line: old(self)@.token_line,
                    line_pos: old(self)@.token_line_pos,
                },
            ));
        }
        self.reset_token_lines();
    }
}

/// Does the accumulated text equal the two-character comment marker?
fn is_comment_marker(s: &String) -> (b: bool)
    ensures
        b == (s@ == seq![';', ';']),
{
    let n = s.as_str().unicode_len();
    if n == 2 {
        let c0 = s.as_str().get_char(0);
        let c1 = s.as_str().get_char(1);
        let r = c0 == ';' && c1 == ';';
        proof {
            if r {
                assert(s@ =~= seq![';', ';']);
            } else {
                assert(s@[0] != ';' || s@[1] != ';');
            }
        }
        r
    } else {
        proof {
            assert(s@.len() != 2);
        }
        false
    }
}

fn lex_char(c: char, lex_state: &mut LexState) -> (r: Result<(), LexErr>)
    requires
        old(lex_state)@.current_line + 1 <= usize::MAX,
        old(lex_state)@.current_line_pos + 1 <= usize::MAX,
    ensures
        r is Ok,
        final(lex_state)@ == lex_step(old(lex_state)@, c),
{
    let is_str_char = c == '"';
    let is_paren = c == '(' || c == ')';
    let is_newline = c == '\n';
    let is_type_separator = c == ':';
    let is_terminal_char = is_paren || is_type_separator || is_str_char || is_whitespace_char(c);

    // Increment lexing position
    let mut prev_pos: (usize, usize) = (0, 0);
    if is_newline {
        prev_pos = lex_state.add_newline();
    } else {
        lex_state.current_line_pos = lex_state.current_line_pos + 1;
    }
    let prev_pos = prev_pos;

    // Interpret the character against the pending accumulation
    let pending = lex_state.pending.take();
    match pending {
        Option::Some(State::BuildString(mut s)) => {
            if is_str_char {
                lex_state.add_token(Tokens::String(s));
            } else {
                s.push(c);
                lex_state.pending = Option::Some(State::BuildString(s));
            }
        },
        Option::Some(State::BuildIdentifier(mut i)) => {
            // On a terminal character, flush as a number where the text
            // reads as one, else as an identifier.
            if is_terminal_char {
                match parse_i32(i.as_str()) {
                    Option::Some(v) => {
                        lex_state.add_token(Tokens::Number(v));
                    },
                    Option::None => {
                        lex_state.add_token(Tokens::Identifier(i));
                    },
                }

                // Guard against some weird line offsetting
                if (is_paren || is_type_separator) && lex_state.token_line_pos > 0 {
                    lex_state.token_line_pos = lex_state.token_line_pos - 1;
                }
            } else {
                i.push(c);

                // The marker switches the accumulation to a comment
                if is_comment_marker(&i) {
                    lex_state.pending = Option::Some(State::BuildComment(String::new()));
                } else {
                    lex_state.pending = Option::Some(State::BuildIdentifier(i));
                }
            }
        },
        Option::Some(State::BuildComment(mut comment)) => {
            if is_newline {
                let trimmed = trim_string(comment.as_str());
                let t = Token::make(prev_pos.0, prev_pos.1, Tokens::Comment(trimmed));
                lex_state.tokens.push(t);
                proof {
                    assert(token_views(lex_state.tokens@) =~= token_views(
                        old(lex_state).tokens@,
                    ).push(t@));
                }
                lex_state.reset_token_lines();
            } else {
                comment.push(c);
                lex_state.pending = Option::Some(State::BuildComment(comment));
            }
        },
        Option::None => {
            if is_str_char {
                // Start building a string
                lex_state.pending = Option::Some(State::BuildString(String::new()));
            } else if !is_whitespace_char(c) && !is_paren {
                // Start building an identifier
                let mut text = String::new();
                text.push(c);
                proof {
                    assert(text@ =~= seq![c]);
                }
                lex_state.pending = Option::Some(State::BuildIdentifier(text));
            } else if is_whitespace_char(c) {
                lex_state.reset_token_lines();
            }
        },
    }

    // Single token things that should always be added
    match c {
        '(' => {
            lex_state.add_token(Tokens::LParen);
        },
        ')' => {
            lex_state.add_token(Tokens::RParen);
        },
        ':' => {
            lex_state.add_token(Tokens::TypeSeparator);
        },
        _ => {},
    }

    Result::Ok(())
}

/// The position counters a step can reach: one character advances the
/// line/column sum by at most one.
pub open spec fn msum(m: LexModel) -> nat {
    m.current_line + m.current_line_pos
}

proof fn lemma_step_msum(m: LexModel, c: char)
    ensures
        msum(lex_step(m, c)) <= msum(m) + 1,
{
}

proof fn lemma_fold_msum(m: LexModel, s: Seq<char>)
    ensures
        msum(lex_fold(m, s)) <= msum(m) + s.len(),
    decreases s.len(),
{
    if s.len() > 0 {
        lemma_step_msum(m, s[0]);
        lemma_fold_msum(lex_step(m, s[0]), s.drop_first());
    }
}

pub(crate) proof fn lemma_fold_append(m: LexModel, a: Seq<char>, b: Seq<char>)
    ensures
        lex_fold(m, a + b) == lex_fold(lex_fold(m, a), b),
    decreases a.len(),
{
    if a.len() == 0 {
        assert(a + b =~= b);
    } else {
        assert((a + b)[0] == a[0]);
        assert((a + b).drop_first() =~= a.drop_first() + b);
        lemma_fold_append(lex_step(m, a[0]), a.drop_first(), b);
    }
}

pub(crate) proof fn lemma_fold_snoc(m: LexModel, s: Seq<char>)
    requires
        s.len() > 0,
    ensures
        lex_fold(m, s) == lex_step(lex_fold(m, s.drop_last()), s.last()),
{
    assert(s =~= s.drop_last() + seq![s.last()]);
    lemma_fold_append(m, s.drop_last(), seq![s.last()]);
    let u = seq![s.last()];
    assert(u.drop_first() =~= Seq::<char>::empty());
    reveal_with_fuel(lex_fold, 3);
    assert(lex_fold(lex_fold(m, s.drop_last()), u) == lex_step(lex_fold(m, s.drop_last()), u[0]));
}

/// Given a program, lex it into some tokens.
///
/// The result is exactly what `spec_lex` describes; in particular no
/// emitted identifier reads as an integer, and token positions never
/// decrease.
pub fn lex(program: &String) -> (r: Result<Vec<Token>, LexErr>)
    ensures
        match r {
            Result::Ok(toks) => spec_lex(program@) == Result::<Seq<TokenModel>, LexErr>::Ok(
                token_views(toks@),
            ),
            Result::Err(e) => spec_lex(program@) == Result::<Seq<TokenModel>, LexErr>::Err(e),
        },
        r matches Result::Ok(toks) ==> idents_not_numeric(token_views(toks@)),
        r matches Result::Ok(toks) ==> positions_monotone(token_views(toks@)),
{
    let mut state = LexState {
        current_line: 0,
        current_line_pos: 0,
        token_line: 0,
        token_line_pos: 0,
        tokens: Vec::new(),
        pending: Option::None,
    };
    proof {
        assert(token_views(state.tokens@) =~= Seq::<TokenModel>::empty());
        assert(state@ == init_model());
        assert(program@.take(0) =~= Seq::<char>::empty());
    }

    let n = program.as_str().unicode_len();
    let mut idx: usize = 0;
    while idx < n
        invariant
            idx <= n,
            n == program@.len(),
            state@ == lex_fold(init_model(), program@.take(idx as int)),
        decreases n - idx,
    {
        let c = program.as_str().get_char(idx);
        proof {
            lemma_fold_msum(init_model(), program@.take(idx as int));
            lemma_fold_snoc(init_model(), program@.take(idx + 1));
            assert(program@.take(idx + 1).drop_last() =~= program@.take(idx as int));
            assert(program@.take(idx + 1).last() == program@[idx as int]);
        }
        lex_char(c, &mut state)?;
        idx = idx + 1;
    }
    proof {
        assert(program@.take(n as int) =~= program@);
    }

    // End of input: flush whatever accumulation is still pending.
    if let Option::Some(s) = state.pending.take() {
        match s {
            State::BuildString(_body) => {
                return Result::Err(LexErr::UnclosedString);
            },
            State::BuildIdentifier(i) => {
                match parse_i32(i.as_str()) {
                    Option::Some(v) => {
                        state.add_token(Tokens::Number(v));
                    },
                    Option::None => {
                        state.add_token(Tokens::Identifier(i));
                    },
                }
            },
            State::BuildComment(comment) => {
                let trimmed = trim_string(comment.as_str());
                state.add_token(Tokens::Comment(trimmed));
            },
        }
    }

    proof {
        assert(spec_lex(program@) == Result::<Seq<TokenModel>, LexErr>::Ok(
            token_views(state.tokens@),
        ));
        lemma_identifier_never_number(program@);
        lemma_lex_positions_monotone(program@);
    }
    Result::Ok(state.tokens)
}

/// No token in `toks` is an identifier whose text reads as an integer.
pub open spec fn idents_not_numeric(toks: Seq<TokenModel>) -> bool {
    forall|k: int|
        0 <= k < toks.len() ==> ((#[trigger] toks[k].token) matches TokensModel::Identifier(t)
            ==> spec_parse_i32(t) is None)
}

proof fn lemma_push_keeps(toks: Seq<TokenModel>, t: TokenModel)
    requires
        idents_not_numeric(toks),
        t.token matches TokensModel::Identifier(x) ==> spec_parse_i32(x) is None,
    ensures
        idents_not_numeric(toks.push(t)),
{
    let toks2 = toks.push(t);
    assert forall|k: int|
        0 <= k < toks2.len() implies ((#[trigger] toks2[k].token) matches TokensModel::Identifier(
        x,
    ) ==> spec_parse_i32(x) is None) by {
        if k < toks.len() {
            assert(toks2[k] == toks[k]);
        } else {
            assert(toks2[k] == t);
        }
    }
}

proof fn lemma_step_keeps(m: LexModel, c: char)
    requires
        idents_not_numeric(m.tokens),
    ensures
        idents_not_numeric(lex_step(m, c).tokens),
{
    let is_newline = c == '\n';
    let m1 = if is_newline {
        model_add_newline(m)
    } else {
        LexModel { current_line_pos: m.current_line_pos + 1, ..m }
    };
    assert(m1.tokens == m.tokens);
    match m.pending {
        Option::Some(StateModel::BuildString(s)) => {
            if c == '"' {
                lemma_push_keeps(
                    m1.tokens,
                    TokenModel {
                        token: TokensModel::StrLit(s),
                        line: m1.token_line,
                        line_pos: m1.token_line_pos,
                    },
                );
            }
        },
        Option::Some(StateModel::BuildIdentifier(i)) => {
            if is_terminal(c) {
                lemma_push_keeps(
                    m1.tokens,
                    TokenModel {
                        token: finish_ident(i),
                        line: m1.token_line,
                        line_pos: m1.token_line_pos,
                    },
                );
            }
        },
        Option::Some(StateModel::BuildComment(cm)) => {
            if is_newline {
                lemma_push_keeps(
                    m1.tokens,
                    TokenModel {
                        token: TokensModel::Comment(trim_spec(cm)),
                        line: m.token_line,
                        line_pos: m.token_line_pos,
                    },
                );
            }
        },
        Option::None => {
        },
    }
    let mp = if c == '(' {
        Option::Some(TokensModel::LParen)
    } else if c == ')' {
        Option::Some(TokensModel::RParen)
    } else if c == ':' {
        Option::Some(TokensModel::TypeSeparator)
    } else {
        Option::None
    };
    match mp {
        Option::Some(k) => {
            let before = lex_step_before_singles(m, c);
            assert(idents_not_numeric(before.tokens));
            lemma_push_keeps(
                before.tokens,
                TokenModel { token: k, line: before.token_line, line_pos: before.token_line_pos },
            );
        },
        Option::None => {
        },
    }
}

proof fn lemma_fold_keeps(m: LexModel, s: Seq<char>)
    requires
        idents_not_numeric(m.tokens),
    ensures
        idents_not_numeric(lex_fold(m, s).tokens),
    decreases s.len(),
{
    if s.len() > 0 {
        lemma_step_keeps(m, s[0]);
        lemma_fold_keeps(lex_step(m, s[0]), s.drop_first());
    }
}

/// Every identifier the lexer emits has a text that does not read as an
/// integer: any accumulation that parses as one is reclassified as a
/// number before it is emitted.
pub proof fn lemma_identifier_never_number(s: Seq<char>)
    requires
        spec_lex(s) is Ok,
    ensures
        idents_not_numeric(spec_lex(s)->Ok_0),
{
    let m = lex_fold(init_model(), s);
    assert(idents_not_numeric(init_model().tokens));
    lemma_fold_keeps(init_model(), s);
    match m.pending {
        Option::Some(StateModel::BuildString(_)) => {
        },
        Option::Some(StateModel::BuildIdentifier(i)) => {
            lemma_push_keeps(
                m.tokens,
                TokenModel {
                    token: finish_ident(i),
                    line: m.token_line,
                    line_pos: m.token_line_pos,
                },
            );
        },
        Option::Some(StateModel::BuildComment(cm)) => {
            lemma_push_keeps(
                m.tokens,
                TokenModel {
                    token: TokensModel::Comment(trim_spec(cm)),
                    line: m.token_line,
                    line_pos: m.token_line_pos,
                },
            );
        },
        Option::None => {
        },
    }
}


/// Source-order comparison of positions: by line, then by column.
pub open spec fn pos_le(l1: nat, c1: nat, l2: nat, c2: nat) -> bool {
    l1 < l2 || (l1 == l2 && c1 <= c2)
}

/// Each token begins no earlier than the one before it.
pub open spec fn positions_monotone(toks: Seq<TokenModel>) -> bool {
    forall|k: int|
        0 <= k < toks.len() - 1 ==> pos_le(
            (#[trigger] toks[k]).line,
            toks[k].line_pos,
            toks[k + 1].line,
            toks[k + 1].line_pos,
        )
}

/// The bookkeeping facts that hold of every reachable lexer state and
/// carry the position ordering through one step: the tokens so far are
/// ordered, the next stamp is no earlier than the last token, and the
/// current position is no earlier than the next stamp.
pub open spec fn pos_invariant(m: LexModel) -> bool {
    &&& positions_monotone(m.tokens)
    &&& (m.tokens.len() > 0 ==> pos_le(
        m.tokens.last().line,
        m.tokens.last().line_pos,
        m.token_line,
        m.token_line_pos,
    ))
    &&& pos_le(m.token_line, m.token_line_pos, m.current_line, m.current_line_pos)
}

proof fn lemma_sorted_push(toks: Seq<TokenModel>, t: TokenModel)
    requires
        positions_monotone(toks),
        toks.len() > 0 ==> pos_le(toks.last().line, toks.last().line_pos, t.line, t.line_pos),
    ensures
        positions_monotone(toks.push(t)),
{
    let toks2 = toks.push(t);
    assert forall|k: int|
        0 <= k < toks2.len() - 1 implies pos_le(
        (#[trigger] toks2[k]).line,
        toks2[k].line_pos,
        toks2[k + 1].line,
        toks2[k + 1].line_pos,
    ) by {
        if k < toks.len() - 1 {
            assert(toks2[k] == toks[k] && toks2[k + 1] == toks[k + 1]);
        } else {
            assert(toks2[k] == toks.last() && toks2[k + 1] == t);
        }
    }
}

proof fn lemma_step_pos(m: LexModel, c: char)
    requires
        pos_invariant(m),
    ensures
        pos_invariant(lex_step(m, c)),
{
    let is_newline = c == '\n';
    let m1 = if is_newline {
        model_add_newline(m)
    } else {
        LexModel { current_line_pos: m.current_line_pos + 1, ..m }
    };
    assert(pos_le(m1.token_line, m1.token_line_pos, m1.current_line, m1.current_line_pos));
    match m.pending {
        Option::Some(StateModel::BuildString(s)) => {
            if c == '"' {
                lemma_sorted_push(
                    m1.tokens,
                    TokenModel {
                        token: TokensModel::StrLit(s),
                        line: m1.token_line,
                        line_pos: m1.token_line_pos,
                    },
                );
            }
        },
        Option::Some(StateModel::BuildIdentifier(i)) => {
            if is_terminal(c) {
                lemma_sorted_push(
                    m1.tokens,
                    TokenModel {
                        token: finish_ident(i),
                        line: m1.token_line,
                        line_pos: m1.token_line_pos,
                    },
                );
            }
        },
        Option::Some(StateModel::BuildComment(cm)) => {
            if is_newline {
                lemma_sorted_push(
                    m1.tokens,
                    TokenModel {
                        token: TokensModel::Comment(trim_spec(cm)),
                        line: m.token_line,
                        line_pos: m.token_line_pos,
                    },
                );
            }
        },
        Option::None => {
        },
    }
    let before = lex_step_before_singles(m, c);
    if c == '(' || c == ')' || c == ':' {
        assert(!is_newline) by {
            assert(is_ws('\n'));
        }
        assert(positions_monotone(before.tokens));
        assert(before.tokens.len() > 0 ==> pos_le(
            before.tokens.last().line,
            before.tokens.last().line_pos,
            before.token_line,
            before.token_line_pos,
        ));
        assert(pos_le(
            before.token_line,
            before.token_line_pos,
            before.current_line,
            before.current_line_pos,
        ));
        let k = if c == '(' {
            TokensModel::LParen
        } else if c == ')' {
            TokensModel::RParen
        } else {
            TokensModel::TypeSeparator
        };
        lemma_sorted_push(
            before.tokens,
            TokenModel { token: k, line: before.token_line, line_pos: before.token_line_pos },
        );
    }
}

proof fn lemma_fold_pos(m: LexModel, s: Seq<char>)
    requires
        pos_invariant(m),
    ensures
        pos_invariant(lex_fold(m, s)),
    decreases s.len(),
{
    if s.len() > 0 {
        lemma_step_pos(m, s[0]);
        lemma_fold_pos(lex_step(m, s[0]), s.drop_first());
    }
}

/// Token positions are non-decreasing in sequence order: each token the
/// lexer emits begins no earlier in the source than the one before it.
pub proof fn lemma_lex_positions_monotone(s: Seq<char>)
    requires
        spec_lex(s) is Ok,
    ensures
        positions_monotone(spec_lex(s)->Ok_0),
{
    let m = lex_fold(init_model(), s);
    assert(pos_invariant(init_model()));
    lemma_fold_pos(init_model(), s);
    match m.pending {
        Option::Some(StateModel::BuildString(_)) => {
        },
        Option::Some(StateModel::BuildIdentifier(i)) => {
            lemma_sorted_push(
                m.tokens,
                TokenModel {
                    token: finish_ident(i),
                    line: m.token_line,
                    line_pos: m.token_line_pos,
                },
            );
        },
        Option::Some(StateModel::BuildComment(cm)) => {
            lemma_sorted_push(
                m.tokens,
                TokenModel {
                    token: TokensModel::Comment(trim_spec(cm)),
                    line: m.token_line,
                    line_pos: m.token_line_pos,
                },
            );
        },
        Option::None => {
        },
    }
}


} // verus!
