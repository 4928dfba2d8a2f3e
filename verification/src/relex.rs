//! Re-lexing a token's own rendered text: lexing the canonical text of
//! a lexer-produced token reproduces the token's kind, positions aside.
//!
//! The one systematic exception is the colon: its text also restarts an
//! identifier accumulation, so re-lexing `":"` yields the type
//! separator followed by a colon identifier.  The main lemma therefore
//! states first-token reproduction for every kind, and exact
//! single-token reproduction for all kinds but the type separator.

use crate::lexer::{
    finish_ident, init_model, is_terminal, lemma_fold_append, lemma_fold_snoc, lex_fold, lex_step,
    model_add_token, spec_lex, LexModel, StateModel, TokenModel, TokensModel,
};
use crate::numeric::{
    dec_int, dec_nat, is_digit, lemma_dec_nat_digits, lemma_parse_dec_int, spec_parse_i32,
};
use crate::text::{is_ws, trim_spec};
use vstd::prelude::*;

verus! {

/// Characters that neither close a string literal nor are emitted as
/// single-character tokens on their own.
pub open spec fn plain_char(c: char) -> bool {
    c != '"' && c != '(' && c != ')' && c != ':'
}

/// The canonical source text of a token kind.
pub open spec fn render_token(k: TokensModel) -> Seq<char> {
    match k {
        TokensModel::LParen => seq!['('],
        TokensModel::RParen => seq![')'],
        TokensModel::TypeSeparator => seq![':'],
        TokensModel::Number(v) => dec_int(v),
        TokensModel::StrLit(s) => seq!['"'] + s + seq!['"'],
        TokensModel::Identifier(s) => s,
        TokensModel::Comment(s) => seq![';', ';'] + s,
    }
}

/// The token kinds the lexer itself produces, stated per kind: numbers
/// in range, string bodies without a closing quote or a delimiter,
/// identifier texts made of non-terminal characters that do not read as
/// an integer and do not open a comment, and trimmed single-line
/// comment bodies without a delimiter.
pub open spec fn relexable(k: TokensModel) -> bool {
    match k {
        TokensModel::LParen => true,
        TokensModel::RParen => true,
        TokensModel::TypeSeparator => true,
        TokensModel::Number(v) => -2147483648 <= v <= 2147483647,
        TokensModel::StrLit(s) => forall|i: int| 0 <= i < s.len() ==> plain_char(#[trigger] s[i]),
        TokensModel::Identifier(s) => s.len() >= 1 && (forall|i: int|
            0 <= i < s.len() ==> !is_terminal(#[trigger] s[i])) && !(s.len() >= 2 && s[0] == ';'
            && s[1] == ';') && spec_parse_i32(s) is None,
        TokensModel::Comment(s) => trim_spec(s) == s && (forall|i: int|
            0 <= i < s.len() ==> plain_char(#[trigger] s[i]) && s[i] != '\n'),
    }
}

proof fn lemma_fold_one(m: LexModel, c: char)
    ensures
        lex_fold(m, seq![c]) == lex_step(m, c),
{
    reveal_with_fuel(lex_fold, 2);
    assert(seq![c].drop_first() =~= Seq::<char>::empty());
}

/// Feeding plain characters into an open string accumulation appends
/// them to its body and emits nothing.
proof fn lemma_fold_pending_string(m: LexModel, p: Seq<char>, s: Seq<char>)
    requires
        m.pending == Option::Some(StateModel::BuildString(p)),
        forall|i: int| 0 <= i < s.len() ==> plain_char(#[trigger] s[i]),
    ensures
        lex_fold(m, s).pending == Option::Some(StateModel::BuildString(p + s)),
        lex_fold(m, s).tokens == m.tokens,
    decreases s.len(),
{
    if s.len() == 0 {
        assert(p + s =~= p);
    } else {
        let u = s.drop_last();
        let c = s.last();
        lemma_fold_pending_string(m, p, u);
        lemma_fold_snoc(m, s);
        assert(plain_char(c));
        assert((p + u).push(c) =~= p + s);
    }
}

/// Feeding plain, non-newline characters into an open comment
/// accumulation appends them to its body and emits nothing.
proof fn lemma_fold_pending_comment(m: LexModel, p: Seq<char>, s: Seq<char>)
    requires
        m.pending == Option::Some(StateModel::BuildComment(p)),
        forall|i: int| 0 <= i < s.len() ==> plain_char(#[trigger] s[i]) && s[i] != '\n',
    ensures
        lex_fold(m, s).pending == Option::Some(StateModel::BuildComment(p + s)),
        lex_fold(m, s).tokens == m.tokens,
    decreases s.len(),
{
    if s.len() == 0 {
        assert(p + s =~= p);
    } else {
        let u = s.drop_last();
        let c = s.last();
        lemma_fold_pending_comment(m, p, u);
        lemma_fold_snoc(m, s);
        assert(plain_char(c) && c != '\n');
        assert((p + u).push(c) =~= p + s);
    }
}

/// Feeding non-terminal characters into an open identifier
/// accumulation appends them, provided the text never becomes the
/// comment marker, and emits nothing.
proof fn lemma_fold_pending_ident(m: LexModel, p: Seq<char>, s: Seq<char>)
    requires
        m.pending == Option::Some(StateModel::BuildIdentifier(p)),
        p.len() >= 1,
        forall|i: int| 0 <= i < s.len() ==> !is_terminal(#[trigger] s[i]),
        !(p.len() == 1 && p[0] == ';' && s.len() >= 1 && s[0] == ';'),
    ensures
        lex_fold(m, s).pending == Option::Some(StateModel::BuildIdentifier(p + s)),
        lex_fold(m, s).tokens == m.tokens,
    decreases s.len(),
{
    if s.len() == 0 {
        assert(p + s =~= p);
    } else {
        let u = s.drop_last();
        let c = s.last();
        lemma_fold_pending_ident(m, p, u);
        lemma_fold_snoc(m, s);
        assert(!is_terminal(c));
        assert(!is_ws(c));
        assert(is_ws('\n'));
        let i2 = (p + u).push(c);
        assert(i2.len() == p.len() + u.len() + 1);
        if i2.len() == 2 {
            assert(p.len() == 1 && u.len() == 0);
            assert(s.len() == 1 && c == s[0]);
            assert(i2[0] == p[0] && i2[1] == c);
            if p[0] == ';' && c == ';' {
                assert(false);
            }
            assert(i2 != seq![';', ';']);
        } else {
            assert(seq![';', ';'].len() == 2);
            assert(i2 != seq![';', ';']);
        }
        assert((p + u).push(c) =~= p + s);
    }
}

/// Re-lexing the rendered text of a lexer-produced token reproduces the
/// token's kind as the first token, positions aside; for every kind but
/// the type separator it is the only token.
pub proof fn lemma_relex_token(k: TokensModel)
    requires
        relexable(k),
    ensures
        spec_lex(render_token(k)) is Ok,
        spec_lex(render_token(k))->Ok_0.len() >= 1,
        spec_lex(render_token(k))->Ok_0[0].token == k,
        !(k is TypeSeparator) ==> spec_lex(render_token(k))->Ok_0.len() == 1,
{
    let r = render_token(k);
    match k {
        TokensModel::LParen => {
            lemma_fold_one(init_model(), '(');
            assert(!is_ws('('));
            let mf = lex_fold(init_model(), r);
            assert(mf.tokens.len() == 1 && mf.tokens[0].token == TokensModel::LParen);
            assert(mf.pending is None);
        },
        TokensModel::RParen => {
            lemma_fold_one(init_model(), ')');
            assert(!is_ws(')'));
            let mf = lex_fold(init_model(), r);
            assert(mf.tokens.len() == 1 && mf.tokens[0].token == TokensModel::RParen);
            assert(mf.pending is None);
        },
        TokensModel::TypeSeparator => {
            lemma_fold_one(init_model(), ':');
            assert(!is_ws(':'));
            let mf = lex_fold(init_model(), r);
            assert(mf.tokens.len() == 1 && mf.tokens[0].token == TokensModel::TypeSeparator);
            assert(mf.pending == Option::Some(StateModel::BuildIdentifier(seq![':'])));
            assert(spec_parse_i32(seq![':']) is None) by {
                assert(seq![':'][0] == ':');
                assert(!is_digit(seq![':'][0]));
            }
            assert(spec_lex(r)->Ok_0[0].token == k);
        },
        TokensModel::Number(v) => {
            lemma_dec_int_chars(v);
            lemma_relex_ident_shaped(r);
            lemma_parse_dec_int(v);
            assert(finish_ident(r) == TokensModel::Number(v));
        },
        TokensModel::Identifier(s) => {
            lemma_relex_ident_shaped(r);
            assert(finish_ident(r) == TokensModel::Identifier(s));
        },
        TokensModel::StrLit(s) => {
            let a = seq!['"'];
            assert(r =~= a + (s + a));
            lemma_fold_append(init_model(), a, s + a);
            lemma_fold_one(init_model(), '"');
            let m1 = lex_step(init_model(), '"');
            assert(!is_ws('"'));
            assert(m1.pending == Option::Some(StateModel::BuildString(Seq::empty())));
            assert(m1.tokens =~= Seq::<TokenModel>::empty());
            lemma_fold_append(m1, s, a);
            lemma_fold_pending_string(m1, Seq::empty(), s);
            let m2 = lex_fold(m1, s);
            assert(Seq::empty() + s =~= s);
            lemma_fold_one(m2, '"');
            let m3 = lex_step(m2, '"');
            assert(m3.tokens.len() == 1 && m3.tokens[0].token == TokensModel::StrLit(s));
            assert(m3.pending is None);
            assert(lex_fold(init_model(), r) == m3);
        },
        TokensModel::Comment(s) => {
            let a = seq![';', ';'];
            assert(r =~= a + s);
            lemma_fold_append(init_model(), a, s);
            assert(!is_terminal(';'));
            let m1 = lex_step(init_model(), ';');
            assert(m1.pending == Option::Some(StateModel::BuildIdentifier(seq![';'])));
            assert(m1.tokens =~= Seq::<TokenModel>::empty());
            assert(a[0] == ';' && a.drop_first() =~= seq![';']);
            lemma_fold_one(m1, ';');
            let m2 = lex_step(m1, ';');
            assert(seq![';'].push(';') =~= seq![';', ';']);
            assert(m2.pending == Option::Some(StateModel::BuildComment(Seq::empty())));
            assert(m2.tokens == m1.tokens);
            assert(lex_fold(init_model(), a) == m2);
            lemma_fold_pending_comment(m2, Seq::empty(), s);
            let mf = lex_fold(m2, s);
            assert(Seq::empty() + s =~= s);
            assert(mf.pending == Option::Some(StateModel::BuildComment(s)));
            assert(mf.tokens =~= Seq::<TokenModel>::empty());
            assert(trim_spec(s) == s);
            assert(model_add_token(mf, TokensModel::Comment(s)).tokens.len() == 1);
        },
    }
}

/// Lexing a nonempty text of non-terminal characters that does not
/// start with the comment marker leaves one identifier accumulation
/// holding the whole text, which the end-of-input flush turns into a
/// single token.
proof fn lemma_relex_ident_shaped(s: Seq<char>)
    requires
        s.len() >= 1,
        forall|i: int| 0 <= i < s.len() ==> !is_terminal(#[trigger] s[i]),
        !(s.len() >= 2 && s[0] == ';' && s[1] == ';'),
    ensures
        spec_lex(s) is Ok,
        spec_lex(s)->Ok_0.len() == 1,
        spec_lex(s)->Ok_0[0].token == finish_ident(s),
{
    let c0 = s[0];
    assert(!is_terminal(c0));
    assert(!is_ws(c0));
    assert(is_ws('\n'));
    let m1 = lex_step(init_model(), c0);
    assert(m1.pending == Option::Some(StateModel::BuildIdentifier(seq![c0])));
    assert(m1.tokens =~= Seq::<TokenModel>::empty());
    let rest = s.drop_first();
    assert(forall|i: int| 0 <= i < rest.len() ==> !is_terminal(#[trigger] rest[i]));
    if rest.len() >= 1 {
        assert(rest[0] == s[1]);
    }
    lemma_fold_pending_ident(m1, seq![c0], rest);
    assert(lex_fold(init_model(), s) == lex_fold(m1, rest));
    let mf = lex_fold(init_model(), s);
    assert(seq![c0] + rest =~= s);
    assert(mf.pending == Option::Some(StateModel::BuildIdentifier(s)));
    assert(mf.tokens =~= Seq::<TokenModel>::empty());
    assert(model_add_token(mf, finish_ident(s)).tokens.len() == 1);
}

/// The canonical decimal text of an `i32`-ranged value is identifier
/// shaped: nonempty, free of terminal characters, and not a comment
/// opener.
proof fn lemma_dec_int_chars(v: int)
    requires
        -2147483648 <= v <= 2147483647,
    ensures
        dec_int(v).len() >= 1,
        forall|i: int| 0 <= i < dec_int(v).len() ==> !is_terminal(#[trigger] dec_int(v)[i]),
        !(dec_int(v).len() >= 2 && dec_int(v)[0] == ';' && dec_int(v)[1] == ';'),
{
    let s = dec_int(v);
    if v < 0 {
        lemma_dec_nat_digits(-v);
        assert(s[0] == '-');
        assert forall|i: int| 0 <= i < s.len() implies !is_terminal(#[trigger] s[i]) by {
            if i > 0 {
                assert(s[i] == dec_nat(-v)[i - 1]);
                assert(is_digit(s[i]));
                lemma_digit_not_terminal(s[i]);
            } else {
                assert(!is_ws('-'));
            }
        }
    } else {
        lemma_dec_nat_digits(v);
        assert forall|i: int| 0 <= i < s.len() implies !is_terminal(#[trigger] s[i]) by {
            assert(is_digit(s[i]));
            lemma_digit_not_terminal(s[i]);
        }
        assert(is_digit(s[0]));
    }
}

proof fn lemma_digit_not_terminal(c: char)
    requires
        is_digit(c),
    ensures
        !is_terminal(c),
{
    assert(48 <= c as u32 <= 57);
    assert(c != '(' && c != ')' && c != ':' && c != '"');
    assert(!is_ws(c));
}

} // verus!
