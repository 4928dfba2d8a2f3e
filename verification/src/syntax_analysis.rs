//! The validator: a single left-to-right scan of the token sequence
//! that checks identifier well-formedness and parenthesis counts,
//! independent of tree shape.

use crate::environment::{msg_too_many_rparens, msg_unclosed_list, Error, ErrorModel};
use crate::lexer::{token_views, Token, TokenModel, Tokens, TokensModel};
use crate::numeric::is_digit;
use vstd::prelude::*;

verus! {

/// A well-formed identifier text: nonempty and not led by a decimal
/// digit.
pub open spec fn valid_identifier(s: Seq<char>) -> bool {
    s.len() > 0 && !is_digit(s[0])
}

/// Is this token an identifier that fails validation?
pub open spec fn ident_issue(k: TokensModel) -> bool {
    match k {
        TokensModel::Identifier(s) => !valid_identifier(s),
        _ => false,
    }
}

/// Number of opening parentheses in the sequence.
pub open spec fn n_lparens(toks: Seq<TokenModel>) -> int
    decreases toks.len(),
{
    if toks.len() == 0 {
        0
    } else {
        n_lparens(toks.drop_last()) + if toks.last().token is LParen {
            1int
        } else {
            0int
        }
    }
}

/// Number of closing parentheses in the sequence.
pub open spec fn n_rparens(toks: Seq<TokenModel>) -> int
    decreases toks.len(),
{
    if toks.len() == 0 {
        0
    } else {
        n_rparens(toks.drop_last()) + if toks.last().token is RParen {
            1int
        } else {
            0int
        }
    }
}

/// The last parenthesis token of the sequence, of either kind.
pub open spec fn last_paren(toks: Seq<TokenModel>) -> Option<TokenModel>
    decreases toks.len(),
{
    if toks.len() == 0 {
        Option::None
    } else if toks.last().token is LParen || toks.last().token is RParen {
        Option::Some(toks.last())
    } else {
        last_paren(toks.drop_last())
    }
}

/// Index of the first invalid identifier token, if any.
pub open spec fn first_invalid(toks: Seq<TokenModel>) -> Option<int>
    decreases toks.len(),
{
    if toks.len() == 0 {
        Option::None
    } else if ident_issue(toks[0].token) {
        Option::Some(0)
    } else {
        match first_invalid(toks.drop_first()) {
            Option::Some(j) => Option::Some(j + 1),
            Option::None => Option::None,
        }
    }
}

/// The message reported for an empty identifier.
pub open spec fn msg_invalid_length() -> Seq<char> {
    "Invalid length string!"@
}

/// The message reported for an identifier led by a digit.
pub open spec fn msg_invalid_start(c: char, id: Seq<char>) -> Seq<char> {
    "Invalid starting character '"@ + seq![c] + "' for identifier '"@ + id + seq!['\'']
}

/// The error reported for an invalid identifier text at a position.
pub open spec fn ident_error_at(line: nat, line_pos: nat, s: Seq<char>) -> ErrorModel {
    if s.len() == 0 {
        ErrorModel { line, line_pos, message: msg_invalid_length() }
    } else {
        ErrorModel { line, line_pos, message: msg_invalid_start(s[0], s) }
    }
}

/// What the validation scan reports: the first invalid identifier wins;
/// otherwise unequal parenthesis counts are reported at the last
/// parenthesis seen.
pub open spec fn spec_analyze(toks: Seq<TokenModel>) -> Result<(), ErrorModel> {
    match first_invalid(toks) {
        Option::Some(j) => {
            let t = toks[j];
            Result::Err(ident_error_at(t.line, t.line_pos, t.token->Identifier_0))
        },
        Option::None => {
            if n_lparens(toks) == n_rparens(toks) {
                Result::Ok(())
            } else {
                let lp = last_paren(toks)->0;
                if n_lparens(toks) > n_rparens(toks) {
                    Result::Err(
                        ErrorModel {
                            line: lp.line,
                            line_pos: lp.line_pos,
                            message: msg_unclosed_list(),
                        },
                    )
                } else {
                    Result::Err(
                        ErrorModel {
                            line: lp.line,
                            line_pos: lp.line_pos,
                            message: msg_too_many_rparens(),
                        },
                    )
                }
            }
        },
    }
}

/// No identifier token in the sequence is empty or digit-led.
pub open spec fn all_identifiers_valid(toks: Seq<TokenModel>) -> bool {
    forall|k: int| 0 <= k < toks.len() ==> !ident_issue(#[trigger] toks[k].token)
}

proof fn lemma_first_invalid_none(toks: Seq<TokenModel>)
    ensures
        first_invalid(toks) is None <==> all_identifiers_valid(toks),
        first_invalid(toks) matches Option::Some(j) ==> 0 <= j < toks.len() && ident_issue(
            toks[j].token,
        ) && (forall|k: int| 0 <= k < j ==> !ident_issue(#[trigger] toks[k].token)),
    decreases toks.len(),
{
    if toks.len() == 0 {
    } else if ident_issue(toks[0].token) {
    } else {
        lemma_first_invalid_none(toks.drop_first());
        let rest = toks.drop_first();
        assert(forall|k: int| 0 <= k < rest.len() ==> rest[k] == toks[k + 1]);
        if first_invalid(rest) is None {
            assert forall|k: int| 0 <= k < toks.len() implies !ident_issue(
                #[trigger] toks[k].token,
            ) by {
                if k > 0 {
                    assert(toks[k] == rest[k - 1]);
                }
            }
        } else {
            let jr = first_invalid(rest)->0;
            assert(first_invalid(toks) == Option::Some(jr + 1));
            assert(rest[jr] == toks[jr + 1]);
            assert forall|k: int| 0 <= k < jr + 1 implies !ident_issue(
                #[trigger] toks[k].token,
            ) by {
                if k > 0 {
                    assert(toks[k] == rest[k - 1]);
                }
            }
        }
    }
}

/// Appending a token with no identifier issue moves `first_invalid` and
/// the paren counts forward predictably.
proof fn lemma_first_invalid_push(toks: Seq<TokenModel>, t: TokenModel)
    requires
        first_invalid(toks) is None,
    ensures
        !ident_issue(t.token) ==> first_invalid(toks.push(t)) is None,
        ident_issue(t.token) ==> first_invalid(toks.push(t)) == Option::Some(toks.len() as int),
    decreases toks.len(),
{
    let toks2 = toks.push(t);
    reveal_with_fuel(first_invalid, 3);
    if toks.len() == 0 {
        assert(toks2[0] == t);
        if !ident_issue(t.token) {
            assert(toks2.drop_first() =~= Seq::<TokenModel>::empty());
        } else {
            assert(first_invalid(toks2) == Option::Some(0int));
        }
    } else {
        assert(!ident_issue(toks[0].token));
        assert(toks2[0] == toks[0]);
        assert(toks2.drop_first() =~= toks.drop_first().push(t));
        lemma_first_invalid_push(toks.drop_first(), t);
    }
}

proof fn lemma_counts_push(toks: Seq<TokenModel>, t: TokenModel)
    ensures
        n_lparens(toks.push(t)) == n_lparens(toks) + if t.token is LParen {
            1int
        } else {
            0int
        },
        n_rparens(toks.push(t)) == n_rparens(toks) + if t.token is RParen {
            1int
        } else {
            0int
        },
        last_paren(toks.push(t)) == if t.token is LParen || t.token is RParen {
            Option::Some(t)
        } else {
            last_paren(toks)
        },
{
    let toks2 = toks.push(t);
    assert(toks2.drop_last() =~= toks);
    assert(toks2.last() == t);
}

/// Validate one identifier text against a token position, as the
/// scanner does for each identifier token.
pub fn validate_identifier(id: &String, token: &Token) -> (r: Option<Error>)
    ensures
        match r {
            Option::None => valid_identifier(id@),
            Option::Some(e) => !valid_identifier(id@) && e@ == ident_error_at(
                token@.line,
                token@.line_pos,
                id@,
            ),
        },
{
    let n = id.as_str().unicode_len();
    if n == 0 {
        return Option::Some(Error::token(token, "Invalid length string!".to_owned()));
    }

    let first_char = id.as_str().get_char(0);
    let u: u32 = first_char as u32;
    if 48 <= u && u <= 57 {
        let mut msg = "Invalid starting character '".to_owned();
        msg.push(first_char);
        msg.append("' for identifier '");
        msg.append(id.as_str());
        msg.push('\'');
        proof {
            assert(msg@ =~= msg_invalid_start(id@[0], id@));
        }
        return Option::Some(Error::token(token, msg));
    }
    Option::None
}

/// Scan the token sequence once: identifier validity, then parenthesis
/// counts.  Returns exactly what `spec_analyze` describes, and succeeds
/// precisely on sequences whose identifiers are all valid and whose
/// parenthesis counts agree.
pub fn analyze(tokens: &Vec<Token>) -> (r: Result<(), Error>)
    ensures
        match r {
            Result::Ok(()) => spec_analyze(token_views(tokens@)) is Ok,
            Result::Err(e) => spec_analyze(token_views(tokens@)) == Result::<(), ErrorModel>::Err(
                e@,
            ),
        },
        r is Ok <==> (all_identifiers_valid(token_views(tokens@)) && n_lparens(token_views(tokens@))
            == n_rparens(token_views(tokens@))),
{
    let ghost toks = token_views(tokens@);
    let mut lparens: usize = 0;
    let mut rparens: usize = 0;

    let mut last_paren_idx: Option<usize> = Option::None;

    let n = tokens.len();
    let mut i: usize = 0;
    while i < n
        invariant
            0 <= i <= n,
            n == tokens@.len(),
            toks == token_views(tokens@),
            toks.len() == n,
            lparens <= i,
            rparens <= i,
            lparens == n_lparens(toks.take(i as int)),
            rparens == n_rparens(toks.take(i as int)),
            first_invalid(toks.take(i as int)) is None,
            match last_paren_idx {
                Option::Some(j) => j < i && last_paren(toks.take(i as int)) == Option::Some(
                    toks[j as int],
                ),
                Option::None => last_paren(toks.take(i as int)) is None,
            },
        decreases n - i,
    {
        let token = &tokens[i];
        proof {
            assert(toks[i as int] == token@);
            assert(toks.take(i + 1).drop_last() =~= toks.take(i as int));
            assert(toks.take(i + 1).last() == toks[i as int]);
            assert(toks.take(i + 1) =~= toks.take(i as int).push(toks[i as int]));
            lemma_counts_push(toks.take(i as int), toks[i as int]);
            lemma_first_invalid_push(toks.take(i as int), toks[i as int]);
        }
        match &token.token {
            Tokens::LParen => {
                lparens = lparens + 1;
                last_paren_idx = Option::Some(i);
            },
            Tokens::RParen => {
                rparens = rparens + 1;
                last_paren_idx = Option::Some(i);
            },
            Tokens::Number(_) => {},
            Tokens::String(_) => {},
            Tokens::Identifier(id) => {
                match validate_identifier(id, token) {
                    Option::Some(e) => {
                        proof {
                            lemma_first_invalid_at(toks, i as int);
                        }
                        return Result::Err(e);
                    },
                    Option::None => {},
                }
            },
            Tokens::Comment(_) => {},
            Tokens::TypeSeparator => {},
        }
        i = i + 1;
    }
    proof {
        assert(toks.take(n as int) =~= toks);
        lemma_first_invalid_none(toks);
    }

    if lparens != rparens {
        let j = match last_paren_idx {
            Option::Some(j) => j,
            Option::None => {
                proof {
                    lemma_no_paren_equal_counts(toks);
                }
                0
            },
        };
        let last = &tokens[j];
        if lparens > rparens {
            return Result::Err(Error::unclosed_list(last));
        } else {
            return Result::Err(Error::token(last, "Too many right parenthesis!".to_owned()));
        }
    }

    Result::Ok(())
}

/// If the prefix before `j` has no invalid identifier and the token at
/// `j` has one, then `j` is the first invalid index.
proof fn lemma_first_invalid_at(toks: Seq<TokenModel>, j: int)
    requires
        0 <= j < toks.len(),
        first_invalid(toks.take(j)) is None,
        ident_issue(toks[j].token),
    ensures
        first_invalid(toks) == Option::Some(j),
    decreases j,
{
    if j == 0 {
        assert(first_invalid(toks) == Option::Some(0int));
    } else {
        assert(toks.take(j)[0] == toks[0]);
        assert(!ident_issue(toks[0].token));
        assert(toks.drop_first().take(j - 1) =~= toks.take(j).drop_first());
        lemma_first_invalid_at(toks.drop_first(), j - 1);
        assert(toks.drop_first()[j - 1] == toks[j]);
    }
}

/// A sequence without parenthesis tokens has equal counts of both.
proof fn lemma_no_paren_equal_counts(toks: Seq<TokenModel>)
    requires
        last_paren(toks) is None,
    ensures
        n_lparens(toks) == 0,
        n_rparens(toks) == 0,
    decreases toks.len(),
{
    if toks.len() > 0 {
        lemma_no_paren_equal_counts(toks.drop_last());
    }
}

} // verus!
