//! The tree builder: consumes the token sequence with an explicit stack
//! of open frames and produces a forest of positioned syntax nodes.
//!
//! `build_step` describes what one token does to the builder state, and
//! `spec_build` is the fold of that step plus the end-of-input check.
//! The builder succeeds exactly on balanced token sequences.

use crate::environment::{msg_unclosed_list, Error, ErrorModel};
use crate::lexer::{token_views, Token, TokenModel, Tokens, TokensModel};
use crate::syntax_analysis::{n_lparens, n_rparens};
use vstd::prelude::*;

verus! {

#[derive(Debug)]
pub struct ParseNode {
    pub token: Token,
    pub node: Node,
}

#[derive(Debug)]
pub enum Node {
    List(Vec<ParseNode>),
    Number(i32),
    Identifier(String),
    String(String),
    Comment(String),
    TypeSeparator,
}

/// Mathematical image of a syntax node payload.
#[verifier::ext_equal]
pub ghost enum NodeModel {
    List(Seq<PNodeModel>),
    Number(int),
    Identifier(Seq<char>),
    StrLit(Seq<char>),
    Comment(Seq<char>),
    TypeSeparator,
}

/// Mathematical image of a positioned syntax node.
#[verifier::ext_equal]
pub ghost struct PNodeModel {
    pub token: TokenModel,
    pub node: NodeModel,
}

pub open spec fn pnode_model(p: ParseNode) -> PNodeModel
    decreases p,
{
    PNodeModel { token: p.token@, node: node_model(p.node) }
}

pub open spec fn node_model(n: Node) -> NodeModel
    decreases n,
{
    match n {
        Node::List(children) => NodeModel::List(pnodes_model(children@)),
        Node::Number(v) => NodeModel::Number(v as int),
        Node::Identifier(s) => NodeModel::Identifier(s@),
        Node::String(s) => NodeModel::StrLit(s@),
        Node::Comment(s) => NodeModel::Comment(s@),
        Node::TypeSeparator => NodeModel::TypeSeparator,
    }
}

pub open spec fn pnodes_model(s: Seq<ParseNode>) -> Seq<PNodeModel>
    decreases s,
{
    if s.len() == 0 {
        Seq::empty()
    } else {
        seq![pnode_model(s[0])] + pnodes_model(s.drop_first())
    }
}

proof fn lemma_pnodes_model_push(s: Seq<ParseNode>, p: ParseNode)
    ensures
        pnodes_model(s.push(p)) == pnodes_model(s).push(pnode_model(p)),
    decreases s.len(),
{
    let s2 = s.push(p);
    reveal_with_fuel(pnodes_model, 3);
    if s.len() == 0 {
        assert(s2.drop_first() =~= Seq::<ParseNode>::empty());
        assert(pnodes_model(s2) =~= pnodes_model(s).push(pnode_model(p)));
    } else {
        assert(s2[0] == s[0]);
        assert(s2.drop_first() =~= s.drop_first().push(p));
        lemma_pnodes_model_push(s.drop_first(), p);
        assert(pnodes_model(s2) =~= pnodes_model(s).push(pnode_model(p)));
    }
}

/// An open frame: the opening token and the children gathered since.
#[verifier::ext_equal]
pub ghost struct FrameModel {
    pub open_token: TokenModel,
    pub children: Seq<PNodeModel>,
}

/// Builder state: the stack of open frames and the finished top-level
/// nodes.
#[verifier::ext_equal]
pub ghost struct BuildModel {
    pub stack: Seq<FrameModel>,
    pub done: Seq<PNodeModel>,
}

pub open spec fn frames_model(s: Seq<(Token, Vec<ParseNode>)>) -> Seq<FrameModel> {
    Seq::new(
        s.len(),
        |k: int| FrameModel { open_token: s[k].0@, children: pnodes_model(s[k].1@) },
    )
}

pub open spec fn init_build() -> BuildModel {
    BuildModel { stack: Seq::empty(), done: Seq::empty() }
}

/// Append a finished node to the innermost open frame, or to the
/// top-level result when no frame is open.
pub open spec fn append_node(m: BuildModel, p: PNodeModel) -> BuildModel {
    if m.stack.len() > 0 {
        let top = m.stack.last();
        BuildModel {
            stack: m.stack.update(
                m.stack.len() - 1,
                FrameModel { open_token: top.open_token, children: top.children.push(p) },
            ),
            done: m.done,
        }
    } else {
        BuildModel { stack: m.stack, done: m.done.push(p) }
    }
}

/// The leaf payload a token kind produces.
pub open spec fn leaf_node(k: TokensModel) -> NodeModel {
    match k {
        TokensModel::Number(v) => NodeModel::Number(v),
        TokensModel::StrLit(s) => NodeModel::StrLit(s),
        TokensModel::Identifier(s) => NodeModel::Identifier(s),
        TokensModel::Comment(s) => NodeModel::Comment(s),
        _ => NodeModel::TypeSeparator,
    }
}

/// What one token does to the builder state: an open pushes a frame, a
/// close pops and wraps one, anything else appends a leaf.
pub open spec fn build_step(m: BuildModel, t: TokenModel) -> Result<BuildModel, ErrorModel> {
    match t.token {
        TokensModel::LParen => Result::Ok(
            BuildModel {
                stack: m.stack.push(FrameModel { open_token: t, children: Seq::empty() }),
                done: m.done,
            },
        ),
        TokensModel::RParen => {
            if m.stack.len() == 0 {
                Result::Err(
                    ErrorModel { line: t.line, line_pos: t.line_pos, message: msg_unclosed_list() },
                )
            } else {
                let top = m.stack.last();
                let list = PNodeModel { token: top.open_token, node: NodeModel::List(top.children) };
                Result::Ok(
                    append_node(BuildModel { stack: m.stack.drop_last(), done: m.done }, list),
                )
            }
        },
        _ => Result::Ok(append_node(m, PNodeModel { token: t, node: leaf_node(t.token) })),
    }
}

pub open spec fn build_fold(m: BuildModel, ts: Seq<TokenModel>) -> Result<BuildModel, ErrorModel>
    decreases ts.len(),
{
    if ts.len() == 0 {
        Result::Ok(m)
    } else {
        match build_step(m, ts[0]) {
            Result::Err(e) => Result::Err(e),
            Result::Ok(m2) => build_fold(m2, ts.drop_first()),
        }
    }
}

/// The forest a token sequence builds: the fold of `build_step`, then
/// the end-of-input check.  A frame still open at the end is reported
/// at the oldest unmatched opening token.
pub open spec fn spec_build(ts: Seq<TokenModel>) -> Result<Seq<PNodeModel>, ErrorModel> {
    match build_fold(init_build(), ts) {
        Result::Err(e) => Result::Err(e),
        Result::Ok(m) => {
            if m.stack.len() > 0 {
                Result::Err(
                    ErrorModel {
                        line: m.stack[0].open_token.line,
                        line_pos: m.stack[0].open_token.line_pos,
                        message: msg_unclosed_list(),
                    },
                )
            } else {
                Result::Ok(m.done)
            }
        },
    }
}

/// Every prefix has at least as many opening as closing parentheses.
pub open spec fn prefix_balanced(ts: Seq<TokenModel>) -> bool {
    forall|j: int| 0 <= j <= ts.len() ==> n_rparens(#[trigger] ts.take(j)) <= n_lparens(ts.take(j))
}

/// A well-formed token sequence: no prefix closes more lists than it
/// opened, and the whole opens as many as it closes.
pub open spec fn balanced(ts: Seq<TokenModel>) -> bool {
    prefix_balanced(ts) && n_lparens(ts) == n_rparens(ts)
}

impl ParseNode {
    fn new(token: &Token, node: Node) -> (r: Self)
        ensures
            r == (ParseNode { token: *token, node }),
    {
        Self { token: token.clone(), node }
    }
}

/// Push a finished node onto the innermost open frame, or onto the
/// top-level nodes when no frame is open: the executable counterpart of
/// `append_node`.
fn push_child(
    token_stack: &mut Vec<(Token, Vec<ParseNode>)>,
    nodes: &mut Vec<ParseNode>,
    node: ParseNode,
)
    ensures
        ({
            let m = append_node(
                BuildModel {
                    stack: frames_model(old(token_stack)@),
                    done: pnodes_model(old(nodes)@),
                },
                pnode_model(node),
            );
            frames_model(final(token_stack)@) == m.stack && pnodes_model(final(nodes)@) == m.done
        }),
{
    let ghost pn = node;
    let ghost pre_stack = token_stack@;
    let ghost pre_nodes = nodes@;
    match token_stack.pop() {
        Option::Some((t, mut stack_nodes)) => {
            let ghost child0 = stack_nodes@;
            stack_nodes.push(node);
            proof {
                lemma_pnodes_model_push(child0, pn);
            }
            token_stack.push((t, stack_nodes));
            proof {
                let m = append_node(
                    BuildModel { stack: frames_model(pre_stack), done: pnodes_model(pre_nodes) },
                    pnode_model(pn),
                );
                assert(frames_model(token_stack@) =~~= m.stack);
            }
        },
        Option::None => {
            proof {
                lemma_pnodes_model_push(pre_nodes, pn);
                assert(frames_model(token_stack@) =~~= frames_model(pre_stack));
            }
            nodes.push(node);
        },
    }
}

pub fn parse(tokens: &Vec<Token>) -> (r: Result<Vec<ParseNode>, Error>)
    ensures
        match r {
            Result::Ok(nodes) => spec_build(token_views(tokens@)) == Result::<
                Seq<PNodeModel>,
                ErrorModel,
            >::Ok(pnodes_model(nodes@)),
            Result::Err(e) => spec_build(token_views(tokens@)) == Result::<
                Seq<PNodeModel>,
                ErrorModel,
            >::Err(e@),
        },
        r is Ok <==> balanced(token_views(tokens@)),
{
    let nodes = make_tree(tokens)?;

    Result::Ok(nodes)
}

fn make_tree(tokens: &Vec<Token>) -> (r: Result<Vec<ParseNode>, Error>)
    ensures
        match r {
            Result::Ok(nodes) => spec_build(token_views(tokens@)) == Result::<
                Seq<PNodeModel>,
                ErrorModel,
            >::Ok(pnodes_model(nodes@)),
            Result::Err(e) => spec_build(token_views(tokens@)) == Result::<
                Seq<PNodeModel>,
                ErrorModel,
            >::Err(e@),
        },
        r is Ok <==> balanced(token_views(tokens@)),
{
    let ghost ts = token_views(tokens@);
    let mut nodes: Vec<ParseNode> = Vec::new();
    let mut token_stack: Vec<(Token, Vec<ParseNode>)> = Vec::new();

    proof {
        assert(ts.take(0) =~= Seq::<TokenModel>::empty());
        assert(frames_model(token_stack@) =~= Seq::<FrameModel>::empty());
        assert(pnodes_model(nodes@) =~= Seq::<PNodeModel>::empty());
    }
    let n = tokens.len();
    let mut i: usize = 0;
    while i < n
        invariant
            0 <= i <= n,
            n == tokens@.len(),
            ts == token_views(tokens@),
            ts.len() == n,
            build_fold(init_build(), ts.take(i as int)) == Result::<BuildModel, ErrorModel>::Ok(
                BuildModel { stack: frames_model(token_stack@), done: pnodes_model(nodes@) },
            ),
        decreases n - i,
    {
        let token = &tokens[i];
        proof {
            assert(ts[i as int] == token@);
            lemma_fold_snoc_tokens(init_build(), ts.take(i + 1));
            assert(ts.take(i + 1).drop_last() =~= ts.take(i as int));
            assert(ts.take(i + 1).last() == ts[i as int]);
        }
        let ghost pre = BuildModel { stack: frames_model(token_stack@), done: pnodes_model(nodes@) };
        let node: Option<ParseNode> = match &token.token {
            // Start building a new list
            Tokens::LParen => {
                token_stack.push((token.clone(), Vec::new()));
                proof {
                    assert(pnodes_model(Seq::<ParseNode>::empty()) == Seq::<PNodeModel>::empty());
                    assert(frames_model(token_stack@) =~~= pre.stack.push(
                        FrameModel { open_token: token@, children: Seq::empty() },
                    ));
                }
                Option::None
            },
            // Add the finished list to whatever encloses it
            Tokens::RParen => {
                match token_stack.pop() {
                    Option::Some((open_token, node_list)) => {
                        let ghost children = node_list@;
                        proof {
                            assert(frames_model(token_stack@) =~~= pre.stack.drop_last());
                            assert(pre.stack.last() == (FrameModel {
                                open_token: open_token@,
                                children: pnodes_model(children),
                            }));
                        }
                        let new_list = ParseNode::new(&open_token, Node::List(node_list));
                        push_child(&mut token_stack, &mut nodes, new_list);
                    },
                    Option::None => {
                        proof {
                            lemma_fold_err_extends(init_build(), ts, i + 1);
                            lemma_fold_balance(init_build(), ts);
                        }
                        return Result::Err(Error::unclosed_list(token));
                    },
                }

                Option::None
            },
            Tokens::Number(v) => Option::Some(ParseNode::new(token, Node::Number(*v))),
            Tokens::String(s) => Option::Some(ParseNode::new(token, Node::String(s.clone()))),
            Tokens::Identifier(id) => Option::Some(
                ParseNode::new(token, Node::Identifier(id.clone())),
            ),
            Tokens::Comment(s) => Option::Some(ParseNode::new(token, Node::Comment(s.clone()))),
            Tokens::TypeSeparator => Option::Some(ParseNode::new(token, Node::TypeSeparator)),
        };

        match node {
            Option::Some(node) => {
                push_child(&mut token_stack, &mut nodes, node);
            },
            Option::None => {},
        }

        i = i + 1;
    }

    proof {
        assert(ts.take(n as int) =~= ts);
        lemma_fold_balance(init_build(), ts);
    }

    if token_stack.len() > 0 {
        let first = &token_stack[0].0;
        proof {
            assert(frames_model(token_stack@)[0].open_token == first@);
        }
        return Result::Err(Error::unclosed_list(first));
    }

    proof {
        assert(frames_model(token_stack@) =~= Seq::<FrameModel>::empty());
    }
    Result::Ok(nodes)
}

proof fn lemma_fold_append_tokens(m: BuildModel, a: Seq<TokenModel>, b: Seq<TokenModel>)
    ensures
        build_fold(m, a + b) == (match build_fold(m, a) {
            Result::Err(e) => Result::<BuildModel, ErrorModel>::Err(e),
            Result::Ok(m2) => build_fold(m2, b),
        }),
    decreases a.len(),
{
    if a.len() == 0 {
        assert(a + b =~= b);
    } else {
        assert((a + b)[0] == a[0]);
        assert((a + b).drop_first() =~= a.drop_first() + b);
        match build_step(m, a[0]) {
            Result::Err(_) => {},
            Result::Ok(m2) => {
                lemma_fold_append_tokens(m2, a.drop_first(), b);
            },
        }
    }
}

proof fn lemma_fold_snoc_tokens(m: BuildModel, ts: Seq<TokenModel>)
    requires
        ts.len() > 0,
    ensures
        build_fold(m, ts) == (match build_fold(m, ts.drop_last()) {
            Result::Err(e) => Result::<BuildModel, ErrorModel>::Err(e),
            Result::Ok(m2) => build_step(m2, ts.last()),
        }),
{
    assert(ts =~= ts.drop_last() + seq![ts.last()]);
    lemma_fold_append_tokens(m, ts.drop_last(), seq![ts.last()]);
    let u = seq![ts.last()];
    assert(u.drop_first() =~= Seq::<TokenModel>::empty());
    reveal_with_fuel(build_fold, 3);
}

/// Once the fold fails on a prefix, it fails on the whole sequence with
/// the same error.
proof fn lemma_fold_err_extends(m: BuildModel, ts: Seq<TokenModel>, j: int)
    requires
        0 <= j <= ts.len(),
        build_fold(m, ts.take(j)) is Err,
    ensures
        build_fold(m, ts) == build_fold(m, ts.take(j)),
    decreases ts.len(),
{
    if j == 0 {
        assert(ts.take(0) =~= Seq::<TokenModel>::empty());
        assert(false);
    } else {
        assert(ts.take(j)[0] == ts[0]);
        match build_step(m, ts[0]) {
            Result::Err(_) => {},
            Result::Ok(m2) => {
                assert(ts.take(j).drop_first() =~= ts.drop_first().take(j - 1));
                lemma_fold_err_extends(m2, ts.drop_first(), j - 1);
            },
        }
    }
}

/// The fold succeeds exactly on prefix-balanced sequences, and the
/// frames left open count the unmatched opening parentheses.
proof fn lemma_fold_balance(m: BuildModel, ts: Seq<TokenModel>)
    requires
        m == init_build(),
    ensures
        build_fold(m, ts) is Ok <==> prefix_balanced(ts),
        build_fold(m, ts) matches Result::Ok(st) ==> st.stack.len() == n_lparens(ts) - n_rparens(
            ts,
        ),
    decreases ts.len(),
{
    if ts.len() == 0 {
        assert forall|j: int| 0 <= j <= ts.len() implies n_rparens(#[trigger] ts.take(j))
            <= n_lparens(ts.take(j)) by {
            assert(ts.take(j) =~= Seq::<TokenModel>::empty());
        }
    } else {
        let u = ts.drop_last();
        let t = ts.last();
        lemma_fold_balance(m, u);
        lemma_fold_snoc_tokens(m, ts);
        if build_fold(m, u) is Err {
            assert(!prefix_balanced(u));
            let j = choose|j: int|
                0 <= j <= u.len() && !(n_rparens(#[trigger] u.take(j)) <= n_lparens(u.take(j)));
            assert(ts.take(j) =~= u.take(j));
            assert(!prefix_balanced(ts));
        } else {
            let st = build_fold(m, u)->Ok_0;
            assert(prefix_balanced(u));
            assert(st.stack.len() == n_lparens(u) - n_rparens(u));
            match build_step(st, t) {
                Result::Err(_) => {
                    assert(t.token is RParen && st.stack.len() == 0);
                    assert(n_rparens(ts) == n_rparens(u) + 1 && n_lparens(ts) == n_lparens(u));
                    assert(ts.take(ts.len() as int) =~= ts);
                    assert(!(n_rparens(ts) <= n_lparens(ts)));
                    assert(!prefix_balanced(ts));
                },
                Result::Ok(st2) => {
                    assert(st2.stack.len() == n_lparens(ts) - n_rparens(ts));
                    assert forall|j: int| 0 <= j <= ts.len() implies n_rparens(
                        #[trigger] ts.take(j),
                    ) <= n_lparens(ts.take(j)) by {
                        if j < ts.len() {
                            assert(ts.take(j) =~= u.take(j));
                        } else {
                            assert(ts.take(j) =~= ts);
                            assert(n_rparens(ts) <= n_lparens(ts));
                        }
                    }
                },
            }
        }
    }
}

/// A balanced token sequence has as many opening as closing
/// parentheses, and the tree builder consumes it completely: every
/// frame is closed and a forest is returned.
pub proof fn lemma_balanced_builds(ts: Seq<TokenModel>)
    requires
        balanced(ts),
    ensures
        n_lparens(ts) == n_rparens(ts),
        spec_build(ts) is Ok,
{
    lemma_fold_balance(init_build(), ts);
}

} // verus!
