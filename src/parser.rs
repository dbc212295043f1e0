use crate::lexer::{stream, Lexer};
use crate::token::{Token, TokenModel};
use vstd::prelude::*;

verus! {

/// The direction of a redirection.
#[derive(PartialEq, Eq, Structural, Clone, Copy, Debug)]
pub enum Operator {
    Gt,
    Lt,
}

/// The syntax tree.
#[derive(Debug)]
pub enum Node {
    Redirect { operator: Operator, left: Box<Node>, right: Box<Node> },
    Command { program: Box<Node>, args: Box<Node> },
    List(Vec<Node>),
    Pipeline(Vec<Node>),
    Assign { ident: Box<Node>, value: Box<Node> },
    String(String),
    Variable(String),
    Fd(usize),
}

/// Mathematical model of a syntax tree.
pub enum NodeModel {
    Redirect { operator: Operator, left: Box<NodeModel>, right: Box<NodeModel> },
    Command { program: Box<NodeModel>, args: Box<NodeModel> },
    List(Seq<NodeModel>),
    Pipeline(Seq<NodeModel>),
    Assign { ident: Box<NodeModel>, value: Box<NodeModel> },
    String(Seq<char>),
    Variable(Seq<char>),
    Fd(nat),
}

impl View for Node {
    type V = NodeModel;

    open spec fn view(&self) -> NodeModel
        decreases self,
    {
        match self {
            Node::Redirect { operator, left, right } => NodeModel::Redirect {
                operator: *operator,
                left: Box::new((**left).view()),
                right: Box::new((**right).view()),
            },
            Node::Command { program, args } => NodeModel::Command {
                program: Box::new((**program).view()),
                args: Box::new((**args).view()),
            },
            Node::List(v) => NodeModel::List(views(v@)),
            Node::Pipeline(v) => NodeModel::Pipeline(views(v@)),
            Node::Assign { ident, value } => NodeModel::Assign {
                ident: Box::new((**ident).view()),
                value: Box::new((**value).view()),
            },
            Node::String(s) => NodeModel::String(s@),
            Node::Variable(s) => NodeModel::Variable(s@),
            Node::Fd(n) => NodeModel::Fd(*n as nat),
        }
    }
}

/// The models of a sequence of nodes.
pub open spec fn views(s: Seq<Node>) -> Seq<NodeModel>
    decreases s,
{
    if s.len() == 0 {
        Seq::empty()
    } else {
        views(s.drop_last()).push(s.last().view())
    }
}

/// The construct that the parser expected where it met a token it could not use.
#[derive(PartialEq, Eq, Structural, Clone, Copy, Debug)]
pub enum Construct {
    Separator,
    Command,
    RedirectTarget,
    Value,
    Path,
}

/// Why a splicing directive could not be resolved.
#[derive(PartialEq, Eq, Structural, Clone, Copy, Debug)]
pub enum SpliceFailure {
    /// No text is known under the path.
    Missing,
    /// The path is already being spliced further out.
    Cycle,
}

/// Why a parse failed.
#[derive(Debug)]
pub enum ParseError {
    SyntaxError { found: Token, expected: Construct },
    IncludeError { path: String, cause: SpliceFailure },
}

pub enum ErrorModel {
    SyntaxError { found: TokenModel, expected: Construct },
    IncludeError { path: Seq<char>, cause: SpliceFailure },
}

impl View for ParseError {
    type V = ErrorModel;

    open spec fn view(&self) -> ErrorModel {
        match self {
            ParseError::SyntaxError { found, expected } => ErrorModel::SyntaxError {
                found: found@,
                expected: *expected,
            },
            ParseError::IncludeError { path, cause } => ErrorModel::IncludeError {
                path: path@,
                cause: *cause,
            },
        }
    }
}

pub open spec fn models(ts: Seq<Token>) -> Seq<TokenModel> {
    ts.map_values(|t: Token| t@)
}

/// The token at `k`, reading past either end as the end of input.
pub open spec fn tok(ts: Seq<TokenModel>, k: int) -> TokenModel {
    if 0 <= k < ts.len() {
        ts[k]
    } else {
        TokenModel::EOF
    }
}

pub open spec fn is_word(t: TokenModel) -> bool {
    t is String || t is Ident
}

pub open spec fn word_node(t: TokenModel) -> NodeModel {
    match t {
        TokenModel::Ident(w) => NodeModel::Variable(w),
        TokenModel::String(w) => NodeModel::String(w),
        _ => NodeModel::String(Seq::empty()),
    }
}

/// What a token stands for as a redirection target or an assigned value.
pub open spec fn operand(t: TokenModel) -> Option<NodeModel> {
    match t {
        TokenModel::String(w) => Some(NodeModel::String(w)),
        TokenModel::Fd(n) => Some(NodeModel::Fd(n)),
        _ => None,
    }
}

pub open spec fn operator_of(t: TokenModel) -> Option<Operator> {
    match t {
        TokenModel::Gt => Some(Operator::Gt),
        TokenModel::Lt => Some(Operator::Lt),
        _ => None,
    }
}

pub open spec fn is_separator(t: TokenModel) -> bool {
    t is Semicolon || t is EOL
}

/// `node` inside the redirections `rs`, the first one innermost.
pub open spec fn wrap(node: NodeModel, rs: Seq<(Operator, NodeModel)>) -> NodeModel
    decreases rs.len(),
{
    if rs.len() == 0 {
        node
    } else {
        wrap(
            NodeModel::Redirect {
                operator: rs[0].0,
                left: Box::new(node),
                right: Box::new(rs[0].1),
            },
            rs.drop_first(),
        )
    }
}

/// The words and redirections of a command from index `k` on, after `args` and
/// `rs`: the arguments, the redirections, and the index where the command ends.
/// A redirection of a numbered descriptor stands among the arguments.
pub open spec fn command_items(
    ts: Seq<TokenModel>,
    k: int,
    args: Seq<NodeModel>,
    rs: Seq<(Operator, NodeModel)>,
) -> Result<(Seq<NodeModel>, Seq<(Operator, NodeModel)>, int), ErrorModel>
    decreases ts.len() - k,
{
    let t = tok(ts, k);
    if k < 0 || k >= ts.len() {
        Ok((args, rs, k))
    } else if is_word(t) {
        command_items(ts, k + 1, args.push(word_node(t)), rs)
    } else if operator_of(t) is Some {
        match operand(tok(ts, k + 1)) {
            Some(n) => command_items(ts, k + 2, args, rs.push((operator_of(t)->0, n))),
            None => Err(
                ErrorModel::SyntaxError { found: tok(ts, k + 1), expected: Construct::RedirectTarget },
            ),
        }
    } else if t is Fd {
        let u = tok(ts, k + 1);
        if operator_of(u) is Some {
            match operand(tok(ts, k + 2)) {
                Some(n) => command_items(
                    ts,
                    k + 3,
                    args.push(
                        NodeModel::Redirect {
                            operator: operator_of(u)->0,
                            left: Box::new(NodeModel::Fd(t->Fd_0)),
                            right: Box::new(n),
                        },
                    ),
                    rs,
                ),
                None => Err(
                    ErrorModel::SyntaxError {
                        found: tok(ts, k + 2),
                        expected: Construct::RedirectTarget,
                    },
                ),
            }
        } else {
            command_items(ts, k + 1, args.push(NodeModel::Fd(t->Fd_0)), rs)
        }
    } else {
        Ok((args, rs, k))
    }
}

/// The command that starts at `i`, and the index after it.
pub open spec fn command(ts: Seq<TokenModel>, i: int) -> Result<(NodeModel, int), ErrorModel> {
    let t = tok(ts, i);
    if !is_word(t) {
        Err(ErrorModel::SyntaxError { found: t, expected: Construct::Command })
    } else {
        match command_items(ts, i + 1, Seq::empty(), Seq::empty()) {
            Err(e) => Err(e),
            Ok((args, rs, j)) => Ok(
                (
                    wrap(
                        NodeModel::Command {
                            program: Box::new(word_node(t)),
                            args: Box::new(NodeModel::List(args)),
                        },
                        rs,
                    ),
                    j,
                ),
            ),
        }
    }
}

/// The pipeline that continues at `i` after the commands `acc`, and the index
/// after it. A single command stands alone.
pub open spec fn pipeline(ts: Seq<TokenModel>, i: int, acc: Seq<NodeModel>) -> Result<
    (NodeModel, int),
    ErrorModel,
>
    decreases ts.len() - i,
    via pipeline_decreases
{
    match command(ts, i) {
        Err(e) => Err(e),
        Ok((c, j)) => if tok(ts, j) is Pipe {
            pipeline(ts, j + 1, acc.push(c))
        } else if acc.len() == 0 {
            Ok((c, j))
        } else {
            Ok((NodeModel::Pipeline(acc.push(c)), j))
        },
    }
}

/// The statement at `i`: an assignment or a pipeline, and the index after it.
pub open spec fn statement(ts: Seq<TokenModel>, i: int) -> Result<(NodeModel, int), ErrorModel> {
    let t = tok(ts, i);
    if t is String && tok(ts, i + 1) is Assign {
        match operand(tok(ts, i + 2)) {
            Some(v) => Ok(
                (NodeModel::Assign { ident: Box::new(NodeModel::String(t->String_0)), value: Box::new(v) }, i + 3),
            ),
            None => Err(ErrorModel::SyntaxError { found: tok(ts, i + 2), expected: Construct::Value }),
        }
    } else {
        pipeline(ts, i, Seq::empty())
    }
}

/// The program from `i` on, after the statements `acc`: statements separated
/// by `;` or line ends, where empty statements are skipped.
pub open spec fn program(ts: Seq<TokenModel>, i: int, acc: Seq<NodeModel>) -> Result<
    NodeModel,
    ErrorModel,
>
    decreases ts.len() - i,
    via program_decreases
{
    let t = tok(ts, i);
    if i < 0 || t is EOF {
        Ok(NodeModel::List(acc))
    } else if is_separator(t) {
        program(ts, i + 1, acc)
    } else {
        match statement(ts, i) {
            Err(e) => Err(e),
            Ok((s, j)) => {
                let u = tok(ts, j);
                if u is EOF {
                    Ok(NodeModel::List(acc.push(s)))
                } else if is_separator(u) {
                    program(ts, j + 1, acc.push(s))
                } else {
                    Err(ErrorModel::SyntaxError { found: u, expected: Construct::Separator })
                }
            },
        }
    }
}

/// The text known under `path` in `table`: the first entry for it.
pub open spec fn lookup(table: Seq<(Seq<char>, Seq<char>)>, path: Seq<char>) -> Option<Seq<char>>
    decreases table.len(),
{
    if table.len() == 0 {
        None
    } else if table[0].0 == path {
        Some(table[0].1)
    } else {
        lookup(table.drop_first(), path)
    }
}

/// The tokens of `ts` from `i` on, after `out`, with each splicing directive and
/// its path replaced by the tokens of the text known under that path (without
/// that text's end-of-input token), spliced in the same way in turn. `active`
/// holds the paths being spliced further out; a path that recurs among them is
/// a cycle, and so is nesting deeper than the table has entries.
pub open spec fn expand(
    ts: Seq<TokenModel>,
    i: int,
    table: Seq<(Seq<char>, Seq<char>)>,
    active: Seq<Seq<char>>,
    out: Seq<TokenModel>,
) -> Result<Seq<TokenModel>, ErrorModel>
    decreases table.len() - active.len(), ts.len() - i,
{
    if i < 0 || i >= ts.len() {
        Ok(out)
    } else if ts[i] is Include {
        let p = tok(ts, i + 1);
        if !(p is String) {
            Err(ErrorModel::SyntaxError { found: p, expected: Construct::Path })
        } else if active.contains(p->String_0) {
            Err(ErrorModel::IncludeError { path: p->String_0, cause: SpliceFailure::Cycle })
        } else {
            match lookup(table, p->String_0) {
                None => Err(
                    ErrorModel::IncludeError { path: p->String_0, cause: SpliceFailure::Missing },
                ),
                Some(text) => if active.len() >= table.len() {
                    Err(ErrorModel::IncludeError { path: p->String_0, cause: SpliceFailure::Cycle })
                } else {
                    match expand(
                        stream(text, 0).drop_last(),
                        0,
                        table,
                        active.push(p->String_0),
                        Seq::empty(),
                    ) {
                        Err(e) => Err(e),
                        Ok(inner) => expand(ts, i + 2, table, active, out + inner),
                    }
                },
            }
        }
    } else {
        expand(ts, i + 1, table, active, out.push(ts[i]))
    }
}

/// The tree that `source` parses to, with splicing directives resolved in `table`.
pub open spec fn parse_model(source: Seq<char>, table: Seq<(Seq<char>, Seq<char>)>) -> Result<
    NodeModel,
    ErrorModel,
> {
    match expand(stream(source, 0), 0, table, Seq::empty(), Seq::empty()) {
        Err(e) => Err(e),
        Ok(ts) => program(ts, 0, Seq::empty()),
    }
}

pub open spec fn table_model(t: Seq<(String, String)>) -> Seq<(Seq<char>, Seq<char>)> {
    t.map_values(|e: (String, String)| (e.0@, e.1@))
}

pub open spec fn paths_model(a: Seq<String>) -> Seq<Seq<char>> {
    a.map_values(|s: String| s@)
}

pub open spec fn tokens_model(r: Result<Vec<Token>, ParseError>) -> Result<Seq<TokenModel>, ErrorModel> {
    match r {
        Ok(v) => Ok(models(v@)),
        Err(e) => Err(e@),
    }
}

proof fn lemma_command_items(
    ts: Seq<TokenModel>,
    k: int,
    args: Seq<NodeModel>,
    rs: Seq<(Operator, NodeModel)>,
)
    requires
        0 <= k <= ts.len(),
    ensures
        command_items(ts, k, args, rs) matches Ok((_, _, j)) ==> k <= j <= ts.len(),
    decreases ts.len() - k,
{
    let t = tok(ts, k);
    if k < ts.len() {
        if is_word(t) {
            lemma_command_items(ts, k + 1, args.push(word_node(t)), rs);
        } else if operator_of(t) is Some {
            if let Some(n) = operand(tok(ts, k + 1)) {
                lemma_command_items(ts, k + 2, args, rs.push((operator_of(t)->0, n)));
            }
        } else if t is Fd {
            let u = tok(ts, k + 1);
            if operator_of(u) is Some {
                if let Some(n) = operand(tok(ts, k + 2)) {
                    lemma_command_items(
                        ts,
                        k + 3,
                        args.push(
                            NodeModel::Redirect {
                                operator: operator_of(u)->0,
                                left: Box::new(NodeModel::Fd(t->Fd_0)),
                                right: Box::new(n),
                            },
                        ),
                        rs,
                    );
                }
            } else {
                lemma_command_items(ts, k + 1, args.push(NodeModel::Fd(t->Fd_0)), rs);
            }
        }
    }
}

proof fn lemma_command(ts: Seq<TokenModel>, i: int)
    requires
        0 <= i,
    ensures
        command(ts, i) matches Ok((_, j)) ==> i < j <= ts.len(),
{
    if is_word(tok(ts, i)) {
        lemma_command_items(ts, i + 1, Seq::empty(), Seq::empty());
    }
}

#[via_fn]
proof fn pipeline_decreases(ts: Seq<TokenModel>, i: int, acc: Seq<NodeModel>) {
    if 0 <= i {
        lemma_command(ts, i);
    } else if is_word(tok(ts, i)) {
    }
}

proof fn lemma_pipeline(ts: Seq<TokenModel>, i: int, acc: Seq<NodeModel>)
    requires
        0 <= i,
    ensures
        pipeline(ts, i, acc) matches Ok((_, j)) ==> i < j <= ts.len(),
    decreases ts.len() - i,
{
    lemma_command(ts, i);
    if let Ok((c, j)) = command(ts, i) {
        if tok(ts, j) is Pipe {
            lemma_pipeline(ts, j + 1, acc.push(c));
        }
    }
}

proof fn lemma_statement(ts: Seq<TokenModel>, i: int)
    requires
        0 <= i,
    ensures
        statement(ts, i) matches Ok((_, j)) ==> i < j <= ts.len(),
{
    lemma_pipeline(ts, i, Seq::empty());
}

#[via_fn]
proof fn program_decreases(ts: Seq<TokenModel>, i: int, acc: Seq<NodeModel>) {
    if 0 <= i {
        lemma_statement(ts, i);
    }
}


pub open spec fn redirect_models(rs: Seq<(Operator, Node)>) -> Seq<(Operator, NodeModel)> {
    rs.map_values(|p: (Operator, Node)| (p.0, p.1@))
}

pub open spec fn step_model(r: Result<(Node, usize), ParseError>) -> Result<(NodeModel, int), ErrorModel> {
    match r {
        Ok((n, j)) => Ok((n@, j as int)),
        Err(e) => Err(e@),
    }
}

pub open spec fn node_model(r: Result<Node, ParseError>) -> Result<NodeModel, ErrorModel> {
    match r {
        Ok(n) => Ok(n@),
        Err(e) => Err(e@),
    }
}

proof fn lemma_views_push(s: Seq<Node>, n: Node)
    ensures
        views(s.push(n)) == views(s).push(n@),
{
    assert(s.push(n).drop_last() =~= s);
}

proof fn lemma_views_len(s: Seq<Node>)
    ensures
        views(s).len() == s.len(),
    decreases s.len(),
{
    if s.len() > 0 {
        lemma_views_len(s.drop_last());
        assert(views(s) == views(s.drop_last()).push(s.last()@));
    }
}

fn tok_at(ts: &Vec<Token>, k: usize) -> (r: Token)
    ensures
        r@ == tok(models(ts@), k as int),
{
    if k < ts.len() {
        ts[k].duplicate()
    } else {
        Token::EOF
    }
}

fn parse_string(t: &Token) -> (r: Node)
    requires
        is_word(t@),
    ensures
        r@ == word_node(t@),
{
    match t {
        Token::Ident(w) => Node::Variable(w.clone()),
        Token::String(w) => Node::String(w.clone()),
        _ => Node::String(String::new()),
    }
}

fn parse_operand(t: &Token) -> (r: Option<Node>)
    ensures
        r is Some <==> operand(t@) is Some,
        r matches Some(n) ==> operand(t@) == Some(n@),
{
    match t {
        Token::String(w) => Some(Node::String(w.clone())),
        Token::Fd(n) => Some(Node::Fd(*n)),
        _ => None,
    }
}

fn parse_operator(t: &Token) -> (r: Option<Operator>)
    ensures
        r == operator_of(t@),
{
    match t {
        Token::Gt => Some(Operator::Gt),
        Token::Lt => Some(Operator::Lt),
        _ => None,
    }
}

/// The words and redirections of the command whose program stands before `start`.
fn parse_command_args(ts: &Vec<Token>, start: usize) -> (r: Result<
    (Vec<Node>, Vec<(Operator, Node)>, usize),
    ParseError,
>)
    requires
        start <= ts.len(),
    ensures
        match r {
            Ok((args, rs, j)) => command_items(models(ts@), start as int, Seq::empty(), Seq::empty())
                == Ok::<_, ErrorModel>((views(args@), redirect_models(rs@), j as int)),
            Err(e) => command_items(models(ts@), start as int, Seq::empty(), Seq::empty())
                == Err::<(Seq<NodeModel>, Seq<(Operator, NodeModel)>, int), _>(e@),
        },
{
    let ghost m = models(ts@);
    let ghost goal = command_items(m, start as int, Seq::empty(), Seq::empty());
    let mut args: Vec<Node> = Vec::new();
    let mut rs: Vec<(Operator, Node)> = Vec::new();
    let mut k = start;
    assert(views(args@) =~= Seq::<NodeModel>::empty());
    assert(redirect_models(rs@) =~= Seq::<(Operator, NodeModel)>::empty());
    let n = ts.len();
    loop
        invariant
            k <= n,
            n == ts.len(),
            m == models(ts@),
            goal == command_items(m, start as int, Seq::empty(), Seq::empty()),
            command_items(m, k as int, views(args@), redirect_models(rs@)) == goal,
        decreases n - k,
    {
        if k >= n {
            return Ok((args, rs, k));
        }
        let t = &ts[k];
        if let Token::String(_) | Token::Ident(_) = t {
            let w = parse_string(t);
            proof {
                lemma_views_push(args@, w);
            }
            args.push(w);
            k += 1;
            continue ;
        }
        if let Some(op) = parse_operator(t) {
            let u = tok_at(ts, k + 1);
            match parse_operand(&u) {
                Some(target) => {
                    proof {
                        assert(redirect_models(rs@.push((op, target))) =~= redirect_models(rs@).push((op, target@)));
                    }
                    rs.push((op, target));
                    k += 2;
                    continue ;
                },
                None => {
                    return Err(ParseError::SyntaxError { found: u, expected: Construct::RedirectTarget });
                },
            }
        }
        if let Token::Fd(fd) = t {
            let fd = *fd;
            let u = tok_at(ts, k + 1);
            match parse_operator(&u) {
                Some(op) => {
                    let v = tok_at(ts, k + 2);
                    match parse_operand(&v) {
                        Some(target) => {
                            let source = Node::Fd(fd);
                            assert(source@ == NodeModel::Fd(fd as nat));
                            let node = Node::Redirect {
                                operator: op,
                                left: Box::new(source),
                                right: Box::new(target),
                            };
                            assert(node@ == NodeModel::Redirect {
                                operator: op,
                                left: Box::new(NodeModel::Fd(fd as nat)),
                                right: Box::new(target@),
                            });
                            proof {
                                lemma_views_push(args@, node);
                            }
                            args.push(node);
                            k += 3;
                            continue ;
                        },
                        None => {
                            return Err(ParseError::SyntaxError { found: v, expected: Construct::RedirectTarget });
                        },
                    }
                },
                None => {
                    let node = Node::Fd(fd);
                    proof {
                        lemma_views_push(args@, node);
                    }
                    args.push(node);
                    k += 1;
                    continue ;
                },
            }
        }
        return Ok((args, rs, k));
    }
}

/// The command that starts at `i`, and the index after it.
fn parse_command(ts: &Vec<Token>, i: usize) -> (r: Result<(Node, usize), ParseError>)
    requires
        i <= ts.len(),
    ensures
        step_model(r) == command(models(ts@), i as int),
{
    let t = tok_at(ts, i);
    if !matches!(t, Token::String(_) | Token::Ident(_)) {
        return Err(ParseError::SyntaxError { found: t, expected: Construct::Command });
    }
    let program = parse_string(&t);
    proof {
        lemma_command_items(models(ts@), i + 1, Seq::empty(), Seq::empty());
    }
    match parse_command_args(ts, i + 1) {
        Err(e) => Err(e),
        Ok((args, rs, j)) => {
            let ghost all = redirect_models(rs@);
            let list = Node::List(args);
            assert(list@ == NodeModel::List(views(args@)));
            let mut node = Node::Command { program: Box::new(program), args: Box::new(list) };
            assert(node@ == NodeModel::Command {
                program: Box::new(word_node(t@)),
                args: Box::new(NodeModel::List(views(args@))),
            });
            let mut rest = rs;
            let ghost goal = wrap(node@, all);
            while rest.len() > 0
                invariant
                    wrap(node@, redirect_models(rest@)) == goal,
                decreases rest.len(),
            {
                let ghost before = rest@;
                let (op, target) = rest.remove(0);
                proof {
                    assert(redirect_models(rest@) =~= redirect_models(before).drop_first());
                }
                node = Node::Redirect { operator: op, left: Box::new(node), right: Box::new(target) };
            }
            assert(redirect_models(rest@) =~= Seq::<(Operator, NodeModel)>::empty());
            Ok((node, j))
        },
    }
}


/// The pipeline that starts at `i`, and the index after it.
fn parse_pipeline(ts: &Vec<Token>, i: usize) -> (r: Result<(Node, usize), ParseError>)
    requires
        i <= ts.len(),
    ensures
        step_model(r) == pipeline(models(ts@), i as int, Seq::empty()),
{
    let ghost m = models(ts@);
    let ghost goal = pipeline(m, i as int, Seq::empty());
    let mut stages: Vec<Node> = Vec::new();
    let mut k = i;
    assert(views(stages@) =~= Seq::<NodeModel>::empty());
    loop
        invariant
            k <= ts.len(),
            m == models(ts@),
            goal == pipeline(m, i as int, Seq::empty()),
            pipeline(m, k as int, views(stages@)) == goal,
        decreases ts.len() - k,
    {
        proof {
            lemma_command(m, k as int);
        }
        let (c, j) = match parse_command(ts, k) {
            Err(e) => return Err(e),
            Ok(p) => p,
        };
        if j < ts.len() && matches!(ts[j], Token::Pipe) {
            proof {
                lemma_views_push(stages@, c);
            }
            stages.push(c);
            k = j + 1;
            continue ;
        }
        proof {
            lemma_views_len(stages@);
        }
        if stages.len() == 0 {
            return Ok((c, j));
        }
        proof {
            lemma_views_push(stages@, c);
        }
        stages.push(c);
        let node = Node::Pipeline(stages);
        assert(node@ == NodeModel::Pipeline(views(stages@)));
        return Ok((node, j));
    }
}

/// An assignment `name = value` at `i`, if one starts there.
fn parse_assign(ts: &Vec<Token>, i: usize) -> (r: Option<Result<(Node, usize), ParseError>>)
    requires
        i <= ts.len(),
    ensures
        r is Some <==> (tok(models(ts@), i as int) is String && tok(models(ts@), i as int + 1) is Assign),
        r matches Some(res) ==> step_model(res) == statement(models(ts@), i as int),
{
    if ts.len() - i < 2 {
        return None;
    }
    let name = match &ts[i] {
        Token::String(w) => w.clone(),
        _ => return None,
    };
    if !matches!(ts[i + 1], Token::Assign) {
        return None;
    }
    let v = tok_at(ts, i + 2);
    match parse_operand(&v) {
        Some(value) => {
            let ident = Node::String(name);
            assert(ident@ == NodeModel::String(name@));
            Some(Ok((Node::Assign { ident: Box::new(ident), value: Box::new(value) }, i + 3)))
        },
        None => Some(Err(ParseError::SyntaxError { found: v, expected: Construct::Value })),
    }
}

/// The statement at `i`, and the index after it.
fn parse_statement(ts: &Vec<Token>, i: usize) -> (r: Result<(Node, usize), ParseError>)
    requires
        i <= ts.len(),
    ensures
        step_model(r) == statement(models(ts@), i as int),
{
    match parse_assign(ts, i) {
        Some(res) => res,
        None => parse_pipeline(ts, i),
    }
}

/// The program that the tokens `ts` spell: the list of its statements.
fn parse_program(ts: &Vec<Token>) -> (r: Result<Node, ParseError>)
    ensures
        node_model(r) == program(models(ts@), 0, Seq::empty()),
{
    let ghost m = models(ts@);
    let ghost goal = program(m, 0, Seq::empty());
    let mut statements: Vec<Node> = Vec::new();
    let mut k: usize = 0;
    assert(views(statements@) =~= Seq::<NodeModel>::empty());
    loop
        invariant
            k <= ts.len(),
            m == models(ts@),
            goal == program(m, 0, Seq::empty()),
            program(m, k as int, views(statements@)) == goal,
        decreases ts.len() - k,
    {
        if k >= ts.len() || matches!(ts[k], Token::EOF) {
            let node = Node::List(statements);
            assert(node@ == NodeModel::List(views(statements@)));
            return Ok(node);
        }
        if matches!(ts[k], Token::Semicolon | Token::EOL) {
            k += 1;
            continue ;
        }
        proof {
            lemma_statement(m, k as int);
        }
        let (st, j) = match parse_statement(ts, k) {
            Err(e) => return Err(e),
            Ok(p) => p,
        };
        proof {
            lemma_views_push(statements@, st);
        }
        statements.push(st);
        let u = tok_at(ts, j);
        match u {
            Token::EOF => {
                let node = Node::List(statements);
                assert(node@ == NodeModel::List(views(statements@)));
                return Ok(node);
            },
            Token::Semicolon | Token::EOL => {
                k = j + 1;
            },
            _ => {
                return Err(ParseError::SyntaxError { found: u, expected: Construct::Separator });
            },
        }
    }
}


/// The index of the first entry of `table` for `path`.
fn find_source(table: &Vec<(String, String)>, path: &String) -> (r: Option<usize>)
    ensures
        r is None ==> lookup(table_model(table@), path@) is None,
        r matches Some(k) ==> k < table.len() && lookup(table_model(table@), path@) == Some(
            table@[k as int].1@,
        ),
{
    let ghost tm = table_model(table@);
    let mut k: usize = 0;
    assert(tm.subrange(0, tm.len() as int) =~= tm);
    while k < table.len()
        invariant
            k <= table.len(),
            tm == table_model(table@),
            lookup(tm.subrange(k as int, tm.len() as int), path@) == lookup(tm, path@),
        decreases table.len() - k,
    {
        let ghost rest = tm.subrange(k as int, tm.len() as int);
        assert(rest.drop_first() =~= tm.subrange(k + 1, tm.len() as int));
        if table[k].0 == *path {
            return Some(k);
        }
        k += 1;
    }
    None
}

/// Whether `path` is among `active`.
fn is_active(active: &Vec<String>, path: &String) -> (r: bool)
    ensures
        r == paths_model(active@).contains(path@),
{
    let mut k: usize = 0;
    while k < active.len()
        invariant
            k <= active.len(),
            forall|m: int| 0 <= m < k ==> active@[m]@ != path@,
        decreases active.len() - k,
    {
        if active[k] == *path {
            assert(paths_model(active@)[k as int] == path@);
            return true;
        }
        k += 1;
    }
    assert forall|m: int| 0 <= m < paths_model(active@).len() implies paths_model(active@)[m] != path@ by {
        assert(paths_model(active@)[m] == active@[m]@);
    }
    false
}

/// `ts` with its splicing directives resolved in `table`, `active` holding the
/// paths being spliced further out.
fn splice(ts: &Vec<Token>, table: &Vec<(String, String)>, active: &mut Vec<String>) -> (r: Result<
    Vec<Token>,
    ParseError,
>)
    ensures
        final(active)@ == old(active)@,
        tokens_model(r) == expand(
            models(ts@),
            0,
            table_model(table@),
            paths_model(old(active)@),
            Seq::empty(),
        ),
    decreases table@.len() - old(active)@.len(),
{
    let ghost m = models(ts@);
    let ghost tm = table_model(table@);
    let ghost am = paths_model(active@);
    let ghost goal = expand(m, 0, tm, am, Seq::empty());
    let mut out: Vec<Token> = Vec::new();
    let mut i: usize = 0;
    assert(models(out@) =~= Seq::<TokenModel>::empty());
    loop
        invariant
            i <= ts.len(),
            m == models(ts@),
            tm == table_model(table@),
            active@ == old(active)@,
            am == paths_model(active@),
            goal == expand(m, 0, tm, am, Seq::empty()),
            expand(m, i as int, tm, am, models(out@)) == goal,
        decreases ts.len() - i,
    {
        if i >= ts.len() {
            return Ok(out);
        }
        if !matches!(ts[i], Token::Include) {
            let t = ts[i].duplicate();
            assert(models(out@.push(t)) =~= models(out@).push(m[i as int]));
            out.push(t);
            i += 1;
            continue ;
        }
        let p = tok_at(ts, i + 1);
        let path = match &p {
            Token::String(w) => w.clone(),
            _ => {
                return Err(ParseError::SyntaxError { found: p, expected: Construct::Path });
            },
        };
        if is_active(active, &path) {
            return Err(ParseError::IncludeError { path, cause: SpliceFailure::Cycle });
        }
        let k = match find_source(table, &path) {
            None => {
                return Err(ParseError::IncludeError { path, cause: SpliceFailure::Missing });
            },
            Some(k) => k,
        };
        proof {
            lemma_paths_len(active@);
            lemma_paths_len_table(table@);
        }
        if active.len() >= table.len() {
            return Err(ParseError::IncludeError { path, cause: SpliceFailure::Cycle });
        }
        let mut lexer = Lexer::new_from_str(table[k].1.as_str());
        let mut inner_ts = lexer.tokenize();
        let ghost before_pop = inner_ts@;
        inner_ts.pop();
        assert(models(inner_ts@) =~= models(before_pop).drop_last());
        active.push(path.clone());
        assert(paths_model(active@) =~= am.push(path@));
        let inner = splice(&inner_ts, table, active);
        active.pop();
        assert(active@ =~= old(active)@);
        match inner {
            Err(e) => {
                return Err(e);
            },
            Ok(mut v) => {
                let ghost before = out@;
                assert(models(before + v@) =~= models(before) + models(v@));
                out.append(&mut v);
                i += 2;
            },
        }
    }
}

proof fn lemma_paths_len(a: Seq<String>)
    ensures
        paths_model(a).len() == a.len(),
{
}

proof fn lemma_paths_len_table(t: Seq<(String, String)>)
    ensures
        table_model(t).len() == t.len(),
{
}

/// Parses `source` into the list of its statements. `sources` holds, for each
/// path that a splicing directive may name, the text to splice in; the first
/// entry for a path counts.
pub fn parse(source: &str, sources: &Vec<(String, String)>) -> (r: Result<Node, ParseError>)
    ensures
        node_model(r) == parse_model(source@, table_model(sources@)),
{
    let mut lexer = Lexer::new_from_str(source);
    let tokens = lexer.tokenize();
    let mut active: Vec<String> = Vec::new();
    assert(paths_model(active@) =~= Seq::<Seq<char>>::empty());
    match splice(&tokens, sources, &mut active) {
        Err(e) => Err(e),
        Ok(ts) => parse_program(&ts),
    }
}


/// A parser with a table of texts that splicing directives may name.
pub struct Parser {
    sources: Vec<(String, String)>,
}

impl Parser {
    /// The table: for each entry, a path and the text known under it.
    pub closed spec fn sources(&self) -> Seq<(Seq<char>, Seq<char>)> {
        table_model(self.sources@)
    }

    /// A parser that knows no text to splice.
    pub fn new() -> (r: Parser)
        ensures
            r.sources() == Seq::<(Seq<char>, Seq<char>)>::empty(),
    {
        let r = Parser { sources: Vec::new() };
        assert(r.sources() =~= Seq::<(Seq<char>, Seq<char>)>::empty());
        r
    }

    /// Makes `text` known under `path`, after the entries already known.
    pub fn add_source(&mut self, path: String, text: String)
        ensures
            final(self).sources() == old(self).sources().push((path@, text@)),
    {
        let ghost before = self.sources@;
        self.sources.push((path, text));
        assert(table_model(self.sources@) =~= table_model(before).push((path@, text@)));
    }

    /// Parses `source`, resolving splicing directives in the table.
    pub fn parse(&self, source: &str) -> (r: Result<Node, ParseError>)
        ensures
            node_model(r) == parse_model(source@, self.sources()),
    {
        parse(source, &self.sources)
    }
}

pub open spec fn no_directive(ts: Seq<TokenModel>) -> bool {
    forall|k: int| 0 <= k < ts.len() ==> !(#[trigger] ts[k] is Include)
}

proof fn lemma_expand_plain(
    ts: Seq<TokenModel>,
    i: int,
    j: int,
    table: Seq<(Seq<char>, Seq<char>)>,
    active: Seq<Seq<char>>,
    out: Seq<TokenModel>,
)
    requires
        0 <= i <= j <= ts.len(),
        forall|k: int| i <= k < j ==> !(#[trigger] ts[k] is Include),
    ensures
        expand(ts, i, table, active, out) == expand(ts, j, table, active, out + ts.subrange(i, j)),
    decreases j - i,
{
    if i == j {
        assert(out + ts.subrange(i, j) =~= out);
    } else {
        lemma_expand_plain(ts, i + 1, j, table, active, out.push(ts[i]));
        assert(out.push(ts[i]) + ts.subrange(i + 1, j) =~= out + ts.subrange(i, j));
    }
}

/// A splicing directive whose path is known, in a token sequence with no other
/// directive, is replaced by exactly the tokens of the text known under that
/// path (when that text holds no directive of its own), as if that text stood
/// in its place; the text's end-of-input token is not spliced.
pub proof fn lemma_splice_in_place(
    pre: Seq<TokenModel>,
    post: Seq<TokenModel>,
    path: Seq<char>,
    text: Seq<char>,
    table: Seq<(Seq<char>, Seq<char>)>,
)
    requires
        no_directive(pre),
        no_directive(post),
        no_directive(stream(text, 0)),
        lookup(table, path) == Some(text),
    ensures
        expand(
            pre + seq![TokenModel::Include, TokenModel::String(path)] + post,
            0,
            table,
            Seq::empty(),
            Seq::empty(),
        ) == Ok::<_, ErrorModel>(pre + stream(text, 0).drop_last() + post),
{
    let ts = pre + seq![TokenModel::Include, TokenModel::String(path)] + post;
    let e: Seq<TokenModel> = Seq::empty();
    let a: Seq<Seq<char>> = Seq::empty();
    let n = pre.len() as int;
    lemma_expand_plain(ts, 0, n, table, a, e);
    assert(e + ts.subrange(0, n) =~= pre);
    assert(ts[n] == TokenModel::Include);
    assert(tok(ts, n + 1) == TokenModel::String(path));
    let inner_ts = stream(text, 0).drop_last();
    lemma_expand_plain(inner_ts, 0, inner_ts.len() as int, table, a.push(path), e);
    assert(e + inner_ts.subrange(0, inner_ts.len() as int) =~= inner_ts);
    assert(table.len() > 0);
    lemma_expand_plain(ts, n + 2, ts.len() as int, table, a, pre + inner_ts);
    assert(pre + inner_ts + ts.subrange(n + 2, ts.len() as int) =~= pre + inner_ts + post);
}

/// Two texts that splice each other fail with a cycle error, not endlessly.
pub proof fn lemma_cycle_fails(
    a: Seq<char>,
    b: Seq<char>,
    text_a: Seq<char>,
    text_b: Seq<char>,
    table: Seq<(Seq<char>, Seq<char>)>,
)
    requires
        a != b,
        lookup(table, a) == Some(text_a),
        lookup(table, b) == Some(text_b),
        stream(text_a, 0) == seq![TokenModel::Include, TokenModel::String(b), TokenModel::EOF],
        stream(text_b, 0) == seq![TokenModel::Include, TokenModel::String(a), TokenModel::EOF],
    ensures
        expand(
            seq![TokenModel::Include, TokenModel::String(a), TokenModel::EOF],
            0,
            table,
            Seq::empty(),
            Seq::empty(),
        ) matches Err(ErrorModel::IncludeError { cause: SpliceFailure::Cycle, .. }),
{
    let e: Seq<TokenModel> = Seq::empty();
    let none: Seq<Seq<char>> = Seq::empty();
    let inner_a = stream(text_a, 0).drop_last();
    let inner_b = stream(text_b, 0).drop_last();
    assert(inner_a =~= seq![TokenModel::Include, TokenModel::String(b)]);
    assert(inner_b =~= seq![TokenModel::Include, TokenModel::String(a)]);
    let act1 = none.push(a);
    let act2 = act1.push(b);
    assert(act2[0] == a);
    assert(act2.contains(a));
    assert(!act1.contains(b)) by {
        assert(act1.len() == 1 && act1[0] == a);
    }
    assert(!none.contains(a));
    assert(table.len() > 0);
    assert(expand(inner_b, 0, table, act2, e) matches Err(
        ErrorModel::IncludeError { cause: SpliceFailure::Cycle, .. },
    ));
    assert(expand(inner_a, 0, table, act1, e) matches Err(
        ErrorModel::IncludeError { cause: SpliceFailure::Cycle, .. },
    ));
}

} // verus!
