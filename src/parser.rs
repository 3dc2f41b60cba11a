use vstd::prelude::*;
use crate::span::Span;
use crate::token::{Token, TokenKind, TokenModel, KindModel, tokens_model};
use crate::lexer::{lexer, lex, push_char};
use indexmap::IndexMap;
use vstd::string::StringExecFns;

verus! {

/// Why lexing or parsing stopped.
#[derive(Debug)]
pub enum Error {
    SourceFileTooBig(usize),
    InvalidCharacter(char, Span),
    UnterminatedStringLiteral(Span),
    UnexpectedToken(String, Token),
    TooNested(Span),
    UnexpectedEndOfFile,
}

/// The mathematical value of an [`Error`].
pub enum ErrorModel {
    SourceFileTooBig(nat),
    InvalidCharacter(char, Span),
    UnterminatedStringLiteral(Span),
    UnexpectedToken(Seq<char>, TokenModel),
    TooNested(Span),
    UnexpectedEndOfFile,
}

impl View for Error {
    type V = ErrorModel;

    open spec fn view(&self) -> ErrorModel {
        match self {
            Error::SourceFileTooBig(n) => ErrorModel::SourceFileTooBig(*n as nat),
            Error::InvalidCharacter(c, sp) => ErrorModel::InvalidCharacter(*c, *sp),
            Error::UnterminatedStringLiteral(sp) => ErrorModel::UnterminatedStringLiteral(*sp),
            Error::UnexpectedToken(m, t) => ErrorModel::UnexpectedToken(m@, t@),
            Error::TooNested(sp) => ErrorModel::TooNested(*sp),
            Error::UnexpectedEndOfFile => ErrorModel::UnexpectedEndOfFile,
        }
    }
}


/// The mathematical value of an [`Expr`].
pub enum ExprModel {
    Array(Seq<ExprModel>, Span),
    Object(Seq<(Seq<char>, ExprModel)>, Span),
    Str(Seq<char>, Span),
    Ident(Seq<char>, Span),
}

/// A node of the syntax tree, with the span of its opening token.
#[derive(Debug)]
pub enum Expr {
    Array(Vec<Expr>, Span),
    Object(ObjectMap, Span),
    String(String, Span),
    Ident(String, Span),
}

/// The members of an object literal, by name, in the order first written.
#[verifier::external_body]
#[derive(Debug)]
pub struct ObjectMap {
    map: IndexMap<String, Expr>,
}

/// The entries of an [`ObjectMap`], in order, with their values' models.
pub uninterp spec fn object_entries(m: ObjectMap) -> Seq<(Seq<char>, ExprModel)>;

/// Whether some entry of `es` has the name `k`.
pub open spec fn has_key(es: Seq<(Seq<char>, ExprModel)>, k: Seq<char>) -> bool {
    exists|i: int| 0 <= i < es.len() && es[i].0 == k
}

/// `es` with `(k, v)` set: a present name keeps its place and takes the new
/// value, a new name goes last.
pub open spec fn insert_entry(es: Seq<(Seq<char>, ExprModel)>, k: Seq<char>, v: ExprModel) -> Seq<
    (Seq<char>, ExprModel),
> {
    if has_key(es, k) {
        let i = choose|i: int| 0 <= i < es.len() && es[i].0 == k;
        es.update(i, (k, v))
    } else {
        es.push((k, v))
    }
}

impl ObjectMap {
    /// Relies on `IndexMap::new`: a map with no entries.
    #[verifier::external_body]
    pub fn new() -> (r: ObjectMap)
        ensures
            object_entries(r) == Seq::<(Seq<char>, ExprModel)>::empty(),
    {
        ObjectMap { map: IndexMap::new() }
    }

    /// Relies on `IndexMap::insert`: an existing key keeps its place and gets the
    /// new value; a new key goes last.
    #[verifier::external_body]
    pub fn insert(&mut self, key: String, value: Expr)
        ensures
            object_entries(*final(self)) == insert_entry(object_entries(*old(self)), key@, value@),
    {
        self.map.insert(key, value);
    }

    /// Relies on `IndexMap::len`: the number of entries.
    #[verifier::external_body]
    pub fn len(&self) -> (r: usize)
        ensures
            r == object_entries(*self).len(),
    {
        self.map.len()
    }

    /// Relies on `IndexMap::get_index`: the entry at an index, if it is in range.
    #[verifier::external_body]
    pub fn get_index(&self, index: usize) -> (r: Option<(&String, &Expr)>)
        ensures
            index < object_entries(*self).len() <==> r is Some,
            r matches Some(kv) ==> (kv.0@, kv.1@) == object_entries(*self)[index as int],
    {
        self.map.get_index(index)
    }

    /// The value of the first entry named `key`, if there is one.
    pub fn get(&self, key: &str) -> (r: Option<&Expr>)
        ensures
            r is Some <==> has_key(object_entries(*self), key@),
            r matches Some(v) ==> exists|i: int|
                0 <= i < object_entries(*self).len() && object_entries(*self)[i] == (key@, v@)
                    && forall|j: int| 0 <= j < i ==> object_entries(*self)[j].0 != key@,
    {
        let n = self.len();
        let wanted: String = String::from_str(key);
        let mut i: usize = 0;
        while i < n
            invariant
                n == object_entries(*self).len(),
                wanted@ == key@,
                i <= n,
                forall|j: int| 0 <= j < i ==> object_entries(*self)[j].0 != key@,
            decreases n - i,
        {
            if let Some((k, v)) = self.get_index(i) {
                if *k == wanted {
                    assert(object_entries(*self)[i as int] == (key@, v@));
                    return Some(v);
                }
            }
            i = i + 1;
        }
        None
    }
}

/// The model of an expression tree.
pub open spec fn expr_model(e: Expr) -> ExprModel
    decreases e,
{
    match e {
        Expr::Array(v, sp) => ExprModel::Array(
            Seq::new(
                v.len() as nat,
                |i: int|
                    if 0 <= i < v.len() {
                        expr_model(v[i])
                    } else {
                        ExprModel::Str(seq![], sp)
                    },
            ),
            sp,
        ),
        Expr::Object(m, sp) => ExprModel::Object(object_entries(m), sp),
        Expr::String(s, sp) => ExprModel::Str(s@, sp),
        Expr::Ident(s, sp) => ExprModel::Ident(s@, sp),
    }
}

impl View for Expr {
    type V = ExprModel;

    open spec fn view(&self) -> ExprModel {
        expr_model(*self)
    }
}


/// How many arrays and objects may nest, one in another.
pub const MAX_NESTING: usize = 50;

/// The message of an error where `kind` was expected.
pub open spec fn expected_label(kind: KindModel) -> Seq<char> {
    match kind {
        KindModel::BracketOpen => "expected BracketOpen"@,
        KindModel::BracketClose => "expected BracketClose"@,
        KindModel::BraceOpen => "expected BraceOpen"@,
        KindModel::BraceClose => "expected BraceClose"@,
        KindModel::Equal => "expected Equal"@,
        KindModel::Comma => "expected Comma"@,
        KindModel::Ident(_) => "expected Ident"@,
        KindModel::Str(_) => "expected String"@,
    }
}

/// Whether the token at `p` exists and has the given kind.
pub open spec fn kind_at(t: Seq<TokenModel>, p: int, k: KindModel) -> bool {
    0 <= p < t.len() && t[p].kind == k
}

/// Past an optional comma at `q`.
pub open spec fn after_comma(t: Seq<TokenModel>, q: int) -> int {
    if kind_at(t, q, KindModel::Comma) {
        q + 1
    } else {
        q
    }
}

/// Whether a token of this kind starts an array or an object.
pub open spec fn opens_container(k: KindModel) -> bool {
    k == KindModel::BracketOpen || k == KindModel::BraceOpen
}

/// The expression that starts at token `p`, at nesting depth `d`, with the
/// position just past it; or the first error.
pub open spec fn parse_value(t: Seq<TokenModel>, p: int, d: int) -> Result<(ExprModel, int), ErrorModel>
    decreases t.len() - p, 0int,
{
    if p < 0 || p >= t.len() {
        Err(ErrorModel::UnexpectedEndOfFile)
    } else if d >= MAX_NESTING && opens_container(t[p].kind) {
        Err(ErrorModel::TooNested(t[p].span))
    } else {
        match t[p].kind {
            KindModel::BracketOpen => match parse_elements(t, p + 1, d, seq![], true) {
                Ok((es, q)) => Ok((ExprModel::Array(es, t[p].span), q)),
                Err(e) => Err(e),
            },
            KindModel::BraceOpen => match parse_members(t, p + 1, d, seq![], true) {
                Ok((ms, q)) => Ok((ExprModel::Object(ms, t[p].span), q)),
                Err(e) => Err(e),
            },
            KindModel::Str(s) => Ok((ExprModel::Str(s, t[p].span), p + 1)),
            KindModel::Ident(s) => Ok((ExprModel::Ident(s, t[p].span), p + 1)),
            _ => Err(ErrorModel::UnexpectedToken("expected expression"@, t[p])),
        }
    }
}

/// The rest of an array body from token `p`: the elements read so far are
/// `acc`, and `had_comma` says whether a comma came after the last of them.
/// Gives all elements and the position past the closing bracket.
pub open spec fn parse_elements(
    t: Seq<TokenModel>,
    p: int,
    d: int,
    acc: Seq<ExprModel>,
    had_comma: bool,
) -> Result<(Seq<ExprModel>, int), ErrorModel>
    decreases t.len() - p, 1int,
{
    if p < 0 || p >= t.len() {
        Err(ErrorModel::UnexpectedEndOfFile)
    } else if t[p].kind == KindModel::BracketClose {
        Ok((acc, p + 1))
    } else if !had_comma {
        Err(ErrorModel::UnexpectedToken("comma"@, t[p]))
    } else {
        match parse_value(t, p, d + 1) {
            Err(e) => Err(e),
            Ok((e, q)) => {
                let next = after_comma(t, q);
                if p < next <= t.len() {
                    parse_elements(t, next, d, acc.push(e), kind_at(t, q, KindModel::Comma))
                } else {
                    Err(ErrorModel::UnexpectedEndOfFile)
                }
            },
        }
    }
}

/// The rest of an object body from token `p`, as [`parse_elements`] does for
/// arrays; each member is `name = value`, set into `acc` by [`insert_entry`].
pub open spec fn parse_members(
    t: Seq<TokenModel>,
    p: int,
    d: int,
    acc: Seq<(Seq<char>, ExprModel)>,
    had_comma: bool,
) -> Result<(Seq<(Seq<char>, ExprModel)>, int), ErrorModel>
    decreases t.len() - p, 1int,
{
    if p < 0 || p >= t.len() {
        Err(ErrorModel::UnexpectedEndOfFile)
    } else if t[p].kind == KindModel::BraceClose {
        Ok((acc, p + 1))
    } else if !had_comma {
        Err(ErrorModel::UnexpectedToken("comma"@, t[p]))
    } else {
        match t[p].kind {
            KindModel::Ident(name) => {
                if p + 1 >= t.len() {
                    Err(ErrorModel::UnexpectedEndOfFile)
                } else if t[p + 1].kind != KindModel::Equal {
                    Err(ErrorModel::UnexpectedToken(expected_label(KindModel::Equal), t[p + 1]))
                } else {
                    match parse_value(t, p + 2, d + 1) {
                        Err(e) => Err(e),
                        Ok((v, q)) => {
                            let next = after_comma(t, q);
                            if p < next <= t.len() {
                                parse_members(
                                    t,
                                    next,
                                    d,
                                    insert_entry(acc, name, v),
                                    kind_at(t, q, KindModel::Comma),
                                )
                            } else {
                                Err(ErrorModel::UnexpectedEndOfFile)
                            }
                        },
                    }
                }
            },
            _ => Err(ErrorModel::UnexpectedToken("expected name"@, t[p])),
        }
    }
}

/// The tree of a whole token sequence: one expression and nothing after it.
pub open spec fn parse_tokens(t: Seq<TokenModel>) -> Result<ExprModel, ErrorModel> {
    match parse_value(t, 0, 0) {
        Err(e) => Err(e),
        Ok((e, q)) => if q < t.len() {
            Err(ErrorModel::UnexpectedToken("end of file"@, t[q]))
        } else {
            Ok(e)
        },
    }
}

/// The tree of source text, or the first lexical or syntactic error.
pub open spec fn parse_source(s: Seq<char>) -> Result<ExprModel, ErrorModel> {
    match lex(s) {
        Err(e) => Err(e),
        Ok(t) => parse_tokens(t),
    }
}

/// A parsed value ends past where it starts, within the tokens.
pub proof fn lemma_parse_value_advances(t: Seq<TokenModel>, p: int, d: int)
    ensures
        parse_value(t, p, d) matches Ok((_, q)) ==> p < q <= t.len(),
    decreases t.len() - p, 0int,
{
    if 0 <= p < t.len() && !(d >= MAX_NESTING && opens_container(t[p].kind)) {
        match t[p].kind {
            KindModel::BracketOpen => lemma_parse_elements_advances(t, p + 1, d, seq![], true),
            KindModel::BraceOpen => lemma_parse_members_advances(t, p + 1, d, seq![], true),
            _ => {},
        }
    }
}

proof fn lemma_parse_elements_advances(
    t: Seq<TokenModel>,
    p: int,
    d: int,
    acc: Seq<ExprModel>,
    had_comma: bool,
)
    ensures
        parse_elements(t, p, d, acc, had_comma) matches Ok((_, q)) ==> p < q <= t.len(),
    decreases t.len() - p, 1int,
{
    if 0 <= p < t.len() && t[p].kind != KindModel::BracketClose && had_comma {
        lemma_parse_value_advances(t, p, d + 1);
        if let Ok((e, q)) = parse_value(t, p, d + 1) {
            let next = after_comma(t, q);
            if p < next <= t.len() {
                lemma_parse_elements_advances(t, next, d, acc.push(e), kind_at(t, q, KindModel::Comma));
            }
        }
    }
}

proof fn lemma_parse_members_advances(
    t: Seq<TokenModel>,
    p: int,
    d: int,
    acc: Seq<(Seq<char>, ExprModel)>,
    had_comma: bool,
)
    ensures
        parse_members(t, p, d, acc, had_comma) matches Ok((_, q)) ==> p < q <= t.len(),
    decreases t.len() - p, 1int,
{
    if 0 <= p < t.len() && t[p].kind != KindModel::BraceClose && had_comma && p + 1 < t.len() {
        if let KindModel::Ident(name) = t[p].kind {
            lemma_parse_value_advances(t, p + 2, d + 1);
            if let Ok((v, q)) = parse_value(t, p + 2, d + 1) {
                let next = after_comma(t, q);
                if p < next <= t.len() {
                    lemma_parse_members_advances(
                        t,
                        next,
                        d,
                        insert_entry(acc, name, v),
                        kind_at(t, q, KindModel::Comma),
                    );
                }
            }
        }
    }
}


/// The token at `p`, or the end-of-file error past the end.
pub open spec fn token_at(t: Seq<TokenModel>, p: int) -> Result<TokenModel, ErrorModel> {
    if 0 <= p < t.len() {
        Ok(t[p])
    } else {
        Err(ErrorModel::UnexpectedEndOfFile)
    }
}

/// The model of a token, or of the error in its place.
pub open spec fn token_result(r: Result<Token, Error>) -> Result<TokenModel, ErrorModel> {
    match r {
        Ok(t) => Ok(t@),
        Err(e) => Err(e@),
    }
}

/// A cursor over an owned token sequence.
struct TokenStream {
    tokens: Vec<Token>,
    pos: usize,
}

impl TokenStream {
    spec fn wf(&self) -> bool {
        self.pos <= self.tokens.len()
    }

    spec fn model(&self) -> Seq<TokenModel> {
        tokens_model(self.tokens@)
    }

    /// The next token, left in place.
    fn peek(&self) -> (r: Result<&Token, Error>)
        requires
            self.wf(),
        ensures
            match r {
                Ok(t) => Ok(t@),
                Err(e) => Err(e@),
            } == token_at(self.model(), self.pos as int),
    {
        if self.pos < self.tokens.len() {
            Ok(&self.tokens[self.pos])
        } else {
            Err(Error::UnexpectedEndOfFile)
        }
    }

    /// The next token, consumed.
    fn next(&mut self) -> (r: Result<Token, Error>)
        requires
            old(self).wf(),
        ensures
            final(self).wf(),
            final(self).tokens@ == old(self).tokens@,
            token_result(r) == token_at(old(self).model(), old(self).pos as int),
            final(self).pos == if r is Ok { old(self).pos + 1 } else { old(self).pos as int },
    {
        if self.pos < self.tokens.len() {
            let t = self.tokens[self.pos].duplicate();
            self.pos = self.pos + 1;
            Ok(t)
        } else {
            Err(Error::UnexpectedEndOfFile)
        }
    }

    /// The next token, consumed only where it has the given kind.
    fn eat(&mut self, kind: TokenKind) -> (r: Option<Token>)
        requires
            old(self).wf(),
        ensures
            final(self).wf(),
            final(self).tokens@ == old(self).tokens@,
            r is Some <==> kind_at(old(self).model(), old(self).pos as int, kind@),
            r matches Some(tok) ==> tok@ == old(self).model()[old(self).pos as int],
            final(self).pos == if r is Some { old(self).pos + 1 } else { old(self).pos as int },
    {
        match self.peek() {
            Ok(next) => {
                if !next.kind.same_as(&kind) {
                    return None;
                }
            },
            Err(_) => {
                return None;
            },
        }
        match self.next() {
            Ok(t) => Some(t),
            Err(_) => None,
        }
    }

    /// The next token, consumed; an error where it does not have the given kind.
    fn expect(&mut self, kind: TokenKind) -> (r: Result<Token, Error>)
        requires
            old(self).wf(),
        ensures
            final(self).wf(),
            final(self).tokens@ == old(self).tokens@,
            final(self).pos == if old(self).pos < old(self).tokens.len() { old(self).pos + 1 } else { old(self).pos as int },
            token_result(r) == match token_at(old(self).model(), old(self).pos as int) {
                Ok(t) => if t.kind == kind@ {
                    Ok(t)
                } else {
                    Err(ErrorModel::UnexpectedToken(expected_label(kind@), t))
                },
                Err(e) => Err(e),
            },
    {
        let next = match self.next() {
            Ok(t) => t,
            Err(e) => return Err(e),
        };
        if !next.kind.same_as(&kind) {
            return Err(Error::UnexpectedToken(expected_message(&kind), next));
        }
        Ok(next)
    }
}

/// The message of an error where a token of `kind` was expected.
fn expected_message(kind: &TokenKind) -> (r: String)
    ensures
        r@ == expected_label(kind@),
{
    let r = match kind {
        TokenKind::BracketOpen => String::from_str("expected BracketOpen"),
        TokenKind::BracketClose => String::from_str("expected BracketClose"),
        TokenKind::BraceOpen => String::from_str("expected BraceOpen"),
        TokenKind::BraceClose => String::from_str("expected BraceClose"),
        TokenKind::Equal => String::from_str("expected Equal"),
        TokenKind::Comma => String::from_str("expected Comma"),
        TokenKind::Ident(_) => String::from_str("expected Ident"),
        TokenKind::String(_) => String::from_str("expected String"),
    };
    r
}


/// The models of a sequence of expressions, in order.
pub open spec fn exprs_model(v: Seq<Expr>) -> Seq<ExprModel> {
    v.map_values(|e: Expr| e@)
}

/// The model of a parsed expression with the position after it, or of the error.
pub open spec fn value_result(r: Result<Expr, Error>, q: int) -> Result<(ExprModel, int), ErrorModel> {
    match r {
        Ok(e) => Ok((e@, q)),
        Err(e) => Err(e@),
    }
}

/// The model of a parse result.
pub open spec fn expr_result(r: Result<Expr, Error>) -> Result<ExprModel, ErrorModel> {
    match r {
        Ok(e) => Ok(e@),
        Err(e) => Err(e@),
    }
}

/// Parses one expression at the cursor, `depth` levels down.
fn parse_expr(ts: &mut TokenStream, depth: usize) -> (r: Result<Expr, Error>)
    requires
        old(ts).wf(),
        depth <= MAX_NESTING,
    ensures
        final(ts).wf(),
        final(ts).tokens@ == old(ts).tokens@,
        value_result(r, final(ts).pos as int) == parse_value(
            old(ts).model(),
            old(ts).pos as int,
            depth as int,
        ),
    decreases old(ts).tokens.len() - old(ts).pos,
{
    let ghost t = ts.model();
    let ghost toks = ts.tokens@;
    let ghost p0 = ts.pos as int;
    let token = match ts.next() {
        Ok(tok) => tok,
        Err(e) => return Err(e),
    };
    if depth >= MAX_NESTING && matches!(token.kind, TokenKind::BracketOpen | TokenKind::BraceOpen) {
        return Err(Error::TooNested(token.span));
    }
    match token.kind {
        TokenKind::BracketOpen => {
            let mut elems: Vec<Expr> = Vec::new();
            let mut had_comma = true;
            proof {
                assert(exprs_model(elems@) =~= Seq::<ExprModel>::empty());
            }
            loop
                invariant
                    ts.wf(),
                    toks == old(ts).tokens@,
                    t == old(ts).model(),
                    p0 == old(ts).pos,
                    p0 < t.len(),
                    token@ == t[p0],
                    token.kind is BracketOpen,
                    ts.tokens@ == toks,
                    ts.model() == t,
                    ts.pos > p0,
                    depth < MAX_NESTING,
                    parse_elements(t, p0 + 1, depth as int, seq![], true) == parse_elements(
                        t,
                        ts.pos as int,
                        depth as int,
                        exprs_model(elems@),
                        had_comma,
                    ),
                ensures
                    ts.wf(),
                    ts.tokens@ == toks,
                    ts.model() == t,
                    kind_at(t, ts.pos as int, KindModel::BracketClose),
                    parse_elements(t, p0 + 1, depth as int, seq![], true) == Ok::<(Seq<ExprModel>, int), ErrorModel>(
                        (exprs_model(elems@), ts.pos + 1),
                    ),
                decreases ts.tokens.len() - ts.pos,
            {
                let close = match ts.peek() {
                    Ok(next) => matches!(next.kind, TokenKind::BracketClose),
                    Err(_) => false,
                };
                if close {
                    break;
                }
                let ghost p = ts.pos as int;
                if !had_comma {
                    let bad = match ts.next() {
                        Ok(tok) => tok,
                        Err(e) => return Err(e),
                    };
                    return Err(Error::UnexpectedToken(String::from_str("comma"), bad));
                }
                let e = match parse_expr(ts, depth + 1) {
                    Ok(e) => e,
                    Err(err) => return Err(err),
                };
                proof {
                    lemma_parse_value_advances(t, p, depth + 1);
                }
                let ghost before = exprs_model(elems@);
                elems.push(e);
                proof {
                    assert(exprs_model(elems@) =~= before.push(e@));
                }
                had_comma = ts.eat(TokenKind::Comma).is_some();
            }
            let _close = ts.next();
            let ghost em = exprs_model(elems@);
            let ghost ev = elems@;
            let r = Expr::Array(elems, token.span);
            proof {
                assert(r is Array);
                assert(r->Array_0@ == ev);
                assert(r@->Array_0.len() == ev.len());
                assert(r@->Array_0 =~= em);
            }
            Ok(r)
        },
        TokenKind::BraceOpen => {
            let mut map = ObjectMap::new();
            let mut had_comma = true;
            loop
                invariant
                    ts.wf(),
                    toks == old(ts).tokens@,
                    t == old(ts).model(),
                    p0 == old(ts).pos,
                    p0 < t.len(),
                    token@ == t[p0],
                    token.kind is BraceOpen,
                    ts.tokens@ == toks,
                    ts.model() == t,
                    ts.pos > p0,
                    depth < MAX_NESTING,
                    parse_members(t, p0 + 1, depth as int, seq![], true) == parse_members(
                        t,
                        ts.pos as int,
                        depth as int,
                        object_entries(map),
                        had_comma,
                    ),
                ensures
                    ts.wf(),
                    ts.tokens@ == toks,
                    ts.model() == t,
                    kind_at(t, ts.pos as int, KindModel::BraceClose),
                    parse_members(t, p0 + 1, depth as int, seq![], true) == Ok::<(Seq<(Seq<char>, ExprModel)>, int), ErrorModel>(
                        (object_entries(map), ts.pos + 1),
                    ),
                decreases ts.tokens.len() - ts.pos,
            {
                let close = match ts.peek() {
                    Ok(next) => matches!(next.kind, TokenKind::BraceClose),
                    Err(_) => false,
                };
                if close {
                    break;
                }
                let ghost p = ts.pos as int;
                if !had_comma {
                    let bad = match ts.next() {
                        Ok(tok) => tok,
                        Err(e) => return Err(e),
                    };
                    return Err(Error::UnexpectedToken(String::from_str("comma"), bad));
                }
                let name_tok = match ts.next() {
                    Ok(tok) => tok,
                    Err(e) => return Err(e),
                };
                let name = match name_tok.kind {
                    TokenKind::Ident(name) => name,
                    _ => return Err(Error::UnexpectedToken(String::from_str("expected name"), name_tok)),
                };
                match ts.expect(TokenKind::Equal) {
                    Ok(_) => {},
                    Err(e) => return Err(e),
                }
                let value = match parse_expr(ts, depth + 1) {
                    Ok(v) => v,
                    Err(err) => return Err(err),
                };
                proof {
                    lemma_parse_value_advances(t, p + 2, depth + 1);
                }
                map.insert(name, value);
                had_comma = ts.eat(TokenKind::Comma).is_some();
            }
            let _close = ts.next();
            Ok(Expr::Object(map, token.span))
        },
        TokenKind::String(s) => Ok(Expr::String(s, token.span)),
        TokenKind::Ident(s) => Ok(Expr::Ident(s, token.span)),
        _ => Err(Error::UnexpectedToken(String::from_str("expected expression"), token)),
    }
}

/// Parses source text into a syntax tree.
///
/// The result is exactly [`parse_source`] of the text: the tree of the one
/// expression that the tokens form, or the first error, lexical or syntactic.
/// Tokens left after that expression are an error.
pub fn parse(input: &str) -> (r: Result<Expr, Error>)
    ensures
        expr_result(r) == parse_source(input@),
{
    let tokens = match lexer(input) {
        Ok(ts) => ts,
        Err(e) => return Err(e),
    };
    let mut ts = TokenStream { tokens, pos: 0 };
    let expr = match parse_expr(&mut ts, 0) {
        Ok(e) => e,
        Err(e) => return Err(e),
    };
    if ts.pos < ts.tokens.len() {
        let extra = ts.tokens[ts.pos].duplicate();
        return Err(Error::UnexpectedToken(String::from_str("end of file"), extra));
    }
    Ok(expr)
}


/// The message that describes an error.
pub open spec fn error_message(e: ErrorModel) -> Seq<char> {
    match e {
        ErrorModel::SourceFileTooBig(_) => "source file bigger than 4GB"@,
        ErrorModel::InvalidCharacter(c, _) => "invalid character: "@.push(c),
        ErrorModel::UnterminatedStringLiteral(_) => "unterminated string literal"@,
        ErrorModel::UnexpectedToken(expected, _) => "unexpected token, expected "@ + expected,
        ErrorModel::TooNested(_) => "too nested"@,
        ErrorModel::UnexpectedEndOfFile => "unexpected end of file"@,
    }
}

/// Where an error points in the source; the empty span where no place applies.
pub open spec fn error_span(e: ErrorModel) -> Span {
    match e {
        ErrorModel::InvalidCharacter(_, sp) => sp,
        ErrorModel::UnterminatedStringLiteral(sp) => sp,
        ErrorModel::UnexpectedToken(_, t) => t.span,
        ErrorModel::TooNested(sp) => sp,
        _ => Span { start: 0, end: 0 },
    }
}

impl Error {
    /// The message and the source span by which the error is reported.
    pub fn into_msg_and_span(self) -> (r: (String, Span))
        ensures
            r.0@ == error_message(self@),
            r.1 == error_span(self@),
    {
        match self {
            Error::SourceFileTooBig(_) => (String::from_str("source file bigger than 4GB"), Span::empty()),
            Error::InvalidCharacter(c, sp) => {
                let mut msg = String::from_str("invalid character: ");
                push_char(&mut msg, c);
                (msg, sp)
            },
            Error::UnterminatedStringLiteral(sp) => (String::from_str("unterminated string literal"), sp),
            Error::UnexpectedToken(expected, tok) => {
                let mut msg = String::from_str("unexpected token, expected ");
                msg.append(expected.as_str());
                (msg, tok.span)
            },
            Error::TooNested(sp) => (String::from_str("too nested"), sp),
            Error::UnexpectedEndOfFile => (String::from_str("unexpected end of file"), Span::empty()),
        }
    }
}

/// Setting a name in an object's entries keeps every earlier name in its place.
pub proof fn lemma_insert_entry_keeps_names(es: Seq<(Seq<char>, ExprModel)>, k: Seq<char>, v: ExprModel)
    ensures
        es.len() <= insert_entry(es, k, v).len(),
        forall|i: int| 0 <= i < es.len() ==> #[trigger] insert_entry(es, k, v)[i].0 == es[i].0,
        has_key(insert_entry(es, k, v), k),
{
    let r = insert_entry(es, k, v);
    if has_key(es, k) {
        let j = choose|i: int| 0 <= i < es.len() && es[i].0 == k;
        assert(r[j].0 == k);
    } else {
        assert(r[es.len() as int].0 == k);
    }
}

/// An array body keeps the elements read before it, in front and in order:
/// the elements of an array stand in source order.
pub proof fn lemma_elements_keep_order(
    t: Seq<TokenModel>,
    p: int,
    d: int,
    acc: Seq<ExprModel>,
    had_comma: bool,
)
    ensures
        parse_elements(t, p, d, acc, had_comma) matches Ok((es, _)) ==> acc.len() <= es.len()
            && es.subrange(0, acc.len() as int) == acc,
    decreases t.len() - p,
{
    if 0 <= p < t.len() && t[p].kind != KindModel::BracketClose && had_comma {
        if let Ok((e, q)) = parse_value(t, p, d + 1) {
            let next = after_comma(t, q);
            if p < next <= t.len() {
                lemma_elements_keep_order(t, next, d, acc.push(e), kind_at(t, q, KindModel::Comma));
                if let Ok((es, _)) = parse_elements(t, p, d, acc, had_comma) {
                    assert(es.subrange(0, acc.len() as int) =~= es.subrange(0, acc.len() + 1 as int).subrange(
                        0,
                        acc.len() as int,
                    ));
                    assert(acc.push(e).subrange(0, acc.len() as int) =~= acc);
                }
            }
        }
    }
    if 0 <= p < t.len() && t[p].kind == KindModel::BracketClose {
        assert(acc.subrange(0, acc.len() as int) =~= acc);
    }
}

/// An object body keeps each name where it was first written, and every
/// member it reads is among its names.
pub proof fn lemma_members_keep_order(
    t: Seq<TokenModel>,
    p: int,
    d: int,
    acc: Seq<(Seq<char>, ExprModel)>,
    had_comma: bool,
)
    ensures
        parse_members(t, p, d, acc, had_comma) matches Ok((ms, _)) ==> acc.len() <= ms.len()
            && forall|i: int| 0 <= i < acc.len() ==> #[trigger] ms[i].0 == acc[i].0,
    decreases t.len() - p,
{
    if 0 <= p < t.len() && t[p].kind != KindModel::BraceClose && had_comma && p + 1 < t.len() {
        if let KindModel::Ident(name) = t[p].kind {
            if let Ok((v, q)) = parse_value(t, p + 2, d + 1) {
                let next = after_comma(t, q);
                if p < next <= t.len() {
                    let acc2 = insert_entry(acc, name, v);
                    lemma_insert_entry_keeps_names(acc, name, v);
                    lemma_members_keep_order(t, next, d, acc2, kind_at(t, q, KindModel::Comma));
                    if let Ok((ms, _)) = parse_members(t, p, d, acc, had_comma) {
                        assert forall|i: int| 0 <= i < acc.len() implies #[trigger] ms[i].0 == acc[i].0 by {
                            assert(acc2[i].0 == acc[i].0);
                        }
                    }
                }
            }
        }
    }
}

/// Whether `t` is `n` opening brackets followed by `n` closing brackets.
pub open spec fn is_nested_brackets(t: Seq<TokenModel>, n: int) -> bool {
    &&& t.len() == 2 * n
    &&& forall|i: int| 0 <= i < n ==> #[trigger] t[i].kind == KindModel::BracketOpen
    &&& forall|i: int| n <= i < 2 * n ==> #[trigger] t[i].kind == KindModel::BracketClose
}

proof fn lemma_nested_from(t: Seq<TokenModel>, n: int, k: int)
    requires
        is_nested_brackets(t, n),
        0 <= k < n,
        k <= MAX_NESTING,
    ensures
        n <= MAX_NESTING ==> parse_value(t, k, k) is Ok && parse_value(t, k, k)->Ok_0.1 == 2 * n - k,
        n > MAX_NESTING ==> parse_value(t, k, k) == Err::<(ExprModel, int), ErrorModel>(
            ErrorModel::TooNested(t[MAX_NESTING as int].span),
        ),
    decreases n - k,
{
    assert(t[k].kind == KindModel::BracketOpen);
    if k < MAX_NESTING {
        if k + 1 == n {
            assert(t[k + 1].kind == KindModel::BracketClose);
        } else {
            assert(t[k + 1].kind == KindModel::BracketOpen);
            lemma_nested_from(t, n, k + 1);
            if let Ok((e, q)) = parse_value(t, k + 1, k + 1) {
                assert(t[q].kind == KindModel::BracketClose);
                assert(after_comma(t, q) == q);
                assert(parse_elements(t, q, k, seq![e], false) == Ok::<(Seq<ExprModel>, int), ErrorModel>(
                    (seq![e], q + 1),
                ));
                assert(seq![].push(e) == seq![e]);
            }
        }
    }
}

/// The nesting guard: `n` arrays nested one in another, written as `n`
/// opening brackets and then `n` closing ones, parse when `n` is at most
/// the limit, and fail as too nested at the first bracket past it.
pub proof fn lemma_nesting_guard(t: Seq<TokenModel>, n: int)
    requires
        is_nested_brackets(t, n),
        n >= 1,
    ensures
        n <= MAX_NESTING ==> parse_tokens(t) is Ok,
        n > MAX_NESTING ==> parse_tokens(t) == Err::<ExprModel, ErrorModel>(
            ErrorModel::TooNested(t[MAX_NESTING as int].span),
        ),
{
    lemma_nested_from(t, n, 0);
}

/// A closing bracket ends an array body whether or not a comma came before it:
/// `[a, b,]` and `[a, b]` give the same elements.
pub proof fn lemma_trailing_comma_in_array(t: Seq<TokenModel>, p: int, d: int, acc: Seq<ExprModel>)
    requires
        kind_at(t, p, KindModel::BracketClose),
    ensures
        parse_elements(t, p, d, acc, true) == parse_elements(t, p, d, acc, false),
        parse_elements(t, p, d, acc, true) == Ok::<(Seq<ExprModel>, int), ErrorModel>((acc, p + 1)),
{
}

/// A closing brace ends an object body whether or not a comma came before it.
pub proof fn lemma_trailing_comma_in_object(
    t: Seq<TokenModel>,
    p: int,
    d: int,
    acc: Seq<(Seq<char>, ExprModel)>,
)
    requires
        kind_at(t, p, KindModel::BraceClose),
    ensures
        parse_members(t, p, d, acc, true) == parse_members(t, p, d, acc, false),
        parse_members(t, p, d, acc, true) == Ok::<(Seq<(Seq<char>, ExprModel)>, int), ErrorModel>(
            (acc, p + 1),
        ),
{
}

/// An array or object opened inside as many others as the limit allows fails
/// as too nested, at its opening token, whatever follows it.
pub proof fn lemma_too_nested(t: Seq<TokenModel>, p: int, d: int)
    requires
        0 <= p < t.len(),
        d >= MAX_NESTING,
        opens_container(t[p].kind),
    ensures
        parse_value(t, p, d) == Err::<(ExprModel, int), ErrorModel>(ErrorModel::TooNested(t[p].span)),
{
}
} // verus!
