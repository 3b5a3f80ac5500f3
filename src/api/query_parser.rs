//! The `q` query language: tokenizer, recursive-descent parser building the
//! disjunctive normal form directly, and the merge of each conjunction into a filter.
use vstd::prelude::*;
use crate::db::{EventFilter, FilterSpec};
use crate::ledger::events::{type_from_name, EventType};
use crate::text::{
    chars_of, concat3, parse_unsigned, parse_unsigned_range, push_char, range_is, str_eq,
    string_of_range,
};

verus! {

/// Why a query was rejected.
#[derive(Debug, Clone, Copy, PartialEq, Eq, Structural)]
pub enum QueryParseErrorKind {
    EmptyQuery,
    UnknownKey,
    MissingValue,
    InvalidValue,
    UnbalancedParens,
    UnexpectedToken,
    ConflictingQualifiers,
    DuplicateTopicPosition,
    UnbalancedBraces,
    UnbalancedQuotes,
    TooManyFilters,
    QueryTooLong,
    TooManyTerms,
    NestingTooDeep,
}

/// A rejected query: what went wrong, a description, and the byte offset where.
#[derive(Debug)]
pub struct QueryParseError {
    pub kind: QueryParseErrorKind,
    pub message: String,
    pub position: usize,
}

/// Maximum byte length of a query.
pub const MAX_QUERY_LENGTH: usize = 1024;

/// Maximum number of `key:value` terms in a query.
pub const MAX_QUERY_TERMS: usize = 20;

/// Maximum parenthesis nesting depth.
pub const MAX_NESTING_DEPTH: usize = 4;

/// Maximum number of filters after expansion to disjunctive normal form.
pub const MAX_FILTERS: usize = 20;

/// The key of a qualifier.
#[derive(Debug, Clone, Copy, PartialEq, Eq, Structural)]
pub enum QualKey {
    Type,
    Contract,
    Topic,
    TopicAt(u8),
    Ledger,
    Tx,
}

/// The kind of a token.
#[derive(Debug, Clone, Copy, PartialEq, Eq, Structural)]
pub enum TokenKind {
    Qualifier,
    Or,
    LParen,
    RParen,
}

/// A token as the specification sees it; `start..end` is the span it covers.
pub struct TokenSpec {
    pub kind: TokenKind,
    pub key: QualKey,
    pub value: Seq<char>,
    pub start: int,
    pub end: int,
}

/// A token of a query.
pub struct Token {
    pub kind: TokenKind,
    pub key: QualKey,
    pub value: String,
    pub start: usize,
    pub end: usize,
}

impl View for Token {
    type V = TokenSpec;

    open spec fn view(&self) -> TokenSpec {
        TokenSpec {
            kind: self.kind,
            key: self.key,
            value: self.value@,
            start: self.start as int,
            end: self.end as int,
        }
    }
}

/// Whether `c` separates tokens.
pub open spec fn is_blank(c: char) -> bool {
    c == ' ' || c == '\t'
}

/// The end of a key: the first `:`, blank or parenthesis at or after `p`.
pub open spec fn key_end(cs: Seq<char>, p: int) -> int
    decreases cs.len() - p,
{
    if p >= cs.len() || cs[p] == ':' || is_blank(cs[p]) || cs[p] == '('
        || cs[p] == ')' {
        p
    } else {
        key_end(cs, p + 1)
    }
}

/// The end of a bare value: the first blank or `)` at or after `p`.
pub open spec fn bare_end(cs: Seq<char>, p: int) -> int
    decreases cs.len() - p,
{
    if p >= cs.len() || is_blank(cs[p]) || cs[p] == ')' {
        p
    } else {
        bare_end(cs, p + 1)
    }
}

/// The rest of a double-quoted value from `p` (after the opening quote): its
/// text with `\"` unescaped, and the position after the closing quote.
pub open spec fn quoted_rest(cs: Seq<char>, p: int) -> Option<(Seq<char>, int)>
    decreases cs.len() - p,
{
    if p >= cs.len() {
        None
    } else if cs[p] == '\\' && p + 1 < cs.len() && cs[p + 1] == '"' {
        match quoted_rest(cs, p + 2) {
            Some((v, e)) => Some((seq!['"'] + v, e)),
            None => None,
        }
    } else if cs[p] == '"' {
        Some((Seq::empty(), p + 1))
    } else {
        match quoted_rest(cs, p + 1) {
            Some((v, e)) => Some((seq![cs[p]] + v, e)),
            None => None,
        }
    }
}

/// The position after a JSON string literal whose body starts at `p`
/// (the end of the input if it is not closed).
pub open spec fn string_end(cs: Seq<char>, p: int) -> int
    decreases cs.len() - p,
{
    if p >= cs.len() {
        p
    } else if cs[p] == '\\' && p + 1 < cs.len() {
        string_end(cs, p + 2)
    } else if cs[p] == '"' {
        p + 1
    } else {
        string_end(cs, p + 1)
    }
}

/// The position after the brace that closes a JSON value, scanning from `p`
/// with `depth` braces open; `None` when the input ends first.
pub open spec fn json_end(cs: Seq<char>, p: int, depth: int) -> Option<int>
    decreases cs.len() - p,
{
    if p >= cs.len() {
        None
    } else if cs[p] == '"' {
        let e = string_end(cs, p + 1);
        if p < e <= cs.len() {
            json_end(cs, e, depth)
        } else {
            None
        }
    } else if cs[p] == '{' {
        json_end(cs, p + 1, depth + 1)
    } else if cs[p] == '}' {
        if depth - 1 == 0 {
            Some(p + 1)
        } else {
            json_end(cs, p + 1, depth - 1)
        }
    } else {
        json_end(cs, p + 1, depth)
    }
}


/// The qualifier key spelled by `k`.
pub open spec fn key_of(k: Seq<char>) -> Option<QualKey> {
    if k == "type"@ {
        Some(QualKey::Type)
    } else if k == "contract"@ {
        Some(QualKey::Contract)
    } else if k == "topic"@ {
        Some(QualKey::Topic)
    } else if k == "topic0"@ {
        Some(QualKey::TopicAt(0))
    } else if k == "topic1"@ {
        Some(QualKey::TopicAt(1))
    } else if k == "topic2"@ {
        Some(QualKey::TopicAt(2))
    } else if k == "topic3"@ {
        Some(QualKey::TopicAt(3))
    } else if k == "ledger"@ {
        Some(QualKey::Ledger)
    } else if k == "tx"@ {
        Some(QualKey::Tx)
    } else {
        None
    }
}

/// One step of the tokenizer.
pub enum LexStep {
    /// Nothing emitted; continue at the position.
    Skip(int),
    /// A token, and the position after it.
    Emit(TokenSpec, int),
    /// A rejection and its position.
    Fail(QueryParseErrorKind, int),
}

/// A token without a qualifier.
pub open spec fn plain_token(kind: TokenKind, start: int, end: int) -> TokenSpec {
    TokenSpec { kind, key: QualKey::Type, value: Seq::empty(), start, end }
}

/// A qualifier token.
pub open spec fn qual_token(key: QualKey, value: Seq<char>, start: int, end: int) -> TokenSpec {
    TokenSpec { kind: TokenKind::Qualifier, key, value, start, end }
}

/// Whether `OR` at `p` stands as a keyword: followed by a blank, `)` or the end.
pub open spec fn or_at(cs: Seq<char>, p: int) -> bool {
    &&& p + 2 <= cs.len()
    &&& cs[p] == 'O'
    &&& cs[p + 1] == 'R'
    &&& (p + 2 == cs.len() || is_blank(cs[p + 2]) || cs[p + 2] == ')')
}

/// What the tokenizer does at position `p` (with `p` inside the input).
pub open spec fn lex_step(cs: Seq<char>, p: int) -> LexStep {
    let c = cs[p];
    if is_blank(c) {
        LexStep::Skip(p + 1)
    } else if c == '(' {
        LexStep::Emit(plain_token(TokenKind::LParen, p, p + 1), p + 1)
    } else if c == ')' {
        LexStep::Emit(plain_token(TokenKind::RParen, p, p + 1), p + 1)
    } else if or_at(cs, p) {
        LexStep::Emit(plain_token(TokenKind::Or, p, p + 2), p + 2)
    } else {
        let ke = key_end(cs, p);
        if ke >= cs.len() || cs[ke] != ':' {
            LexStep::Fail(QueryParseErrorKind::UnexpectedToken, p)
        } else {
            match key_of(cs.subrange(p, ke)) {
                None => LexStep::Fail(QueryParseErrorKind::UnknownKey, p),
                Some(k) => {
                    let vp = ke + 1;
                    if vp >= cs.len() || is_blank(cs[vp]) || cs[vp] == ')' || cs[vp] == '(' {
                        LexStep::Fail(
                            QueryParseErrorKind::MissingValue,
                            if vp >= cs.len() { cs.len() as int } else { vp },
                        )
                    } else if cs[vp] == '"' {
                        match quoted_rest(cs, vp + 1) {
                            None => LexStep::Fail(QueryParseErrorKind::UnbalancedQuotes, vp),
                            Some((v, e)) => LexStep::Emit(qual_token(k, v, p, e), e),
                        }
                    } else if cs[vp] == '{' {
                        match json_end(cs, vp, 0) {
                            None => LexStep::Fail(QueryParseErrorKind::UnbalancedBraces, vp),
                            Some(e) => LexStep::Emit(qual_token(k, cs.subrange(vp, e), p, e), e),
                        }
                    } else {
                        let e = bare_end(cs, vp);
                        LexStep::Emit(qual_token(k, cs.subrange(vp, e), p, e), e)
                    }
                },
            }
        }
    }
}

/// The tokens of `cs` from position `p`, or the first rejection. (Each step
/// advances; the guards on the next position only make termination evident.)
pub open spec fn lex(cs: Seq<char>, p: int) -> Result<Seq<TokenSpec>, (QueryParseErrorKind, int)>
    decreases cs.len() - p,
{
    if p < 0 || p >= cs.len() {
        Ok(Seq::empty())
    } else {
        match lex_step(cs, p) {
            LexStep::Skip(n) => if p < n <= cs.len() {
                lex(cs, n)
            } else {
                Err((QueryParseErrorKind::UnexpectedToken, p))
            },
            LexStep::Emit(t, n) => if p < n <= cs.len() {
                match lex(cs, n) {
                    Ok(ts) => Ok(seq![t] + ts),
                    Err(e) => Err(e),
                }
            } else {
                Err((QueryParseErrorKind::UnexpectedToken, p))
            },
            LexStep::Fail(k, q) => Err((k, q)),
        }
    }
}

fn is_blank_char(c: char) -> (r: bool)
    ensures
        r == is_blank(c),
{
    c == ' ' || c == '\t'
}

fn scan_key_end(cs: &Vec<char>, p: usize) -> (r: usize)
    requires
        p <= cs@.len(),
    ensures
        r as int == key_end(cs@, p as int),
        p <= r <= cs@.len(),
{
    let mut i = p;
    while i < cs.len() && cs[i] != ':' && !is_blank_char(cs[i]) && cs[i] != '(' && cs[i] != ')'
        invariant
            p <= i <= cs@.len(),
            key_end(cs@, p as int) == key_end(cs@, i as int),
        decreases cs.len() - i,
    {
        i = i + 1;
    }
    i
}

fn scan_bare_end(cs: &Vec<char>, p: usize) -> (r: usize)
    requires
        p <= cs@.len(),
    ensures
        r as int == bare_end(cs@, p as int),
        p <= r <= cs@.len(),
{
    let mut i = p;
    while i < cs.len() && !is_blank_char(cs[i]) && cs[i] != ')'
        invariant
            p <= i <= cs@.len(),
            bare_end(cs@, p as int) == bare_end(cs@, i as int),
        decreases cs.len() - i,
    {
        i = i + 1;
    }
    i
}

fn scan_quoted(cs: &Vec<char>, p: usize) -> (r: Option<(String, usize)>)
    requires
        p <= cs@.len(),
    ensures
        match quoted_rest(cs@, p as int) {
            Some((v, e)) => r.is_some() && r.unwrap().0@ == v && r.unwrap().1 as int == e && p
                < e <= cs@.len(),
            None => r.is_none(),
        },
{
    let mut acc = String::new();
    let mut i = p;
    while i < cs.len()
        invariant
            p <= i <= cs@.len(),
            quoted_rest(cs@, p as int) == match quoted_rest(cs@, i as int) {
                Some((v, e)) => Some((acc@ + v, e)),
                None => None,
            },
        decreases cs.len() - i,
    {
        if cs[i] == '\\' && i + 1 < cs.len() && cs[i + 1] == '"' {
            let ghost before = acc@;
            push_char(&mut acc, '"');
            i = i + 2;
            proof {
                match quoted_rest(cs@, i as int) {
                    Some((v, e)) => {
                        assert(before + (seq!['"'] + v) =~= acc@ + v);
                    },
                    None => {},
                }
            }
        } else if cs[i] == '"' {
            assert(acc@ + Seq::<char>::empty() =~= acc@);
            proof {
                lemma_quoted_end(cs@, p as int);
            }
            return Some((acc, i + 1));
        } else {
            let ghost before = acc@;
            push_char(&mut acc, cs[i]);
            i = i + 1;
            proof {
                match quoted_rest(cs@, i as int) {
                    Some((v, e)) => {
                        assert(before + (seq![cs@[i - 1]] + v) =~= acc@ + v);
                    },
                    None => {},
                }
            }
        }
    }
    None
}

proof fn lemma_quoted_end(cs: Seq<char>, p: int)
    requires
        0 <= p,
    ensures
        match quoted_rest(cs, p) {
            Some((v, e)) => p < e <= cs.len(),
            None => true,
        },
    decreases cs.len() - p,
{
    if p < cs.len() {
        if cs[p] == '\\' && p + 1 < cs.len() && cs[p + 1] == '"' {
            lemma_quoted_end(cs, p + 2);
        } else if cs[p] != '"' {
            lemma_quoted_end(cs, p + 1);
        }
    }
}

fn scan_string_end(cs: &Vec<char>, p: usize) -> (r: usize)
    requires
        p <= cs@.len(),
    ensures
        r as int == string_end(cs@, p as int),
        p <= r <= cs@.len(),
{
    let mut i = p;
    while i < cs.len()
        invariant
            p <= i <= cs@.len(),
            string_end(cs@, p as int) == string_end(cs@, i as int),
        decreases cs.len() - i,
    {
        if cs[i] == '\\' && i + 1 < cs.len() {
            i = i + 2;
        } else if cs[i] == '"' {
            return i + 1;
        } else {
            i = i + 1;
        }
    }
    i
}

fn scan_json_end(cs: &Vec<char>, p: usize) -> (r: Option<usize>)
    requires
        p < cs@.len(),
        cs@[p as int] == '{',
    ensures
        match json_end(cs@, p as int, 0) {
            Some(e) => r == Some(e as usize) && p < e <= cs@.len(),
            None => r.is_none(),
        },
{
    let mut depth: usize = 0;
    let mut i = p;
    while i < cs.len()
        invariant
            p <= i <= cs@.len(),
            cs@[p as int] == '{',
            depth <= i - p,
            i > p ==> depth >= 1,
            json_end(cs@, p as int, 0) == json_end(cs@, i as int, depth as int),
        decreases cs.len() - i,
    {
        if cs[i] == '"' {
            let e = scan_string_end(cs, i + 1);
            i = e;
        } else if cs[i] == '{' {
            depth = depth + 1;
            i = i + 1;
        } else if cs[i] == '}' {
            depth = depth - 1;
            if depth == 0 {
                return Some(i + 1);
            }
            i = i + 1;
        } else {
            i = i + 1;
        }
    }
    None
}


fn key_of_range(cs: &Vec<char>, lo: usize, hi: usize) -> (r: Option<QualKey>)
    requires
        lo <= hi <= cs@.len(),
    ensures
        r == key_of(cs@.subrange(lo as int, hi as int)),
{
    if range_is(cs, lo, hi, "type") {
        Some(QualKey::Type)
    } else if range_is(cs, lo, hi, "contract") {
        Some(QualKey::Contract)
    } else if range_is(cs, lo, hi, "topic") {
        Some(QualKey::Topic)
    } else if range_is(cs, lo, hi, "topic0") {
        Some(QualKey::TopicAt(0))
    } else if range_is(cs, lo, hi, "topic1") {
        Some(QualKey::TopicAt(1))
    } else if range_is(cs, lo, hi, "topic2") {
        Some(QualKey::TopicAt(2))
    } else if range_is(cs, lo, hi, "topic3") {
        Some(QualKey::TopicAt(3))
    } else if range_is(cs, lo, hi, "ledger") {
        Some(QualKey::Ledger)
    } else if range_is(cs, lo, hi, "tx") {
        Some(QualKey::Tx)
    } else {
        None
    }
}

enum Step {
    Skip(usize),
    Emit(Token, usize),
    Fail(QueryParseErrorKind, usize),
}

fn plain(kind: TokenKind, start: usize, end: usize) -> (t: Token)
    ensures
        t@ == plain_token(kind, start as int, end as int),
{
    Token { kind, key: QualKey::Type, value: String::new(), start, end }
}

fn next_step(cs: &Vec<char>, p: usize) -> (r: Step)
    requires
        p < cs@.len(),
    ensures
        match (r, lex_step(cs@, p as int)) {
            (Step::Skip(n), LexStep::Skip(m)) => n == m && p < n <= cs@.len(),
            (Step::Emit(t, n), LexStep::Emit(u, m)) => t@ == u && n == m && p < n <= cs@.len(),
            (Step::Fail(k, q), LexStep::Fail(l, m)) => k == l && q == m,
            _ => false,
        },
{
    let len = cs.len();
    let c = cs[p];
    if is_blank_char(c) {
        return Step::Skip(p + 1);
    }
    if c == '(' {
        return Step::Emit(plain(TokenKind::LParen, p, p + 1), p + 1);
    }
    if c == ')' {
        return Step::Emit(plain(TokenKind::RParen, p, p + 1), p + 1);
    }
    if p + 1 < len && c == 'O' && cs[p + 1] == 'R' && (p + 2 == len || is_blank_char(cs[p + 2])
        || cs[p + 2] == ')') {
        return Step::Emit(plain(TokenKind::Or, p, p + 2), p + 2);
    }
    let ke = scan_key_end(cs, p);
    if ke >= len || cs[ke] != ':' {
        return Step::Fail(QueryParseErrorKind::UnexpectedToken, p);
    }
    let key = match key_of_range(cs, p, ke) {
        Some(k) => k,
        None => return Step::Fail(QueryParseErrorKind::UnknownKey, p),
    };
    let vp = ke + 1;
    if vp >= len || is_blank_char(cs[vp]) || cs[vp] == ')' || cs[vp] == '(' {
        return Step::Fail(QueryParseErrorKind::MissingValue, if vp >= len { len } else { vp });
    }
    if cs[vp] == '"' {
        match scan_quoted(cs, vp + 1) {
            None => Step::Fail(QueryParseErrorKind::UnbalancedQuotes, vp),
            Some((v, e)) => Step::Emit(
                Token { kind: TokenKind::Qualifier, key, value: v, start: p, end: e },
                e,
            ),
        }
    } else if cs[vp] == '{' {
        match scan_json_end(cs, vp) {
            None => Step::Fail(QueryParseErrorKind::UnbalancedBraces, vp),
            Some(e) => {
                let v = string_of_range(cs, vp, e);
                Step::Emit(Token { kind: TokenKind::Qualifier, key, value: v, start: p, end: e }, e)
            },
        }
    } else {
        let e = scan_bare_end(cs, vp);
        let v = string_of_range(cs, vp, e);
        Step::Emit(Token { kind: TokenKind::Qualifier, key, value: v, start: p, end: e }, e)
    }
}

/// The view of a token list.
pub open spec fn tokens_view(ts: Seq<Token>) -> Seq<TokenSpec> {
    ts.map_values(|t: Token| t@)
}

/// Split a query into tokens, or report the first lexical error with its position.
fn tokenize(cs: &Vec<char>) -> (r: Result<Vec<Token>, (QueryParseErrorKind, usize)>)
    ensures
        match (r, lex(cs@, 0)) {
            (Ok(ts), Ok(u)) => tokens_view(ts@) == u,
            (Err((k, q)), Err((l, m))) => k == l && q == m,
            _ => false,
        },
{
    let mut tokens: Vec<Token> = Vec::new();
    let mut pos: usize = 0;
    while pos < cs.len()
        invariant
            pos <= cs@.len(),
            lex(cs@, 0) == match lex(cs@, pos as int) {
                Ok(u) => Ok(tokens_view(tokens@) + u),
                Err(e) => Err(e),
            },
        decreases cs.len() - pos,
    {
        match next_step(cs, pos) {
            Step::Skip(n) => {
                pos = n;
            },
            Step::Emit(t, n) => {
                let ghost before = tokens_view(tokens@);
                let ghost tv = t@;
                tokens.push(t);
                proof {
                    assert(tokens_view(tokens@) =~= before.push(tv));
                    match lex(cs@, n as int) {
                        Ok(u) => {
                            assert(before + (seq![tv] + u) =~= before.push(tv) + u);
                        },
                        Err(e) => {},
                    }
                }
                pos = n;
            },
            Step::Fail(k, q) => {
                return Err((k, q));
            },
        }
    }
    assert(tokens_view(tokens@) + Seq::<TokenSpec>::empty() =~= tokens_view(tokens@));
    Ok(tokens)
}


/// A qualifier as the specification sees it: key, raw value, and start position.
pub struct QualSpec {
    pub key: QualKey,
    pub value: Seq<char>,
    pub position: int,
}

/// A `key:value` qualifier of a conjunction.
pub struct Qual {
    pub key: QualKey,
    pub value: String,
    pub position: usize,
}

impl View for Qual {
    type V = QualSpec;

    open spec fn view(&self) -> QualSpec {
        QualSpec { key: self.key, value: self.value@, position: self.position as int }
    }
}

/// The qualifier a token carries.
pub open spec fn qual_of(t: TokenSpec) -> QualSpec {
    QualSpec { key: t.key, value: t.value, position: t.start }
}

/// A conjunction of qualifiers.
pub type Group = Seq<QualSpec>;

/// A disjunction of conjunctions.
pub type Dnf = Seq<Group>;

/// The conjunction of two disjunctive normal forms, distributed: every group of
/// `a` joined with every group of `b`, the groups of `a` varying slowest.
pub open spec fn product(a: Dnf, b: Dnf) -> Dnf
    decreases a.len(),
{
    if a.len() == 0 {
        Seq::empty()
    } else {
        product(a.drop_last(), b) + b.map_values(|y: Group| a.last() + y)
    }
}

/// A parse result: the normal form and the position after it, or a rejection.
pub type ParseResult = Result<(Dnf, int), (QueryParseErrorKind, int)>;

/// `atom := qualifier | '(' or_expr ')'`, at `pos`, inside `depth` parentheses.
/// In these parse functions a successful parse always advances; the guards on
/// the returned position only make termination evident.
pub open spec fn parse_atom_spec(ts: Seq<TokenSpec>, pos: int, depth: int) -> ParseResult
    decreases ts.len() - pos, 0int,
{
    if pos < 0 || pos >= ts.len() {
        Err((QueryParseErrorKind::UnexpectedToken, if ts.len() == 0 { 0 } else { ts.last().start }))
    } else {
        let t = ts[pos];
        match t.kind {
            TokenKind::LParen => if depth + 1 > MAX_NESTING_DEPTH {
                Err((QueryParseErrorKind::NestingTooDeep, t.start))
            } else if pos + 1 < ts.len() && ts[pos + 1].kind == TokenKind::RParen {
                Err((QueryParseErrorKind::UnexpectedToken, ts[pos + 1].start))
            } else {
                match parse_or_spec(ts, pos + 1, depth + 1) {
                    Err(e) => Err(e),
                    Ok((d, p)) => if 0 <= p < ts.len() && ts[p].kind == TokenKind::RParen {
                        Ok((d, p + 1))
                    } else {
                        Err((QueryParseErrorKind::UnbalancedParens, t.start))
                    },
                }
            },
            TokenKind::Qualifier => Ok((seq![seq![qual_of(t)]], pos + 1)),
            TokenKind::Or => Err((QueryParseErrorKind::UnexpectedToken, t.start)),
            TokenKind::RParen => Err((QueryParseErrorKind::UnbalancedParens, t.start)),
        }
    }
}

/// The atoms that follow the first one of a conjunction, from `p`.
pub open spec fn parse_and_rest(ts: Seq<TokenSpec>, p: int, depth: int, acc: Dnf) -> ParseResult
    decreases ts.len() - p, 1int,
{
    if 0 <= p < ts.len() && ts[p].kind != TokenKind::Or && ts[p].kind != TokenKind::RParen {
        match parse_atom_spec(ts, p, depth) {
            Err(e) => Err(e),
            Ok((d, q)) => if p < q <= ts.len() {
                parse_and_rest(ts, q, depth, product(acc, d))
            } else {
                Err((QueryParseErrorKind::UnexpectedToken, p))
            },
        }
    } else {
        Ok((acc, p))
    }
}

/// `and_expr := atom atom*`.
pub open spec fn parse_and_spec(ts: Seq<TokenSpec>, pos: int, depth: int) -> ParseResult
    decreases ts.len() - pos, 1int,
{
    match parse_atom_spec(ts, pos, depth) {
        Err(e) => Err(e),
        Ok((d, p)) => if pos < p <= ts.len() {
            parse_and_rest(ts, p, depth, d)
        } else {
            Err((QueryParseErrorKind::UnexpectedToken, pos))
        },
    }
}

/// The `OR and_expr` continuations of a disjunction, from `p`.
pub open spec fn parse_or_rest(ts: Seq<TokenSpec>, p: int, depth: int, acc: Dnf) -> ParseResult
    decreases ts.len() - p, 2int,
{
    if 0 <= p < ts.len() && ts[p].kind == TokenKind::Or {
        if p + 1 >= ts.len() {
            Err((QueryParseErrorKind::UnexpectedToken, ts[p].start))
        } else {
            match parse_and_spec(ts, p + 1, depth) {
                Err(e) => Err(e),
                Ok((d, q)) => if p + 1 < q <= ts.len() {
                    parse_or_rest(ts, q, depth, acc + d)
                } else {
                    Err((QueryParseErrorKind::UnexpectedToken, p))
                },
            }
        }
    } else {
        Ok((acc, p))
    }
}

/// `or_expr := and_expr ('OR' and_expr)*`.
pub open spec fn parse_or_spec(ts: Seq<TokenSpec>, pos: int, depth: int) -> ParseResult
    decreases ts.len() - pos, 2int,
{
    match parse_and_spec(ts, pos, depth) {
        Err(e) => Err(e),
        Ok((d, p)) => if pos < p <= ts.len() {
            parse_or_rest(ts, p, depth, d)
        } else {
            Err((QueryParseErrorKind::UnexpectedToken, pos))
        },
    }
}

/// The view of a group of qualifiers.
pub open spec fn group_view(g: Seq<Qual>) -> Group {
    g.map_values(|q: Qual| q@)
}

/// The view of a normal form.
pub open spec fn dnf_view(d: Seq<Vec<Qual>>) -> Dnf {
    d.map_values(|g: Vec<Qual>| group_view(g@))
}

/// The view of an executable parse result.
pub open spec fn result_view(r: Result<(Vec<Vec<Qual>>, usize), (QueryParseErrorKind, usize)>) -> ParseResult {
    match r {
        Ok((d, p)) => Ok((dnf_view(d@), p as int)),
        Err((k, q)) => Err((k, q as int)),
    }
}

fn clone_qual(q: &Qual) -> (r: Qual)
    ensures
        r@ == q@,
{
    Qual { key: q.key, value: q.value.clone(), position: q.position }
}

fn join_groups(x: &Vec<Qual>, y: &Vec<Qual>) -> (r: Vec<Qual>)
    ensures
        group_view(r@) == group_view(x@) + group_view(y@),
{
    let mut r: Vec<Qual> = Vec::new();
    let mut i: usize = 0;
    while i < x.len()
        invariant
            i <= x@.len(),
            group_view(r@) == group_view(x@).take(i as int),
        decreases x.len() - i,
    {
        let q = clone_qual(&x[i]);
        let ghost before = r@;
        r.push(q);
        proof {
            assert(group_view(r@) =~= group_view(before).push(q@));
        }
        i = i + 1;
        assert(group_view(r@) =~= group_view(x@).take(i as int));
    }
    let mut j: usize = 0;
    while j < y.len()
        invariant
            j <= y@.len(),
            i == x@.len(),
            group_view(r@) == group_view(x@) + group_view(y@).take(j as int),
        decreases y.len() - j,
    {
        let q = clone_qual(&y[j]);
        let ghost before = r@;
        r.push(q);
        proof {
            assert(group_view(r@) =~= group_view(before).push(q@));
        }
        j = j + 1;
        assert(group_view(r@) =~= group_view(x@) + group_view(y@).take(j as int));
    }
    assert(group_view(y@).take(j as int) =~= group_view(y@));
    assert(group_view(x@).take(i as int) =~= group_view(x@));
    r
}

/// Distribute AND over OR: the conjunction of two normal forms.
fn distribute_and(a: &Vec<Vec<Qual>>, b: &Vec<Vec<Qual>>) -> (r: Vec<Vec<Qual>>)
    ensures
        dnf_view(r@) == product(dnf_view(a@), dnf_view(b@)),
{
    let ghost av = dnf_view(a@);
    let ghost bv = dnf_view(b@);
    let mut r: Vec<Vec<Qual>> = Vec::new();
    let mut i: usize = 0;
    while i < a.len()
        invariant
            i <= a@.len(),
            av == dnf_view(a@),
            bv == dnf_view(b@),
            dnf_view(r@) == product(av.take(i as int), bv),
        decreases a.len() - i,
    {
        let ghost base = dnf_view(r@);
        let mut j: usize = 0;
        while j < b.len()
            invariant
                i < a@.len(),
                j <= b@.len(),
                av == dnf_view(a@),
                bv == dnf_view(b@),
                dnf_view(r@) == base + bv.take(j as int).map_values(|y: Group| av[i as int] + y),
            decreases b.len() - j,
        {
            let g = join_groups(&a[i], &b[j]);
            let ghost before = r@;
            let ghost gv = group_view(g@);
            r.push(g);
            proof {
                assert(dnf_view(r@) =~= dnf_view(before).push(gv));
                assert(bv.take(j + 1).map_values(|y: Group| av[i as int] + y) =~= bv.take(
                    j as int,
                ).map_values(|y: Group| av[i as int] + y).push(av[i as int] + bv[j as int]));
            }
            j = j + 1;
            assert(dnf_view(r@) =~= base + bv.take(j as int).map_values(
                |y: Group| av[i as int] + y,
            ));
        }
        i = i + 1;
        proof {
            assert(av.take(i as int).drop_last() =~= av.take(i - 1));
            assert(bv.take(j as int) =~= bv);
            assert(dnf_view(r@) =~= product(av.take(i as int), bv));
        }
    }
    assert(av.take(i as int) =~= av);
    r
}


/// Parse one atom at `pos`.
fn parse_atom(ts: &Vec<Token>, pos: usize, depth: usize) -> (r: Result<(Vec<Vec<Qual>>, usize), (QueryParseErrorKind, usize)>)
    requires
        depth <= MAX_NESTING_DEPTH,
    ensures
        result_view(r) == parse_atom_spec(tokens_view(ts@), pos as int, depth as int),
        r matches Ok((_, p)) ==> pos < p <= ts@.len(),
    decreases ts@.len() - pos, 0int,
{
    let ghost tv = tokens_view(ts@);
    if pos >= ts.len() {
        let q = if ts.len() == 0 { 0 } else { ts[ts.len() - 1].start };
        return Err((QueryParseErrorKind::UnexpectedToken, q));
    }
    let t = &ts[pos];
    assert(tv[pos as int] == t@);
    match t.kind {
        TokenKind::LParen => {
            if depth + 1 > MAX_NESTING_DEPTH {
                return Err((QueryParseErrorKind::NestingTooDeep, t.start));
            }
            if pos + 1 < ts.len() && ts[pos + 1].kind == TokenKind::RParen {
                assert(tv[pos + 1] == ts@[pos + 1]@);
                return Err((QueryParseErrorKind::UnexpectedToken, ts[pos + 1].start));
            }
            match parse_or(ts, pos + 1, depth + 1) {
                Err(e) => Err(e),
                Ok((d, p)) => {
                    if p < ts.len() && ts[p].kind == TokenKind::RParen {
                        assert(tv[p as int] == ts@[p as int]@);
                        Ok((d, p + 1))
                    } else {
                        proof {
                            if p < ts.len() {
                                assert(tv[p as int] == ts@[p as int]@);
                            }
                        }
                        Err((QueryParseErrorKind::UnbalancedParens, t.start))
                    }
                },
            }
        },
        TokenKind::Qualifier => {
            let q = Qual { key: t.key, value: t.value.clone(), position: t.start };
            let mut g: Vec<Qual> = Vec::new();
            g.push(q);
            let mut d: Vec<Vec<Qual>> = Vec::new();
            d.push(g);
            proof {
                assert(group_view(g@) =~= seq![qual_of(tv[pos as int])]);
                assert(dnf_view(d@) =~= seq![seq![qual_of(tv[pos as int])]]);
            }
            Ok((d, pos + 1))
        },
        TokenKind::Or => Err((QueryParseErrorKind::UnexpectedToken, t.start)),
        TokenKind::RParen => Err((QueryParseErrorKind::UnbalancedParens, t.start)),
    }
}

/// Parse a conjunction of atoms at `pos`.
fn parse_and(ts: &Vec<Token>, pos: usize, depth: usize) -> (r: Result<(Vec<Vec<Qual>>, usize), (QueryParseErrorKind, usize)>)
    requires
        depth <= MAX_NESTING_DEPTH,
    ensures
        result_view(r) == parse_and_spec(tokens_view(ts@), pos as int, depth as int),
        r matches Ok((_, p)) ==> pos < p <= ts@.len(),
    decreases ts@.len() - pos, 1int,
{
    let ghost tv = tokens_view(ts@);
    let (mut acc, mut p) = match parse_atom(ts, pos, depth) {
        Err(e) => return Err(e),
        Ok(x) => x,
    };
    while p < ts.len() && ts[p].kind != TokenKind::Or && ts[p].kind != TokenKind::RParen
        invariant
            depth <= MAX_NESTING_DEPTH,
            tv == tokens_view(ts@),
            pos < p <= ts@.len(),
            parse_and_spec(tv, pos as int, depth as int) == parse_and_rest(tv, p as int, depth as int, dnf_view(acc@)),
        decreases ts@.len() - p,
    {
        assert(tv[p as int] == ts@[p as int]@);
        match parse_atom(ts, p, depth) {
            Err(e) => return Err(e),
            Ok((d, q)) => {
                acc = distribute_and(&acc, &d);
                p = q;
            },
        }
    }
    proof {
        if p < ts.len() {
            assert(tv[p as int] == ts@[p as int]@);
        }
    }
    Ok((acc, p))
}

/// Parse a disjunction of conjunctions at `pos`.
fn parse_or(ts: &Vec<Token>, pos: usize, depth: usize) -> (r: Result<(Vec<Vec<Qual>>, usize), (QueryParseErrorKind, usize)>)
    requires
        depth <= MAX_NESTING_DEPTH,
    ensures
        result_view(r) == parse_or_spec(tokens_view(ts@), pos as int, depth as int),
        r matches Ok((_, p)) ==> pos < p <= ts@.len(),
    decreases ts@.len() - pos, 2int,
{
    let ghost tv = tokens_view(ts@);
    let (mut acc, mut p) = match parse_and(ts, pos, depth) {
        Err(e) => return Err(e),
        Ok(x) => x,
    };
    while p < ts.len() && ts[p].kind == TokenKind::Or
        invariant
            depth <= MAX_NESTING_DEPTH,
            tv == tokens_view(ts@),
            pos < p <= ts@.len(),
            parse_or_spec(tv, pos as int, depth as int) == parse_or_rest(tv, p as int, depth as int, dnf_view(acc@)),
        decreases ts@.len() - p,
    {
        assert(tv[p as int] == ts@[p as int]@);
        if p + 1 >= ts.len() {
            return Err((QueryParseErrorKind::UnexpectedToken, ts[p].start));
        }
        match parse_and(ts, p + 1, depth) {
            Err(e) => return Err(e),
            Ok((mut d, q)) => {
                let ghost a0 = dnf_view(acc@);
                let ghost d0 = dnf_view(d@);
                acc.append(&mut d);
                assert(dnf_view(acc@) =~= a0 + d0);
                p = q;
            },
        }
    }
    proof {
        if p < ts.len() {
            assert(tv[p as int] == ts@[p as int]@);
        }
    }
    Ok((acc, p))
}


/// The JSON value written in `s`, as serde_json's compact writer spells it;
/// `None` when `s` is not one JSON value.
pub uninterp spec fn json_text(s: Seq<char>) -> Option<Seq<char>>;

/// Relies on `serde_json::from_str::<serde_json::Value>`: it accepts exactly the
/// texts that hold one JSON value; the parsed value is written back with `to_string`.
#[verifier::external_body]
fn canonical_json(s: &str) -> (r: Option<String>)
    ensures
        match r {
            Some(t) => json_text(s@) == Some(t@),
            None => json_text(s@).is_none(),
        },
{
    serde_json::from_str::<serde_json::Value>(s).ok().map(|v| v.to_string())
}

/// A JSON value paired with its written-back form.
pub type JsonPair = (Seq<char>, Seq<char>);

/// What a conjunction has gathered so far.
pub struct GroupState {
    pub event_type: Option<Seq<char>>,
    pub contract: Option<Seq<char>>,
    pub ledger: Option<u32>,
    pub tx: Option<(Seq<char>, int)>,
    pub topics: Seq<Option<JsonPair>>,
    pub any: Seq<JsonPair>,
}

/// The state of an empty conjunction.
pub open spec fn empty_group_state() -> GroupState {
    GroupState {
        event_type: None,
        contract: None,
        ledger: None,
        tx: None,
        topics: seq![None, None, None, None],
        any: Seq::empty(),
    }
}

/// Whether a raw JSON text was already gathered as an any-position topic.
pub open spec fn any_has(any: Seq<JsonPair>, v: Seq<char>) -> bool {
    exists|k: int| 0 <= k < any.len() && (#[trigger] any[k]).0 == v
}

/// The merge rule for one qualifier.
pub open spec fn merge_qual(st: GroupState, q: QualSpec) -> Result<GroupState, (QueryParseErrorKind, int)> {
    match q.key {
        QualKey::Topic => match json_text(q.value) {
            None => Err((QueryParseErrorKind::InvalidValue, q.position)),
            Some(c) => if any_has(st.any, q.value) {
                Ok(st)
            } else {
                Ok(GroupState { any: st.any.push((q.value, c)), ..st })
            },
        },
        QualKey::Type => if type_from_name(q.value).is_none() {
            Err((QueryParseErrorKind::InvalidValue, q.position))
        } else {
            match st.event_type {
                Some(e) => if e == q.value {
                    Ok(st)
                } else {
                    Err((QueryParseErrorKind::ConflictingQualifiers, q.position))
                },
                None => Ok(GroupState { event_type: Some(q.value), ..st }),
            }
        },
        QualKey::Contract => match st.contract {
            Some(e) => if e == q.value {
                Ok(st)
            } else {
                Err((QueryParseErrorKind::ConflictingQualifiers, q.position))
            },
            None => Ok(GroupState { contract: Some(q.value), ..st }),
        },
        QualKey::Ledger => match parse_unsigned(q.value, 0xffff_ffff) {
            None => Err((QueryParseErrorKind::InvalidValue, q.position)),
            Some(n) => match st.ledger {
                Some(l) => if l == n {
                    Ok(st)
                } else {
                    Err((QueryParseErrorKind::ConflictingQualifiers, q.position))
                },
                None => Ok(GroupState { ledger: Some(n as u32), ..st }),
            },
        },
        QualKey::Tx => match st.tx {
            Some((e, _)) => if e == q.value {
                Ok(st)
            } else {
                Err((QueryParseErrorKind::ConflictingQualifiers, q.position))
            },
            None => Ok(GroupState { tx: Some((q.value, q.position)), ..st }),
        },
        QualKey::TopicAt(i) => match json_text(q.value) {
            None => Err((QueryParseErrorKind::InvalidValue, q.position)),
            Some(c) => if i >= 4 {
                Err((QueryParseErrorKind::UnknownKey, q.position))
            } else {
                match st.topics[i as int] {
                    Some((raw, _)) => if raw == q.value {
                        Ok(st)
                    } else {
                        Err((QueryParseErrorKind::DuplicateTopicPosition, q.position))
                    },
                    None => Ok(GroupState { topics: st.topics.update(i as int, Some((q.value, c))), ..st }),
                }
            },
        },
    }
}

/// The state after merging the first `k` qualifiers of a group, or the first rejection.
pub open spec fn merge_prefix(g: Group, k: int) -> Result<GroupState, (QueryParseErrorKind, int)>
    decreases k,
{
    if k <= 0 {
        Ok(empty_group_state())
    } else {
        match merge_prefix(g, k - 1) {
            Ok(st) => merge_qual(st, g[k - 1]),
            Err(e) => Err(e),
        }
    }
}

/// The JSON text `null`, the positional wildcard.
pub open spec fn null_text() -> Seq<char> {
    seq!['n', 'u', 'l', 'l']
}

/// The highest topic position set, or -1.
pub open spec fn last_topic(ts: Seq<Option<JsonPair>>) -> int {
    if ts[3].is_some() {
        3
    } else if ts[2].is_some() {
        2
    } else if ts[1].is_some() {
        1
    } else if ts[0].is_some() {
        0
    } else {
        -1
    }
}

/// Positional topics up to the highest set position, wildcards in the gaps.
pub open spec fn positional_topics(ts: Seq<Option<JsonPair>>) -> Option<Seq<Seq<char>>> {
    let m = last_topic(ts);
    if m < 0 {
        None
    } else {
        Some(Seq::new((m + 1) as nat, |i: int| match ts[i] {
            Some(p) => p.1,
            None => null_text(),
        }))
    }
}

/// The filter a group becomes: its merged state, provided `tx` comes with `ledger`.
pub open spec fn group_filter(g: Group) -> Result<FilterSpec, (QueryParseErrorKind, int)> {
    match merge_prefix(g, g.len() as int) {
        Err(e) => Err(e),
        Ok(st) => match st.tx {
            Some((_, p)) if st.ledger.is_none() => Err((QueryParseErrorKind::InvalidValue, p)),
            _ => Ok(
                FilterSpec {
                    contract_id: st.contract,
                    event_type: st.event_type,
                    topics: positional_topics(st.topics),
                    any_topics: if st.any.len() == 0 {
                        None
                    } else {
                        Some(st.any.map_values(|p: JsonPair| p.1))
                    },
                    ledger: st.ledger,
                    tx: match st.tx {
                        Some((t, _)) => Some(t),
                        None => None,
                    },
                },
            ),
        },
    }
}

/// The executable state of a conjunction being merged.
struct GroupAcc {
    event_type: Option<String>,
    contract: Option<String>,
    ledger: Option<u32>,
    tx: Option<(String, usize)>,
    t0: Option<(String, String)>,
    t1: Option<(String, String)>,
    t2: Option<(String, String)>,
    t3: Option<(String, String)>,
    any: Vec<(String, String)>,
}

/// The view of a JSON text pair.
pub open spec fn pair_view(p: (String, String)) -> JsonPair {
    (p.0@, p.1@)
}

/// The view of an optional JSON text pair.
pub open spec fn opt_pair_view(p: Option<(String, String)>) -> Option<JsonPair> {
    match p {
        Some(x) => Some(pair_view(x)),
        None => None,
    }
}

impl View for GroupAcc {
    type V = GroupState;

    closed spec fn view(&self) -> GroupState {
        GroupState {
            event_type: crate::db::opt_view(self.event_type),
            contract: crate::db::opt_view(self.contract),
            ledger: self.ledger,
            tx: match self.tx {
                Some((t, p)) => Some((t@, p as int)),
                None => None,
            },
            topics: seq![
                opt_pair_view(self.t0),
                opt_pair_view(self.t1),
                opt_pair_view(self.t2),
                opt_pair_view(self.t3),
            ],
            any: self.any@.map_values(|p: (String, String)| pair_view(p)),
        }
    }
}

fn clone_opt(s: &Option<String>) -> (r: Option<String>)
    ensures
        crate::db::opt_view(r) == crate::db::opt_view(*s),
{
    match s {
        Some(t) => Some(t.clone()),
        None => None,
    }
}

/// Merge one qualifier into a conjunction.
fn merge_one(acc: &mut GroupAcc, q: &Qual) -> (r: Result<(), (QueryParseErrorKind, usize)>)
    ensures
        match merge_qual(old(acc)@, q@) {
            Ok(st) => r is Ok && final(acc)@ == st,
            Err((k, p)) => r matches Err(e) && e.0 == k && e.1 as int == p,
        },
{
    let ghost st = acc@;
    match q.key {
        QualKey::Topic => {
            let c = match canonical_json(q.value.as_str()) {
                Some(c) => c,
                None => return Err((QueryParseErrorKind::InvalidValue, q.position)),
            };
            let mut k: usize = 0;
            while k < acc.any.len()
                invariant
                    k <= acc.any@.len(),
                    acc@ == st,
                    json_text(q@.value) == Some(c@),
                    q@.key == QualKey::Topic,
                    forall|j: int| 0 <= j < k ==> (#[trigger] acc@.any[j]).0 != q@.value,
                decreases acc.any.len() - k,
            {
                if acc.any[k].0 == q.value {
                    assert(acc@.any[k as int] == pair_view(acc.any@[k as int]));
                    assert(st.any[k as int].0 == q@.value);
                    assert(any_has(st.any, q@.value));
                    return Ok(());
                }
                k = k + 1;
            }
            assert(!any_has(st.any, q@.value));
            let ghost pv = (q@.value, c@);
            acc.any.push((q.value.clone(), c));
            assert(acc@.any =~= st.any.push(pv));
            Ok(())
        },
        QualKey::Type => {
            if EventType::from_name(q.value.as_str()).is_none() {
                return Err((QueryParseErrorKind::InvalidValue, q.position));
            }
            match &acc.event_type {
                Some(e) => {
                    if *e == q.value {
                        Ok(())
                    } else {
                        Err((QueryParseErrorKind::ConflictingQualifiers, q.position))
                    }
                },
                None => {
                    acc.event_type = Some(q.value.clone());
                    Ok(())
                },
            }
        },
        QualKey::Contract => {
            match &acc.contract {
                Some(e) => {
                    if *e == q.value {
                        Ok(())
                    } else {
                        Err((QueryParseErrorKind::ConflictingQualifiers, q.position))
                    }
                },
                None => {
                    acc.contract = Some(q.value.clone());
                    Ok(())
                },
            }
        },
        QualKey::Ledger => {
            let cs = chars_of(q.value.as_str());
            assert(cs@.subrange(0, cs@.len() as int) =~= q@.value);
            let n = match parse_unsigned_range(&cs, 0, cs.len(), 0xffff_ffff) {
                Some(n) => n,
                None => return Err((QueryParseErrorKind::InvalidValue, q.position)),
            };
            match acc.ledger {
                Some(l) => {
                    if l == n {
                        Ok(())
                    } else {
                        Err((QueryParseErrorKind::ConflictingQualifiers, q.position))
                    }
                },
                None => {
                    acc.ledger = Some(n);
                    Ok(())
                },
            }
        },
        QualKey::Tx => {
            match &acc.tx {
                Some((e, _)) => {
                    if *e == q.value {
                        Ok(())
                    } else {
                        Err((QueryParseErrorKind::ConflictingQualifiers, q.position))
                    }
                },
                None => {
                    acc.tx = Some((q.value.clone(), q.position));
                    Ok(())
                },
            }
        },
        QualKey::TopicAt(i) => {
            let c = match canonical_json(q.value.as_str()) {
                Some(c) => c,
                None => return Err((QueryParseErrorKind::InvalidValue, q.position)),
            };
            if i >= 4 {
                return Err((QueryParseErrorKind::UnknownKey, q.position));
            }
            let slot = if i == 0 {
                &acc.t0
            } else if i == 1 {
                &acc.t1
            } else if i == 2 {
                &acc.t2
            } else {
                &acc.t3
            };
            assert(opt_pair_view(*slot) == st.topics[i as int]);
            match slot {
                Some((raw, _)) => {
                    if *raw == q.value {
                        return Ok(());
                    } else {
                        return Err((QueryParseErrorKind::DuplicateTopicPosition, q.position));
                    }
                },
                None => {},
            }
            let v = Some((q.value.clone(), c));
            if i == 0 {
                acc.t0 = v;
            } else if i == 1 {
                acc.t1 = v;
            } else if i == 2 {
                acc.t2 = v;
            } else {
                acc.t3 = v;
            }
            assert(acc@.topics =~= st.topics.update(i as int, opt_pair_view(v)));
            Ok(())
        },
    }
}

/// Merge a conjunction of qualifiers into one filter.
fn and_group_to_filter(group: &Vec<Qual>) -> (r: Result<EventFilter, (QueryParseErrorKind, usize)>)
    ensures
        match group_filter(group_view(group@)) {
            Ok(f) => r matches Ok(x) && x@ == f,
            Err((k, p)) => r matches Err(e) && e.0 == k && e.1 as int == p,
        },
{
    let ghost g = group_view(group@);
    let mut acc = GroupAcc {
        event_type: None,
        contract: None,
        ledger: None,
        tx: None,
        t0: None,
        t1: None,
        t2: None,
        t3: None,
        any: Vec::new(),
    };
    assert(acc@.any =~= Seq::<JsonPair>::empty());
    assert(acc@ == empty_group_state());
    let mut i: usize = 0;
    while i < group.len()
        invariant
            i <= group@.len(),
            g == group_view(group@),
            merge_prefix(g, i as int) == Ok::<GroupState, (QueryParseErrorKind, int)>(acc@),
        decreases group.len() - i,
    {
        assert(g[i as int] == group@[i as int]@);
        let ghost before = acc@;
        match merge_one(&mut acc, &group[i]) {
            Ok(()) => {},
            Err(e) => {
                proof {
                    assert(merge_prefix(g, i + 1) == merge_qual(before, g[i as int]));
                    lemma_merge_error_sticks(g, i + 1, g.len() as int);
                }
                return Err(e);
            },
        }
        i = i + 1;
    }
    match &acc.tx {
        Some((_, p)) => {
            if acc.ledger.is_none() {
                return Err((QueryParseErrorKind::InvalidValue, *p));
            }
        },
        None => {},
    }
    let ghost st = acc@;
    let topics = if acc.t3.is_some() || acc.t2.is_some() || acc.t1.is_some() || acc.t0.is_some() {
        let m: usize = if acc.t3.is_some() {
            3
        } else if acc.t2.is_some() {
            2
        } else if acc.t1.is_some() {
            1
        } else {
            0
        };
        let mut v: Vec<String> = Vec::new();
        let mut k: usize = 0;
        while k <= m
            invariant
                k <= m + 1,
                m as int == last_topic(st.topics),
                st == acc@,
                crate::db::strings_view(v@) == positional_topics(st.topics).unwrap().take(k as int),
            decreases m + 1 - k,
        {
            let slot = if k == 0 {
                &acc.t0
            } else if k == 1 {
                &acc.t1
            } else if k == 2 {
                &acc.t2
            } else {
                &acc.t3
            };
            assert(opt_pair_view(*slot) == st.topics[k as int]);
            let text = match slot {
                Some((_, c)) => c.clone(),
                None => {
                    proof {
                        reveal_strlit("null");
                    }
                    let t = "null".to_string();
                    assert(t@ =~= null_text());
                    t
                },
            };
            let ghost before = v@;
            let ghost tv = text@;
            assert(tv == positional_topics(st.topics).unwrap()[k as int]);
            v.push(text);
            assert(crate::db::strings_view(v@) =~= crate::db::strings_view(before).push(tv));
            k = k + 1;
            assert(crate::db::strings_view(v@) =~= positional_topics(st.topics).unwrap().take(k as int));
        }
        assert(positional_topics(st.topics).unwrap().take(k as int) =~= positional_topics(st.topics).unwrap());
        Some(v)
    } else {
        None
    };
    let any_topics = if acc.any.len() == 0 {
        None
    } else {
        let mut v: Vec<String> = Vec::new();
        let mut k: usize = 0;
        while k < acc.any.len()
            invariant
                k <= acc.any@.len(),
                st == acc@,
                crate::db::strings_view(v@) == st.any.map_values(|p: JsonPair| p.1).take(k as int),
            decreases acc.any.len() - k,
        {
            let t = acc.any[k].1.clone();
            let ghost before = v@;
            assert(acc@.any[k as int] == pair_view(acc.any@[k as int]));
            assert(t@ == st.any.map_values(|p: JsonPair| p.1)[k as int]);
            v.push(t);
            assert(crate::db::strings_view(v@) =~= crate::db::strings_view(before).push(t@));
            k = k + 1;
            assert(crate::db::strings_view(v@) =~= st.any.map_values(|p: JsonPair| p.1).take(k as int));
        }
        assert(st.any.map_values(|p: JsonPair| p.1).take(k as int) =~= st.any.map_values(|p: JsonPair| p.1));
        Some(v)
    };
    let tx = match &acc.tx {
        Some((t, _)) => Some(t.clone()),
        None => None,
    };
    let f = EventFilter {
        contract_id: clone_opt(&acc.contract),
        event_type: clone_opt(&acc.event_type),
        topics,
        any_topics,
        ledger: acc.ledger,
        tx,
    };
    Ok(f)
}

/// Once a group is rejected, the normal form is rejected the same way.
proof fn lemma_filters_error_sticks(d: Dnf, k: int, n: int)
    requires
        1 <= k <= n <= d.len(),
        filters_of(d.take(k)).is_err(),
    ensures
        filters_of(d.take(n)) == filters_of(d.take(k)),
    decreases n - k,
{
    if k < n {
        lemma_filters_error_sticks(d, k, n - 1);
        assert(d.take(n).drop_last() =~= d.take(n - 1));
    }
}

/// Once a merge is rejected, longer prefixes are rejected the same way.
proof fn lemma_merge_error_sticks(g: Group, k: int, n: int)
    requires
        1 <= k <= n,
        merge_prefix(g, k).is_err(),
    ensures
        merge_prefix(g, n) == merge_prefix(g, k),
    decreases n - k,
{
    if k < n {
        lemma_merge_error_sticks(g, k, n - 1);
    }
}


/// Whether `c` has the Unicode `White_Space` property (what `str::trim` removes).
pub open spec fn is_unicode_space(c: char) -> bool {
    let u = c as u32;
    (0x09 <= u && u <= 0x0d) || u == 0x20 || u == 0x85 || u == 0xa0 || u == 0x1680 || (0x2000
        <= u && u <= 0x200a) || u == 0x2028 || u == 0x2029 || u == 0x202f || u == 0x205f || u
        == 0x3000
}

fn is_unicode_space_char(c: char) -> (r: bool)
    ensures
        r == is_unicode_space(c),
{
    let u = c as u32;
    (0x09 <= u && u <= 0x0d) || u == 0x20 || u == 0x85 || u == 0xa0 || u == 0x1680 || (0x2000
        <= u && u <= 0x200a) || u == 0x2028 || u == 0x2029 || u == 0x202f || u == 0x205f || u
        == 0x3000
}

/// The number of bytes UTF-8 takes for `c`.
pub open spec fn utf8_width(c: char) -> nat {
    let u = c as u32;
    if u < 0x80 {
        1
    } else if u < 0x800 {
        2
    } else if u < 0x1_0000 {
        3
    } else {
        4
    }
}

/// The byte offset of character index `k` in `cs`.
pub open spec fn byte_offset(cs: Seq<char>, k: int) -> nat
    decreases k,
{
    if k <= 0 || cs.len() == 0 {
        0
    } else if k > cs.len() {
        byte_offset(cs, cs.len() as int)
    } else {
        byte_offset(cs, k - 1) + utf8_width(cs[k - 1])
    }
}

/// The number of qualifier tokens.
pub open spec fn count_qualifiers(ts: Seq<TokenSpec>) -> nat
    decreases ts.len(),
{
    if ts.len() == 0 {
        0
    } else {
        count_qualifiers(ts.drop_last()) + if ts.last().kind == TokenKind::Qualifier {
            1nat
        } else {
            0nat
        }
    }
}

/// The filters of the groups of a normal form, in order, or the first rejection.
pub open spec fn filters_of(d: Dnf) -> Result<Seq<FilterSpec>, (QueryParseErrorKind, int)>
    decreases d.len(),
{
    if d.len() == 0 {
        Ok(Seq::empty())
    } else {
        match filters_of(d.drop_last()) {
            Err(e) => Err(e),
            Ok(fs) => match group_filter(d.last()) {
                Err(e) => Err(e),
                Ok(f) => Ok(fs.push(f)),
            },
        }
    }
}

/// What a query compiles to, with error positions as character indices.
/// `nbytes` is the byte length of the query.
pub open spec fn compile_query(cs: Seq<char>, nbytes: nat) -> Result<Seq<FilterSpec>, (QueryParseErrorKind, int)> {
    if nbytes > MAX_QUERY_LENGTH {
        Err((QueryParseErrorKind::QueryTooLong, 0))
    } else if forall|i: int| 0 <= i < cs.len() ==> is_unicode_space(#[trigger] cs[i]) {
        Err((QueryParseErrorKind::EmptyQuery, 0))
    } else {
        match lex(cs, 0) {
            Err(e) => Err(e),
            Ok(ts) => if ts.len() == 0 {
                Err((QueryParseErrorKind::EmptyQuery, 0))
            } else if count_qualifiers(ts) > MAX_QUERY_TERMS {
                Err((QueryParseErrorKind::TooManyTerms, 0))
            } else {
                match parse_or_spec(ts, 0, 0) {
                    Err(e) => Err(e),
                    Ok((d, p)) => if p < ts.len() {
                        Err((QueryParseErrorKind::UnexpectedToken, ts[p].start))
                    } else if d.len() > MAX_FILTERS {
                        Err((QueryParseErrorKind::TooManyFilters, 0))
                    } else {
                        filters_of(d)
                    },
                }
            },
        }
    }
}

/// The view of a list of filters.
pub open spec fn filters_view(v: Seq<EventFilter>) -> Seq<FilterSpec> {
    v.map_values(|f: EventFilter| f@)
}

fn to_byte_offset(cs: &Vec<char>, k: usize) -> (r: usize)
    requires
        cs@.len() <= MAX_QUERY_LENGTH,
    ensures
        r as nat == byte_offset(cs@, k as int),
{
    let end = if k > cs.len() { cs.len() } else { k };
    let mut total: usize = 0;
    let mut i: usize = 0;
    while i < end
        invariant
            i <= end <= cs@.len() <= MAX_QUERY_LENGTH,
            total as nat == byte_offset(cs@, i as int),
            total <= 4 * i,
        decreases end - i,
    {
        let u = cs[i] as u32;
        let w: usize = if u < 0x80 {
            1
        } else if u < 0x800 {
            2
        } else if u < 0x1_0000 {
            3
        } else {
            4
        };
        total = total + w;
        i = i + 1;
    }
    total
}

proof fn lemma_chars_within_bytes(s: Seq<char>)
    ensures
        s.len() <= vstd::utf8::encode_utf8(s).len(),
    decreases s.len(),
{
    if s.len() > 0 {
        lemma_chars_within_bytes(s.drop_first());
    }
}

/// The key-like word at character `p`: up to the next `:`, blank or parenthesis.
pub open spec fn key_word(cs: Seq<char>, p: int) -> Seq<char> {
    let s = if p < 0 { 0 } else if p > cs.len() { cs.len() as int } else { p };
    cs.subrange(s, key_end(cs, s))
}

/// The description of a rejection; `w` is the word at its position.
pub open spec fn error_message(k: QueryParseErrorKind, w: Seq<char>) -> Seq<char> {
    match k {
        QueryParseErrorKind::EmptyQuery => "query is empty"@,
        QueryParseErrorKind::UnknownKey => "unknown key '"@ + w + "' (expected: type, contract, topic, topic0..topic3, ledger, tx)"@,
        QueryParseErrorKind::MissingValue => "missing value for a key"@,
        QueryParseErrorKind::InvalidValue => if w == "tx"@ {
            "ledger is required when tx is provided"@
        } else {
            "invalid value for '"@ + w + "' in the query"@
        },
        QueryParseErrorKind::UnbalancedParens => "unbalanced parentheses"@,
        QueryParseErrorKind::UnexpectedToken => "unexpected token '"@ + w + "' (expected key:value qualifier, OR, or parenthesis)"@,
        QueryParseErrorKind::ConflictingQualifiers => "conflicting values for '"@ + w + "' (use OR to match several)"@,
        QueryParseErrorKind::DuplicateTopicPosition => "duplicate '"@ + w + "' in one filter group (use OR to match several)"@,
        QueryParseErrorKind::UnbalancedBraces => "unbalanced braces: missing a closing brace"@,
        QueryParseErrorKind::UnbalancedQuotes => "unbalanced quotes: missing a closing quote"@,
        QueryParseErrorKind::TooManyFilters => "query expands to more than 20 filters"@,
        QueryParseErrorKind::QueryTooLong => "query exceeds maximum length of 1024 bytes"@,
        QueryParseErrorKind::TooManyTerms => "query exceeds maximum of 20 terms"@,
        QueryParseErrorKind::NestingTooDeep => "query exceeds maximum nesting depth of 4"@,
    }
}

fn describe(k: QueryParseErrorKind, w: &str) -> (r: String)
    ensures
        r@ == error_message(k, w@),
{
    match k {
        QueryParseErrorKind::EmptyQuery => "query is empty".to_string(),
        QueryParseErrorKind::UnknownKey => concat3("unknown key '", w, "' (expected: type, contract, topic, topic0..topic3, ledger, tx)"),
        QueryParseErrorKind::MissingValue => "missing value for a key".to_string(),
        QueryParseErrorKind::InvalidValue => if str_eq(w, "tx") {
            "ledger is required when tx is provided".to_string()
        } else {
            concat3("invalid value for '", w, "' in the query")
        },
        QueryParseErrorKind::UnbalancedParens => "unbalanced parentheses".to_string(),
        QueryParseErrorKind::UnexpectedToken => concat3("unexpected token '", w, "' (expected key:value qualifier, OR, or parenthesis)"),
        QueryParseErrorKind::ConflictingQualifiers => concat3("conflicting values for '", w, "' (use OR to match several)"),
        QueryParseErrorKind::DuplicateTopicPosition => concat3("duplicate '", w, "' in one filter group (use OR to match several)"),
        QueryParseErrorKind::UnbalancedBraces => "unbalanced braces: missing a closing brace".to_string(),
        QueryParseErrorKind::UnbalancedQuotes => "unbalanced quotes: missing a closing quote".to_string(),
        QueryParseErrorKind::TooManyFilters => "query expands to more than 20 filters".to_string(),
        QueryParseErrorKind::QueryTooLong => "query exceeds maximum length of 1024 bytes".to_string(),
        QueryParseErrorKind::TooManyTerms => "query exceeds maximum of 20 terms".to_string(),
        QueryParseErrorKind::NestingTooDeep => "query exceeds maximum nesting depth of 4".to_string(),
    }
}

/// The rejection of kind `k` at character `p` of `cs`, with its byte offset and description.
fn reject(cs: &Vec<char>, k: QueryParseErrorKind, p: usize) -> (e: QueryParseError)
    requires
        cs@.len() <= MAX_QUERY_LENGTH,
    ensures
        e.kind == k,
        e.position as nat == byte_offset(cs@, p as int),
        e.message@ == error_message(k, key_word(cs@, p as int)),
{
    let s = if p > cs.len() { cs.len() } else { p };
    let end = scan_key_end(cs, s);
    let word = string_of_range(cs, s, end);
    let message = describe(k, word.as_str());
    QueryParseError { kind: k, message, position: to_byte_offset(cs, p) }
}

/// Compile a `q` query into its filters (OR'd), in the order of the
/// disjunctive normal form, or say why it is rejected and at which byte.
pub fn parse_query(input: &str) -> (r: Result<Vec<EventFilter>, QueryParseError>)
    ensures
        match compile_query(input@, vstd::utf8::encode_utf8(input@).len()) {
            Ok(fs) => r matches Ok(v) && filters_view(v@) == fs,
            Err((k, p)) => r matches Err(e) && e.kind == k && e.position as nat == byte_offset(input@, p)
                && e.message@ == error_message(k, key_word(input@, p)),
        },
{
    let nbytes = input.as_bytes().len();
    if nbytes > MAX_QUERY_LENGTH {
        let message = describe(QueryParseErrorKind::QueryTooLong, "");
        return Err(QueryParseError { kind: QueryParseErrorKind::QueryTooLong, message, position: 0 });
    }
    let cs = chars_of(input);
    let mut blank = true;
    let mut i: usize = 0;
    while i < cs.len()
        invariant
            i <= cs@.len(),
            cs@ == input@,
            vstd::utf8::encode_utf8(input@).len() <= MAX_QUERY_LENGTH,
            blank == forall|j: int| 0 <= j < i ==> is_unicode_space(#[trigger] cs@[j]),
        decreases cs.len() - i,
    {
        if !is_unicode_space_char(cs[i]) {
            blank = false;
        }
        i = i + 1;
    }
    proof {
        lemma_chars_within_bytes(input@);
    }
    if blank {
        return Err(reject(&cs, QueryParseErrorKind::EmptyQuery, 0));
    }
    let tokens = match tokenize(&cs) {
        Ok(t) => t,
        Err((k, q)) => {
            return Err(reject(&cs, k, q));
        },
    };
    let ghost tv = tokens_view(tokens@);
    if tokens.len() == 0 {
        return Err(reject(&cs, QueryParseErrorKind::EmptyQuery, 0));
    }
    let mut count: usize = 0;
    let mut j: usize = 0;
    while j < tokens.len()
        invariant
            j <= tokens@.len(),
            tv == tokens_view(tokens@),
            count as nat == count_qualifiers(tv.take(j as int)),
            count <= j,
        decreases tokens.len() - j,
    {
        assert(tv.take(j + 1).drop_last() =~= tv.take(j as int));
        assert(tv[j as int] == tokens@[j as int]@);
        if tokens[j].kind == TokenKind::Qualifier {
            count = count + 1;
        }
        j = j + 1;
    }
    assert(tv.take(j as int) =~= tv);
    if count > MAX_QUERY_TERMS {
        return Err(reject(&cs, QueryParseErrorKind::TooManyTerms, 0));
    }
    let (dnf, p) = match parse_or(&tokens, 0, 0) {
        Ok(x) => x,
        Err((k, q)) => {
            return Err(reject(&cs, k, q));
        },
    };
    if p < tokens.len() {
        assert(tv[p as int] == tokens@[p as int]@);
        return Err(reject(&cs, QueryParseErrorKind::UnexpectedToken, tokens[p].start));
    }
    if dnf.len() > MAX_FILTERS {
        return Err(reject(&cs, QueryParseErrorKind::TooManyFilters, 0));
    }
    let ghost dv = dnf_view(dnf@);
    let mut filters: Vec<EventFilter> = Vec::new();
    let mut g: usize = 0;
    assert(dv.take(0) =~= Seq::<Group>::empty());
    assert(compile_query(input@, vstd::utf8::encode_utf8(input@).len()) == filters_of(dv));
    assert(filters_view(filters@) =~= Seq::<FilterSpec>::empty());
    while g < dnf.len()
        invariant
            g <= dnf@.len(),
            dv == dnf_view(dnf@),
            cs@ == input@,
            compile_query(input@, vstd::utf8::encode_utf8(input@).len()) == filters_of(dv),
            cs@.len() <= MAX_QUERY_LENGTH,
            filters_of(dv.take(g as int)) == Ok::<Seq<FilterSpec>, (QueryParseErrorKind, int)>(filters_view(filters@)),
        decreases dnf.len() - g,
    {
        assert(dv.take(g + 1).drop_last() =~= dv.take(g as int));
        assert(dv[g as int] == group_view(dnf@[g as int]@));
        match and_group_to_filter(&dnf[g]) {
            Ok(f) => {
                let ghost before = filters@;
                filters.push(f);
                assert(filters_view(filters@) =~= filters_view(before).push(f@));
            },
            Err(e) => {
                proof {
                    assert(dv.take(g + 1).last() == dv[g as int]);
                    assert(filters_of(dv.take(g + 1)).is_err());
                    lemma_filters_error_sticks(dv, g + 1, dv.len() as int);
                    assert(dv.take(dv.len() as int) =~= dv);
                }
                return Err(reject(&cs, e.0, e.1));
            },
        }
        g = g + 1;
    }
    assert(dv.take(g as int) =~= dv);
    Ok(filters)
}


/// Whether a conjunction's state already holds what `q` asks for.
pub open spec fn recorded(st: GroupState, q: QualSpec) -> bool {
    match q.key {
        QualKey::Topic => json_text(q.value).is_some() && any_has(st.any, q.value),
        QualKey::Type => type_from_name(q.value).is_some() && st.event_type == Some(q.value),
        QualKey::Contract => st.contract == Some(q.value),
        QualKey::Ledger => match parse_unsigned(q.value, 0xffff_ffff) {
            Some(n) => st.ledger == Some(n as u32),
            None => false,
        },
        QualKey::Tx => match st.tx {
            Some((t, _)) => t == q.value,
            None => false,
        },
        QualKey::TopicAt(i) => json_text(q.value).is_some() && i < 4 && match st.topics[i as int] {
            Some((raw, _)) => raw == q.value,
            None => false,
        },
    }
}

proof fn lemma_merge_records(st: GroupState, q: QualSpec, p: QualSpec)
    requires
        st.topics.len() == 4,
        merge_qual(st, q) is Ok,
        recorded(st, p),
    ensures
        recorded(merge_qual(st, q)->Ok_0, q),
        recorded(merge_qual(st, q)->Ok_0, p),
        merge_qual(st, q)->Ok_0.topics.len() == 4,
{
    let n = merge_qual(st, q)->Ok_0;
    match q.key {
        QualKey::Topic => {
            if !any_has(st.any, q.value) {
                assert(n.any[st.any.len() as int].0 == q.value);
            }
            if p.key == QualKey::Topic {
                let k = choose|k: int| 0 <= k < st.any.len() && (#[trigger] st.any[k]).0 == p.value;
                assert(n.any[k].0 == p.value);
            }
        },
        _ => {},
    }
}

proof fn lemma_merge_records_fresh(st: GroupState, q: QualSpec)
    requires
        st.topics.len() == 4,
        merge_qual(st, q) is Ok,
    ensures
        recorded(merge_qual(st, q)->Ok_0, q),
        merge_qual(st, q)->Ok_0.topics.len() == 4,
{
    let n = merge_qual(st, q)->Ok_0;
    if q.key == QualKey::Topic && !any_has(st.any, q.value) {
        assert(n.any[st.any.len() as int].0 == q.value);
    }
}

proof fn lemma_prefix_records(g: Group, n: int, i: int)
    requires
        0 <= i < n <= g.len(),
        merge_prefix(g, n) is Ok,
    ensures
        recorded(merge_prefix(g, n)->Ok_0, g[i]),
        merge_prefix(g, n)->Ok_0.topics.len() == 4,
    decreases n,
{
    if n - 1 > 0 {
        assert(merge_prefix(g, n - 1) is Ok);
    }
    if i == n - 1 {
        lemma_prefix_len(g, n - 1);
        lemma_merge_records_fresh(merge_prefix(g, n - 1)->Ok_0, g[n - 1]);
    } else {
        lemma_prefix_records(g, n - 1, i);
        lemma_merge_records(merge_prefix(g, n - 1)->Ok_0, g[n - 1], g[i]);
    }
}

proof fn lemma_prefix_len(g: Group, n: int)
    requires
        0 <= n <= g.len(),
        merge_prefix(g, n) is Ok,
    ensures
        merge_prefix(g, n)->Ok_0.topics.len() == 4,
    decreases n,
{
    if n > 0 {
        assert(merge_prefix(g, n - 1) is Ok);
        lemma_prefix_len(g, n - 1);
        lemma_merge_records_fresh(merge_prefix(g, n - 1)->Ok_0, g[n - 1]);
    }
}

proof fn lemma_prefix_extend(g: Group, q: QualSpec, n: int)
    requires
        0 <= n <= g.len(),
    ensures
        merge_prefix(g.push(q), n) == merge_prefix(g, n),
    decreases n,
{
    if n > 0 {
        lemma_prefix_extend(g, q, n - 1);
        assert(g.push(q)[n - 1] == g[n - 1]);
    }
}

/// Repeating a qualifier that a conjunction already holds (same key and value,
/// anywhere in it) leaves the filter it becomes unchanged.
pub proof fn lemma_duplicate_qualifier(g: Group, i: int, q: QualSpec)
    requires
        0 <= i < g.len(),
        q.key == g[i].key,
        q.value == g[i].value,
        merge_prefix(g, g.len() as int) is Ok,
    ensures
        group_filter(g.push(q)) == group_filter(g),
{
    let n = g.len() as int;
    lemma_prefix_records(g, n, i);
    lemma_prefix_extend(g, q, n);
    let st = merge_prefix(g, n)->Ok_0;
    assert(recorded(st, q));
    assert(merge_qual(st, q) == Ok::<GroupState, (QueryParseErrorKind, int)>(st));
    assert(merge_prefix(g.push(q), n + 1) == merge_prefix(g, n));
}

/// Compiling a query is a function of its text: two parses of one query give equal filter lists.
pub proof fn lemma_compile_deterministic(q1: Seq<char>, n1: nat, q2: Seq<char>, n2: nat)
    requires
        q1 == q2,
        n1 == n2,
    ensures
        compile_query(q1, n1) == compile_query(q2, n2),
{
}

} // verus!
