//! The parser: from tokens to definitions.
//!
//! ```text
//! program    := definition*
//! definition := proc_def | const_def
//! proc_def   := "proc" IDENT type* ("--" type+)? "in" op* "end"
//! const_def  := "const" IDENT op* "end"
//! type       := "int"
//! op         := "+" | "-" | "*" | "divmod" | "idivmod" | "="
//!             | "drop" | "dup" | "print" | "swap"
//!             | "if" op* "end"
//!             | INTEGER_LITERAL | IDENT
//! ```
//!
//! A name is a piece of text that is neither one of the words above nor an
//! integer literal.
//!
//! A mistake in a body is recorded, and parsing goes on after the next
//! `end`; any other mistake is recorded and ends parsing. The result is the
//! definitions in source order where no mistake was made, and the mistakes
//! in source order otherwise.

use vstd::prelude::*;
pub use crate::ast::{Const, Definition, Operation, Proc, Type};
use crate::ast::{defs_view, ops_view, ConstView, DefView, OpView, ProcView};
use crate::lexer::{classify_all, classify_texts, texts_view, tokens_view, Token, TokenView};

verus! {

/// What the parser was looking for where it gave up.
#[derive(Debug, Clone, Copy, PartialEq, Eq, Structural)]
pub enum Expected {
    /// `proc` or `const`.
    Definition,
    /// The name of a definition.
    Name,
    /// `int`, `--` or `in`.
    Signature,
    /// `int`.
    Type,
    /// `int` or `in`.
    TypeOrIn,
    /// An operation or `end`.
    Operation,
}

/// A mistake in the source: where it is, the token found there (none at
/// the end of the input), and what could have stood there.
#[derive(Debug, PartialEq, Eq)]
pub struct ParseError {
    pub position: usize,
    pub found: Option<Token>,
    pub expected: Expected,
}

/// The mathematical value of a [`ParseError`].
pub struct ParseErrorView {
    pub position: int,
    pub found: Option<TokenView>,
    pub expected: Expected,
}

impl View for ParseError {
    type V = ParseErrorView;

    open spec fn view(&self) -> ParseErrorView {
        ParseErrorView {
            position: self.position as int,
            found: match self.found {
                Some(token) => Some(token@),
                None => None,
            },
            expected: self.expected,
        }
    }
}

/// The views of a sequence of mistakes.
pub open spec fn errors_view(errors: Seq<ParseError>) -> Seq<ParseErrorView> {
    Seq::new(errors.len(), |i: int| errors[i]@)
}

/// The token at a position, if there is one.
pub open spec fn token_at(tokens: Seq<TokenView>, position: int) -> Option<TokenView> {
    if 0 <= position < tokens.len() {
        Some(tokens[position])
    } else {
        None
    }
}

/// A mistake at a position.
pub open spec fn mistake(tokens: Seq<TokenView>, position: int, expected: Expected) -> ParseErrorView {
    ParseErrorView { position, found: token_at(tokens, position), expected }
}

/// The operation that a token is by itself, if it is one.
pub open spec fn simple_op(token: TokenView) -> Option<OpView> {
    match token {
        TokenView::Add => Some(OpView::Add),
        TokenView::Sub => Some(OpView::Sub),
        TokenView::Mul => Some(OpView::Mul),
        TokenView::DivMod => Some(OpView::DivMod),
        TokenView::IDivMod => Some(OpView::IDivMod),
        TokenView::Equal => Some(OpView::Equal),
        TokenView::Drop => Some(OpView::Drop),
        TokenView::Dup => Some(OpView::Dup),
        TokenView::Print => Some(OpView::Print),
        TokenView::Swap => Some(OpView::Swap),
        TokenView::Integer(n) => Some(OpView::Integer(n)),
        TokenView::Ident(name) => Some(OpView::Word(name)),
        _ => None,
    }
}

/// The operations from `position` up to the `end` that closes them,
/// appended to `done`, with the position of that `end`; or the first
/// mistake.
///
/// The `end` of a conditional's body always lies behind its `if`; the test
/// for that is there for the definition to be well founded.
pub open spec fn parse_body(tokens: Seq<TokenView>, position: int, done: Seq<OpView>) -> Result<
    (Seq<OpView>, int),
    ParseErrorView,
>
    decreases tokens.len() - position,
{
    if position < 0 || position >= tokens.len() {
        Err(mistake(tokens, position, Expected::Operation))
    } else {
        match tokens[position] {
            TokenView::End => Ok((done, position)),
            TokenView::If => match parse_body(tokens, position + 1, Seq::empty()) {
                Ok((body, end)) => if position < end < tokens.len() {
                    parse_body(tokens, end + 1, done.push(OpView::If(body)))
                } else {
                    Err(mistake(tokens, position, Expected::Operation))
                },
                Err(e) => Err(e),
            },
            token => match simple_op(token) {
                Some(op) => parse_body(tokens, position + 1, done.push(op)),
                None => Err(mistake(tokens, position, Expected::Operation)),
            },
        }
    }
}

/// The position of the first token from `position` on that is not `int`.
pub open spec fn skip_types(tokens: Seq<TokenView>, position: int) -> int
    decreases tokens.len() - position,
{
    if 0 <= position < tokens.len() && tokens[position] is Int {
        skip_types(tokens, position + 1)
    } else {
        position
    }
}

/// A list of `count` integer types.
pub open spec fn int_types(count: int) -> Seq<Type> {
    Seq::new(count as nat, |i: int| Type::Int)
}

/// The procedure whose `proc` stands at `position`, with the position
/// after its `end`; or the first mistake.
pub open spec fn parse_proc(tokens: Seq<TokenView>, position: int) -> Result<
    (ProcView, int),
    ParseErrorView,
> {
    match token_at(tokens, position + 1) {
        Some(TokenView::Ident(name)) => {
            let inputs_end = skip_types(tokens, position + 2);
            let inputs = int_types(inputs_end - (position + 2));
            match token_at(tokens, inputs_end) {
                Some(TokenView::Arrow) => {
                    let outputs_end = skip_types(tokens, inputs_end + 1);
                    let outputs = int_types(outputs_end - (inputs_end + 1));
                    if outputs_end == inputs_end + 1 {
                        Err(mistake(tokens, outputs_end, Expected::Type))
                    } else {
                        match token_at(tokens, outputs_end) {
                            Some(TokenView::In) => parse_proc_body(
                                tokens,
                                name,
                                inputs,
                                outputs,
                                outputs_end + 1,
                            ),
                            _ => Err(mistake(tokens, outputs_end, Expected::TypeOrIn)),
                        }
                    }
                },
                Some(TokenView::In) => parse_proc_body(
                    tokens,
                    name,
                    inputs,
                    Seq::empty(),
                    inputs_end + 1,
                ),
                _ => Err(mistake(tokens, inputs_end, Expected::Signature)),
            }
        },
        _ => Err(mistake(tokens, position + 1, Expected::Name)),
    }
}

/// The procedure of that name and signature whose body starts at
/// `position`.
pub open spec fn parse_proc_body(
    tokens: Seq<TokenView>,
    name: Seq<char>,
    inputs: Seq<Type>,
    outputs: Seq<Type>,
    position: int,
) -> Result<(ProcView, int), ParseErrorView> {
    match parse_body(tokens, position, Seq::empty()) {
        Ok((ops, end)) => Ok((ProcView { name, ops, inputs, outputs }, end + 1)),
        Err(e) => Err(e),
    }
}

/// The constant whose `const` stands at `position`, with the position
/// after its `end`; or the first mistake.
pub open spec fn parse_const(tokens: Seq<TokenView>, position: int) -> Result<
    (ConstView, int),
    ParseErrorView,
> {
    match token_at(tokens, position + 1) {
        Some(TokenView::Ident(name)) => match parse_body(tokens, position + 2, Seq::empty()) {
            Ok((ops, end)) => Ok((ConstView { name, ops }, end + 1)),
            Err(e) => Err(e),
        },
        _ => Err(mistake(tokens, position + 1, Expected::Name)),
    }
}

/// The definition that starts at `position`, with the position after its
/// `end`; or the first mistake.
pub open spec fn parse_definition(tokens: Seq<TokenView>, position: int) -> Result<
    (DefView, int),
    ParseErrorView,
> {
    match token_at(tokens, position) {
        Some(TokenView::Proc) => match parse_proc(tokens, position) {
            Ok((proc, next)) => Ok((DefView::Proc(proc), next)),
            Err(e) => Err(e),
        },
        Some(TokenView::Const) => match parse_const(tokens, position) {
            Ok((constant, next)) => Ok((DefView::Const(constant), next)),
            Err(e) => Err(e),
        },
        _ => Err(mistake(tokens, position, Expected::Definition)),
    }
}

/// The position of the first `end` from `position` on.
pub open spec fn next_end(tokens: Seq<TokenView>, position: int) -> Option<int>
    decreases tokens.len() - position,
{
    if position < 0 || position >= tokens.len() {
        None
    } else if tokens[position] is End {
        Some(position)
    } else {
        next_end(tokens, position + 1)
    }
}

/// The definitions and the mistakes from `position` on, appended to those
/// given. After a mistake in a body parsing goes on behind the next `end`;
/// after any other mistake, or where no `end` follows, it stops.
///
/// A definition always ends behind its start, and an `end` that is found
/// from a mistake on lies behind the start too; the tests for that are
/// there for the definition to be well founded.
pub open spec fn parse_from(
    tokens: Seq<TokenView>,
    position: int,
    defs: Seq<DefView>,
    errors: Seq<ParseErrorView>,
) -> (Seq<DefView>, Seq<ParseErrorView>)
    decreases tokens.len() - position,
{
    if position < 0 || position >= tokens.len() {
        (defs, errors)
    } else {
        match parse_definition(tokens, position) {
            Ok((def, next)) => if position < next <= tokens.len() {
                parse_from(tokens, next, defs.push(def), errors)
            } else {
                (defs.push(def), errors)
            },
            Err(e) => match next_end(tokens, e.position) {
                Some(end) => if e.expected == Expected::Operation && position <= end < tokens.len() {
                    parse_from(tokens, end + 1, defs, errors.push(e))
                } else {
                    (defs, errors.push(e))
                },
                None => (defs, errors.push(e)),
            },
        }
    }
}

/// The definitions that the tokens spell, in order, or the mistakes in
/// them, in order.
pub open spec fn parse_tokens(tokens: Seq<TokenView>) -> Result<Seq<DefView>, Seq<ParseErrorView>> {
    let (defs, errors) = parse_from(tokens, 0, Seq::empty(), Seq::empty());
    if errors.len() == 0 {
        Ok(defs)
    } else {
        Err(errors)
    }
}

/// The definitions that the texts spell, once each text is classified.
pub open spec fn parse_texts(texts: Seq<Seq<char>>) -> Result<Seq<DefView>, Seq<ParseErrorView>> {
    parse_tokens(classify_all(texts))
}

/// A copy of a token.
fn copy_token(token: &Token) -> (copy: Token)
    ensures
        copy@ == token@,
{
    match token {
        Token::Proc => Token::Proc,
        Token::Const => Token::Const,
        Token::In => Token::In,
        Token::End => Token::End,
        Token::Int => Token::Int,
        Token::Arrow => Token::Arrow,
        Token::If => Token::If,
        Token::Add => Token::Add,
        Token::Sub => Token::Sub,
        Token::Mul => Token::Mul,
        Token::DivMod => Token::DivMod,
        Token::IDivMod => Token::IDivMod,
        Token::Equal => Token::Equal,
        Token::Drop => Token::Drop,
        Token::Dup => Token::Dup,
        Token::Print => Token::Print,
        Token::Swap => Token::Swap,
        Token::Integer(n) => Token::Integer(*n),
        Token::Ident(name) => Token::Ident(name.clone()),
    }
}

/// A mistake at a position.
fn mistake_at(tokens: &Vec<Token>, position: usize, expected: Expected) -> (error: ParseError)
    ensures
        error@ == mistake(tokens_view(tokens@), position as int, expected),
{
    let found = if position < tokens.len() {
        Some(copy_token(&tokens[position]))
    } else {
        None
    };
    ParseError { position, found, expected }
}

/// The operation that a token is by itself, if it is one.
fn simple_operation(token: &Token) -> (op: Option<Operation>)
    ensures
        match simple_op(token@) {
            Some(view) => op matches Some(o) && o@ == view,
            None => op is None,
        },
{
    match token {
        Token::Add => Some(Operation::Add),
        Token::Sub => Some(Operation::Sub),
        Token::Mul => Some(Operation::Mul),
        Token::DivMod => Some(Operation::DivMod),
        Token::IDivMod => Some(Operation::IDivMod),
        Token::Equal => Some(Operation::Equal),
        Token::Drop => Some(Operation::Drop),
        Token::Dup => Some(Operation::Dup),
        Token::Print => Some(Operation::Print),
        Token::Swap => Some(Operation::Swap),
        Token::Integer(n) => Some(Operation::Integer(*n)),
        Token::Ident(name) => Some(Operation::Word(name.clone())),
        _ => None,
    }
}

/// Parses the operations of a body: those from `start` up to the `end`
/// that closes them. Returns them with the position of that `end`.
fn op_parser(tokens: &Vec<Token>, start: usize) -> (parsed: Result<(Vec<Operation>, usize), ParseError>)
    ensures
        match parse_body(tokens_view(tokens@), start as int, Seq::empty()) {
            Ok((ops, end)) => parsed matches Ok((o, e)) && ops_view(o@) == ops && e == end && start
                <= e < tokens@.len(),
            Err(m) => parsed matches Err(error) && error@ == m && start <= m.position,
        },
    decreases tokens@.len() - start,
{
    let ghost view = tokens_view(tokens@);
    let mut ops: Vec<Operation> = Vec::new();
    let mut i: usize = start;
    assert(ops_view(ops@) =~= Seq::empty());
    loop
        invariant
            start <= i,
            view == tokens_view(tokens@),
            parse_body(view, start as int, Seq::empty()) == parse_body(view, i as int, ops_view(ops@)),
        decreases tokens@.len() - i,
    {
        if i >= tokens.len() {
            return Err(mistake_at(tokens, i, Expected::Operation));
        }
        let ghost done = ops_view(ops@);
        match &tokens[i] {
            Token::End => {
                return Ok((ops, i));
            },
            Token::If => {
                match op_parser(tokens, i + 1) {
                    Ok((body, end)) => {
                        let ghost body_view = ops_view(body@);
                        ops.push(Operation::If(body));
                        assert(ops_view(ops@) =~= done.push(OpView::If(body_view)));
                        i = end + 1;
                    },
                    Err(e) => {
                        return Err(e);
                    },
                }
            },
            token => {
                match simple_operation(token) {
                    Some(op) => {
                        let ghost op_view = op@;
                        ops.push(op);
                        assert(ops_view(ops@) =~= done.push(op_view));
                        i += 1;
                    },
                    None => {
                        return Err(mistake_at(tokens, i, Expected::Operation));
                    },
                }
            },
        }
    }
}

/// Parses one type, if one stands at `position`.
fn type_parser(tokens: &Vec<Token>, position: usize) -> (parsed: Option<Type>)
    ensures
        parsed is Some <==> position < tokens@.len() && tokens_view(tokens@)[position as int] is Int,
{
    if position < tokens.len() {
        match &tokens[position] {
            Token::Int => Some(Type::Int),
            _ => None,
        }
    } else {
        None
    }
}

/// Parses as many types as stand from `start` on. Returns them with the
/// position behind them.
fn types_parser(tokens: &Vec<Token>, start: usize) -> (parsed: (Vec<Type>, usize))
    ensures
        parsed.1 == skip_types(tokens_view(tokens@), start as int),
        parsed.0@ == int_types(parsed.1 - start),
        start <= parsed.1,
        parsed.1 <= tokens@.len() || parsed.1 == start,
{
    let mut types: Vec<Type> = Vec::new();
    let mut i: usize = start;
    let len = tokens.len();
    assert(types@ =~= int_types(0));
    loop
        invariant
            len == tokens@.len(),
            start <= i,
            i <= tokens@.len() || i == start,
            types@ == int_types(i - start),
            skip_types(tokens_view(tokens@), start as int) == skip_types(
                tokens_view(tokens@),
                i as int,
            ),
        decreases tokens@.len() - i,
    {
        match type_parser(tokens, i) {
            Some(t) => {
                types.push(t);
                assert(types@ =~= int_types(i + 1 - start));
                i += 1;
            },
            None => {
                return (types, i);
            },
        }
    }
}

/// Parses the name of a definition, if one stands at `position`.
fn name_parser(tokens: &Vec<Token>, position: usize) -> (parsed: Result<String, ParseError>)
    ensures
        match token_at(tokens_view(tokens@), position as int) {
            Some(TokenView::Ident(name)) => parsed matches Ok(n) && n@ == name,
            _ => parsed matches Err(error) && error@ == mistake(
                tokens_view(tokens@),
                position as int,
                Expected::Name,
            ),
        },
{
    if position < tokens.len() {
        if let Token::Ident(name) = &tokens[position] {
            return Ok(name.clone());
        }
    }
    Err(mistake_at(tokens, position, Expected::Name))
}

/// Parses the procedure whose `proc` stands at `position`. Returns it with
/// the position behind its `end`.
fn proc_parser(tokens: &Vec<Token>, position: usize) -> (parsed: Result<(Proc, usize), ParseError>)
    requires
        position < tokens@.len(),
    ensures
        match parse_proc(tokens_view(tokens@), position as int) {
            Ok((proc, next)) => parsed matches Ok((p, n)) && p@ == proc && n == next && position
                < n <= tokens@.len(),
            Err(m) => parsed matches Err(error) && error@ == m && position <= m.position,
        },
{
    let len = tokens.len();
    let name = match name_parser(tokens, position + 1) {
        Ok(name) => name,
        Err(e) => {
            return Err(e);
        },
    };
    let (inputs, inputs_end) = types_parser(tokens, position + 2);
    let mut outputs: Vec<Type> = Vec::new();
    let mut body_start: usize = inputs_end;
    if inputs_end >= tokens.len() {
        return Err(mistake_at(tokens, inputs_end, Expected::Signature));
    }
    match &tokens[inputs_end] {
        Token::Arrow => {
            let (types, outputs_end) = types_parser(tokens, inputs_end + 1);
            if outputs_end == inputs_end + 1 {
                return Err(mistake_at(tokens, outputs_end, Expected::Type));
            }
            if outputs_end >= tokens.len() {
                return Err(mistake_at(tokens, outputs_end, Expected::TypeOrIn));
            }
            match &tokens[outputs_end] {
                Token::In => {
                    outputs = types;
                    body_start = outputs_end + 1;
                },
                _ => {
                    return Err(mistake_at(tokens, outputs_end, Expected::TypeOrIn));
                },
            }
        },
        Token::In => {
            body_start = inputs_end + 1;
        },
        _ => {
            return Err(mistake_at(tokens, inputs_end, Expected::Signature));
        },
    }
    match op_parser(tokens, body_start) {
        Ok((ops, end)) => Ok((Proc { name, ops, inputs, outputs }, end + 1)),
        Err(e) => Err(e),
    }
}

/// Parses the constant whose `const` stands at `position`. Returns it with
/// the position behind its `end`.
fn const_parser(tokens: &Vec<Token>, position: usize) -> (parsed: Result<(Const, usize), ParseError>)
    requires
        position < tokens@.len(),
    ensures
        match parse_const(tokens_view(tokens@), position as int) {
            Ok((constant, next)) => parsed matches Ok((c, n)) && c@ == constant && n == next
                && position < n <= tokens@.len(),
            Err(m) => parsed matches Err(error) && error@ == m && position <= m.position,
        },
{
    let len = tokens.len();
    let name = match name_parser(tokens, position + 1) {
        Ok(name) => name,
        Err(e) => {
            return Err(e);
        },
    };
    match op_parser(tokens, position + 2) {
        Ok((ops, end)) => Ok((Const { name, ops }, end + 1)),
        Err(e) => Err(e),
    }
}

/// Parses the definition that starts at `position`. Returns it with the
/// position behind its `end`.
fn definition_parser(tokens: &Vec<Token>, position: usize) -> (parsed: Result<
    (Definition, usize),
    ParseError,
>)
    requires
        position < tokens@.len(),
    ensures
        match parse_definition(tokens_view(tokens@), position as int) {
            Ok((def, next)) => parsed matches Ok((d, n)) && d@ == def && n == next && position < n
                <= tokens@.len(),
            Err(m) => parsed matches Err(error) && error@ == m && position <= m.position,
        },
{
    match &tokens[position] {
        Token::Proc => match proc_parser(tokens, position) {
            Ok((proc, next)) => Ok((Definition::Proc(proc), next)),
            Err(e) => Err(e),
        },
        Token::Const => match const_parser(tokens, position) {
            Ok((constant, next)) => Ok((Definition::Const(constant), next)),
            Err(e) => Err(e),
        },
        _ => Err(mistake_at(tokens, position, Expected::Definition)),
    }
}

/// The position of the first `end` from `position` on.
fn find_end(tokens: &Vec<Token>, position: usize) -> (found: Option<usize>)
    ensures
        match next_end(tokens_view(tokens@), position as int) {
            Some(end) => found == Some(end as usize) && position <= end < tokens@.len(),
            None => found is None,
        },
{
    let mut i: usize = position;
    while i < tokens.len()
        invariant
            position <= i,
            next_end(tokens_view(tokens@), position as int) == next_end(
                tokens_view(tokens@),
                i as int,
            ),
        decreases tokens@.len() - i,
    {
        if let Token::End = &tokens[i] {
            return Some(i);
        }
        i += 1;
    }
    None
}

/// Parses a program from its tokens: the definitions in source order, or,
/// where the tokens do not spell a program, the mistakes in source order.
pub fn token_parser(tokens: &Vec<Token>) -> (parsed: Result<Vec<Definition>, Vec<ParseError>>)
    ensures
        match parse_tokens(tokens_view(tokens@)) {
            Ok(defs) => parsed matches Ok(d) && defs_view(d@) == defs,
            Err(errors) => parsed matches Err(e) && errors_view(e@) == errors,
        },
{
    let ghost view = tokens_view(tokens@);
    let mut defs: Vec<Definition> = Vec::new();
    let mut errors: Vec<ParseError> = Vec::new();
    let mut i: usize = 0;
    assert(defs_view(defs@) =~= Seq::empty());
    assert(errors_view(errors@) =~= Seq::empty());
    while i < tokens.len()
        invariant
            view == tokens_view(tokens@),
            parse_from(view, 0, Seq::empty(), Seq::empty()) == parse_from(
                view,
                i as int,
                defs_view(defs@),
                errors_view(errors@),
            ),
        decreases tokens@.len() - i,
    {
        let ghost defs_before = defs_view(defs@);
        let ghost errors_before = errors_view(errors@);
        match definition_parser(tokens, i) {
            Ok((def, next)) => {
                let ghost def_view = def@;
                defs.push(def);
                assert(defs_view(defs@) =~= defs_before.push(def_view));
                i = next;
            },
            Err(e) => {
                let resume = if e.expected == Expected::Operation {
                    find_end(tokens, e.position)
                } else {
                    None
                };
                let ghost error_view = e@;
                errors.push(e);
                assert(errors_view(errors@) =~= errors_before.push(error_view));
                match resume {
                    Some(end) => {
                        i = end + 1;
                    },
                    None => {
                        return Err(errors);
                    },
                }
            },
        }
    }
    if errors.len() == 0 {
        Ok(defs)
    } else {
        Err(errors)
    }
}

/// Parses a program from its whitespace-delimited pieces of text: the
/// definitions in source order, or the mistakes in source order.
pub fn parser(texts: &Vec<String>) -> (parsed: Result<Vec<Definition>, Vec<ParseError>>)
    ensures
        match parse_texts(texts_view(texts@)) {
            Ok(defs) => parsed matches Ok(d) && defs_view(d@) == defs,
            Err(errors) => parsed matches Err(e) && errors_view(e@) == errors,
        },
{
    let tokens = classify_texts(texts);
    token_parser(&tokens)
}

} // verus!
