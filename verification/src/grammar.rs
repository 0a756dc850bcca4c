//! The grammar, as the tokens that spell a program, and its relation to
//! the parser: the parser accepts exactly the token sequences that spell
//! a program, and gives back the program that they spell.

use vstd::prelude::*;
use crate::ast::{DefView, OpView, Type};
use crate::lexer::TokenView;
use crate::parser::{
    int_types, mistake, next_end, parse_body, parse_definition, parse_from, parse_tokens,
    simple_op, skip_types, token_at, Expected, ParseErrorView,
};

verus! {

/// The tokens that spell an operation.
pub open spec fn op_tokens(op: OpView) -> Seq<TokenView>
    decreases op,
{
    match op {
        OpView::Integer(n) => seq![TokenView::Integer(n)],
        OpView::Word(name) => seq![TokenView::Ident(name)],
        OpView::If(body) => seq![TokenView::If] + ops_tokens(body) + seq![TokenView::End],
        OpView::Add => seq![TokenView::Add],
        OpView::Sub => seq![TokenView::Sub],
        OpView::Mul => seq![TokenView::Mul],
        OpView::DivMod => seq![TokenView::DivMod],
        OpView::IDivMod => seq![TokenView::IDivMod],
        OpView::Equal => seq![TokenView::Equal],
        OpView::Drop => seq![TokenView::Drop],
        OpView::Dup => seq![TokenView::Dup],
        OpView::Print => seq![TokenView::Print],
        OpView::Swap => seq![TokenView::Swap],
    }
}

/// The tokens that spell a sequence of operations.
pub open spec fn ops_tokens(ops: Seq<OpView>) -> Seq<TokenView>
    decreases ops,
{
    if ops.len() == 0 {
        Seq::empty()
    } else {
        op_tokens(ops[0]) + ops_tokens(ops.drop_first())
    }
}

/// As many `int` as asked for.
pub open spec fn type_tokens(count: nat) -> Seq<TokenView> {
    Seq::new(count, |i: int| TokenView::Int)
}

/// The tokens that spell a signature: the inputs, and, where there are
/// outputs, `--` and the outputs.
pub open spec fn signature_tokens(inputs: nat, outputs: nat) -> Seq<TokenView> {
    if outputs > 0 {
        type_tokens(inputs) + seq![TokenView::Arrow] + type_tokens(outputs)
    } else {
        type_tokens(inputs)
    }
}

/// The tokens that spell a definition.
pub open spec fn def_tokens(def: DefView) -> Seq<TokenView> {
    match def {
        DefView::Proc(p) => seq![TokenView::Proc, TokenView::Ident(p.name)] + signature_tokens(
            p.inputs.len(),
            p.outputs.len(),
        ) + seq![TokenView::In] + ops_tokens(p.ops) + seq![TokenView::End],
        DefView::Const(c) => seq![TokenView::Const, TokenView::Ident(c.name)] + ops_tokens(c.ops)
            + seq![TokenView::End],
    }
}

/// The tokens that spell a program.
pub open spec fn defs_tokens(defs: Seq<DefView>) -> Seq<TokenView>
    decreases defs.len(),
{
    if defs.len() == 0 {
        Seq::empty()
    } else {
        def_tokens(defs[0]) + defs_tokens(defs.drop_first())
    }
}

/// Whether `part` stands in `tokens` from `position` on.
pub open spec fn stands_at(tokens: Seq<TokenView>, position: int, part: Seq<TokenView>) -> bool {
    &&& 0 <= position
    &&& position + part.len() <= tokens.len()
    &&& forall|i: int| 0 <= i < part.len() ==> tokens[position + i] == #[trigger] part[i]
}

/// Two parts stand one behind the other where their concatenation stands.
pub proof fn lemma_stands_split(
    tokens: Seq<TokenView>,
    position: int,
    first: Seq<TokenView>,
    second: Seq<TokenView>,
)
    ensures
        stands_at(tokens, position, first + second) <==> stands_at(tokens, position, first)
            && stands_at(tokens, position + first.len(), second),
{
    let whole = first + second;
    if stands_at(tokens, position, whole) {
        assert forall|i: int| 0 <= i < first.len() implies tokens[position + i] == #[trigger] first[i] by {
            assert(whole[i] == first[i]);
        }
        assert forall|i: int| 0 <= i < second.len() implies tokens[position + first.len() + i]
            == #[trigger] second[i] by {
            assert(whole[first.len() + i] == second[i]);
        }
    }
    if stands_at(tokens, position, first) && stands_at(tokens, position + first.len(), second) {
        assert forall|i: int| 0 <= i < whole.len() implies tokens[position + i] == #[trigger] whole[i] by {
            if i < first.len() {
                assert(whole[i] == first[i]);
            } else {
                assert(whole[i] == second[i - first.len()]);
                assert(tokens[position + first.len() + (i - first.len())] == second[i
                    - first.len()]);
            }
        }
    }
}

/// A body that is spelled out and closed by `end` is parsed as it is
/// spelled.
pub proof fn lemma_body_parses(
    tokens: Seq<TokenView>,
    position: int,
    ops: Seq<OpView>,
    done: Seq<OpView>,
)
    requires
        stands_at(tokens, position, ops_tokens(ops) + seq![TokenView::End]),
    ensures
        parse_body(tokens, position, done) == Ok::<(Seq<OpView>, int), ParseErrorView>(
            (done + ops, position + ops_tokens(ops).len()),
        ),
    decreases ops,
{
    let end = seq![TokenView::End];
    lemma_stands_split(tokens, position, ops_tokens(ops), end);
    if ops.len() == 0 {
        assert(tokens[position + 0] == end[0]);
        assert(done + ops =~= done);
    } else {
        let op = ops[0];
        let rest = ops.drop_first();
        lemma_stands_split(tokens, position, op_tokens(op), ops_tokens(rest));
        lemma_stands_split(tokens, position + op_tokens(op).len(), ops_tokens(rest), end);
        assert(done.push(op) + rest =~= done + ops);
        match op {
            OpView::If(body) => {
                let head = seq![TokenView::If];
                lemma_stands_split(tokens, position, head + ops_tokens(body), end);
                lemma_stands_split(tokens, position, head, ops_tokens(body));
                lemma_stands_split(tokens, position + 1, ops_tokens(body), end);
                assert(tokens[position + 0] == head[0]);
                lemma_body_parses(tokens, position + 1, body, Seq::empty());
                assert(Seq::<OpView>::empty() + body =~= body);
                let close = position + 1 + ops_tokens(body).len();
                assert(tokens[close + 0] == end[0]);
                assert(op_tokens(op).len() == ops_tokens(body).len() + 2);
                lemma_body_parses(tokens, close + 1, rest, done.push(op));
            },
            _ => {
                assert(op_tokens(op).len() == 1);
                assert(tokens[position + 0] == op_tokens(op)[0]);
                assert(simple_op(tokens[position]) == Some(op));
                lemma_body_parses(tokens, position + 1, rest, done.push(op));
            },
        }
    }
}

/// Types that stand before a token that is no type are skipped, and no
/// more.
pub proof fn lemma_types_skipped(tokens: Seq<TokenView>, position: int, count: nat)
    requires
        stands_at(tokens, position, type_tokens(count)),
        !(token_at(tokens, position + count) matches Some(TokenView::Int)),
    ensures
        skip_types(tokens, position) == position + count,
    decreases count,
{
    if count > 0 {
        assert(tokens[position + 0] == type_tokens(count)[0]);
        assert(stands_at(tokens, position + 1, type_tokens((count - 1) as nat))) by {
            assert forall|i: int| 0 <= i < count - 1 implies tokens[position + 1 + i]
                == #[trigger] type_tokens((count - 1) as nat)[i] by {
                assert(tokens[position + (i + 1)] == type_tokens(count)[i + 1]);
            }
        }
        lemma_types_skipped(tokens, position + 1, (count - 1) as nat);
    }
}

/// All lists of types of one length are the same list.
pub proof fn lemma_types_are_ints(types: Seq<Type>)
    ensures
        types == int_types(types.len() as int),
{
    assert(types =~= int_types(types.len() as int));
}

/// A definition that is spelled out is parsed as it is spelled.
pub proof fn lemma_definition_parses(tokens: Seq<TokenView>, position: int, def: DefView)
    requires
        stands_at(tokens, position, def_tokens(def)),
    ensures
        parse_definition(tokens, position) == Ok::<(DefView, int), ParseErrorView>(
            (def, position + def_tokens(def).len()),
        ),
{
    let end = seq![TokenView::End];
    match def {
        DefView::Proc(p) => {
            let head = seq![TokenView::Proc, TokenView::Ident(p.name)];
            let sig = signature_tokens(p.inputs.len(), p.outputs.len());
            let open = seq![TokenView::In];
            let body = ops_tokens(p.ops);
            lemma_stands_split(tokens, position, head + sig + open + body, end);
            lemma_stands_split(tokens, position, head + sig + open, body);
            lemma_stands_split(tokens, position, head + sig, open);
            lemma_stands_split(tokens, position, head, sig);
            assert(tokens[position + 0] == head[0]);
            assert(tokens[position + 1] == head[1]);
            let inputs = p.inputs.len();
            let outputs = p.outputs.len();
            lemma_types_are_ints(p.inputs);
            lemma_types_are_ints(p.outputs);
            let after_sig = position + 2 + sig.len();
            assert(tokens[after_sig + 0] == open[0]);
            lemma_stands_split(tokens, after_sig + 1, body, end);
            lemma_body_parses(tokens, after_sig + 1, p.ops, Seq::empty());
            assert(Seq::<OpView>::empty() + p.ops =~= p.ops);
            if outputs > 0 {
                let arrow = seq![TokenView::Arrow];
                lemma_stands_split(
                    tokens,
                    position + 2,
                    type_tokens(inputs) + arrow,
                    type_tokens(outputs),
                );
                lemma_stands_split(tokens, position + 2, type_tokens(inputs), arrow);
                assert(tokens[position + 2 + inputs + 0] == arrow[0]);
                lemma_types_skipped(tokens, position + 2, inputs);
                lemma_types_skipped(tokens, position + 2 + inputs + 1, outputs);
                assert(sig.len() == inputs + 1 + outputs);
            } else {
                lemma_types_skipped(tokens, position + 2, inputs);
                assert(p.outputs =~= Seq::empty());
            }
            assert(def_tokens(def).len() == 2 + sig.len() + 1 + body.len() + 1);
        },
        DefView::Const(c) => {
            let head = seq![TokenView::Const, TokenView::Ident(c.name)];
            let body = ops_tokens(c.ops);
            lemma_stands_split(tokens, position, head + body, end);
            lemma_stands_split(tokens, position, head, body);
            assert(tokens[position + 0] == head[0]);
            assert(tokens[position + 1] == head[1]);
            lemma_stands_split(tokens, position + 2, body, end);
            lemma_body_parses(tokens, position + 2, c.ops, Seq::empty());
            assert(Seq::<OpView>::empty() + c.ops =~= c.ops);
        },
    }
}

/// Definitions that are spelled out up to the end of the tokens are parsed
/// as they are spelled, without a mistake.
pub proof fn lemma_program_parses(
    tokens: Seq<TokenView>,
    position: int,
    defs: Seq<DefView>,
    done: Seq<DefView>,
    errors: Seq<ParseErrorView>,
)
    requires
        stands_at(tokens, position, defs_tokens(defs)),
        position + defs_tokens(defs).len() == tokens.len(),
    ensures
        parse_from(tokens, position, done, errors) == (done + defs, errors),
    decreases defs.len(),
{
    if defs.len() == 0 {
        assert(done + defs =~= done);
    } else {
        let def = defs[0];
        let rest = defs.drop_first();
        lemma_stands_split(tokens, position, def_tokens(def), defs_tokens(rest));
        lemma_definition_parses(tokens, position, def);
        assert(def_tokens(def).len() >= 3) by {
            lemma_def_tokens_long(def);
        }
        lemma_program_parses(
            tokens,
            position + def_tokens(def).len(),
            rest,
            done.push(def),
            errors,
        );
        assert(done.push(def) + rest =~= done + defs);
    }
}

/// A definition is spelled with three tokens at least.
pub proof fn lemma_def_tokens_long(def: DefView)
    ensures
        def_tokens(def).len() >= 3,
{
}

/// The parser accepts every program that is spelled out, and gives back
/// that program.
pub proof fn spelled_program_is_parsed(defs: Seq<DefView>)
    ensures
        parse_tokens(defs_tokens(defs)) == Ok::<Seq<DefView>, Seq<ParseErrorView>>(defs),
{
    let tokens = defs_tokens(defs);
    assert(stands_at(tokens, 0, tokens));
    lemma_program_parses(tokens, 0, defs, Seq::empty(), Seq::empty());
    assert(Seq::<DefView>::empty() + defs =~= defs);
}

/// An operation that is one token is spelled by that token.
pub proof fn lemma_simple_op_spelled(token: TokenView)
    ensures
        simple_op(token) matches Some(op) ==> op_tokens(op) == seq![token],
{
}

/// A body that is parsed is spelled by the tokens that were read, up to
/// the `end` that closes it.
pub proof fn lemma_body_spelled(tokens: Seq<TokenView>, position: int, done: Seq<OpView>)
    requires
        parse_body(tokens, position, done) is Ok,
    ensures
        ({
            let (ops, end) = parse_body(tokens, position, done)->Ok_0;
            &&& 0 <= position <= end < tokens.len()
            &&& tokens[end] == TokenView::End
            &&& done.len() <= ops.len()
            &&& ops.take(done.len() as int) == done
            &&& tokens.subrange(position, end) == ops_tokens(ops.skip(done.len() as int))
        }),
    decreases tokens.len() - position,
{
    let (ops, end) = parse_body(tokens, position, done)->Ok_0;
    match tokens[position] {
        TokenView::End => {
            assert(ops.take(done.len() as int) =~= done);
            assert(ops.skip(done.len() as int) =~= Seq::empty());
            assert(tokens.subrange(position, end) =~= Seq::empty());
        },
        TokenView::If => {
            let (body, close) = parse_body(tokens, position + 1, Seq::empty())->Ok_0;
            lemma_body_spelled(tokens, position + 1, Seq::empty());
            let op = OpView::If(body);
            lemma_body_spelled(tokens, close + 1, done.push(op));
            assert(body.skip(0) =~= body);
            lemma_spelled_step(tokens, position, close + 1, end, done, op, ops);
            assert(tokens.subrange(position, close + 1) =~= op_tokens(op)) by {
                assert(tokens.subrange(position, close + 1) =~= seq![TokenView::If]
                    + tokens.subrange(position + 1, close) + seq![TokenView::End]);
            }
        },
        token => {
            let op = simple_op(token)->Some_0;
            lemma_simple_op_spelled(token);
            lemma_body_spelled(tokens, position + 1, done.push(op));
            assert(tokens.subrange(position, position + 1) =~= seq![token]);
            lemma_spelled_step(tokens, position, position + 1, end, done, op, ops);
        },
    }
}

/// One operation and the operations behind it spell what they spell one
/// after the other.
pub proof fn lemma_spelled_step(
    tokens: Seq<TokenView>,
    position: int,
    middle: int,
    end: int,
    done: Seq<OpView>,
    op: OpView,
    ops: Seq<OpView>,
)
    requires
        0 <= position <= middle <= end <= tokens.len(),
        done.len() + 1 <= ops.len(),
        ops.take(done.len() as int + 1) == done.push(op),
        tokens.subrange(middle, end) == ops_tokens(ops.skip(done.len() as int + 1)),
    ensures
        ops.take(done.len() as int) == done,
        tokens.subrange(position, middle) == op_tokens(op) ==> tokens.subrange(position, end)
            == ops_tokens(ops.skip(done.len() as int)),
{
    let n = done.len() as int;
    assert(ops.take(n) =~= done) by {
        assert forall|i: int| 0 <= i < n implies ops.take(n)[i] == done[i] by {
            assert(ops.take(n + 1)[i] == done.push(op)[i]);
        }
    }
    let tail = ops.skip(n);
    assert(tail[0] == op) by {
        assert(ops.take(n + 1)[n] == done.push(op)[n]);
    }
    assert(tail.drop_first() =~= ops.skip(n + 1));
    if tokens.subrange(position, middle) == op_tokens(op) {
        assert(tokens.subrange(position, end) =~= tokens.subrange(position, middle)
            + tokens.subrange(middle, end));
    }
}

/// The types that are skipped are so many `int`, and no `int` follows
/// them.
pub proof fn lemma_types_spelled(tokens: Seq<TokenView>, position: int)
    requires
        0 <= position <= tokens.len(),
    ensures
        position <= skip_types(tokens, position) <= tokens.len(),
        tokens.subrange(position, skip_types(tokens, position)) == type_tokens(
            (skip_types(tokens, position) - position) as nat,
        ),
        !(token_at(tokens, skip_types(tokens, position)) matches Some(TokenView::Int)),
    decreases tokens.len() - position,
{
    let end = skip_types(tokens, position);
    if position < tokens.len() && tokens[position] is Int {
        lemma_types_spelled(tokens, position + 1);
        assert(tokens.subrange(position, end) =~= type_tokens((end - position) as nat)) by {
            assert forall|i: int| 0 <= i < end - position implies tokens.subrange(position, end)[i]
                == TokenView::Int by {
                if i > 0 {
                    assert(tokens.subrange(position + 1, end)[i - 1] == type_tokens(
                        (end - position - 1) as nat,
                    )[i - 1]);
                }
            }
        }
    } else {
        assert(tokens.subrange(position, end) =~= type_tokens(0));
    }
}

/// A definition that is parsed is spelled by the tokens that were read.
pub proof fn lemma_definition_spelled(tokens: Seq<TokenView>, position: int)
    requires
        0 <= position < tokens.len(),
        parse_definition(tokens, position) is Ok,
    ensures
        ({
            let (def, next) = parse_definition(tokens, position)->Ok_0;
            &&& position < next <= tokens.len()
            &&& tokens.subrange(position, next) == def_tokens(def)
        }),
{
    let (def, next) = parse_definition(tokens, position)->Ok_0;
    let end = seq![TokenView::End];
    match def {
        DefView::Proc(p) => {
            let head = seq![TokenView::Proc, TokenView::Ident(p.name)];
            let inputs_end = skip_types(tokens, position + 2);
            lemma_types_spelled(tokens, position + 2);
            let inputs = tokens.subrange(position + 2, inputs_end);
            assert(p.inputs.len() == inputs_end - (position + 2));
            if token_at(tokens, inputs_end) matches Some(TokenView::Arrow) {
                let outputs_end = skip_types(tokens, inputs_end + 1);
                lemma_types_spelled(tokens, inputs_end + 1);
                let outputs = tokens.subrange(inputs_end + 1, outputs_end);
                assert(p.outputs.len() == outputs_end - (inputs_end + 1));
                lemma_body_spelled(tokens, outputs_end + 1, Seq::empty());
                let close = parse_body(tokens, outputs_end + 1, Seq::empty())->Ok_0.1;
                assert(p.ops.skip(0) =~= p.ops);
                assert(tokens.subrange(position, next) =~= head + (inputs + seq![TokenView::Arrow]
                    + outputs) + seq![TokenView::In] + tokens.subrange(outputs_end + 1, close)
                    + end);
            } else {
                lemma_body_spelled(tokens, inputs_end + 1, Seq::empty());
                let close = parse_body(tokens, inputs_end + 1, Seq::empty())->Ok_0.1;
                assert(p.ops.skip(0) =~= p.ops);
                assert(p.outputs.len() == 0);
                assert(tokens.subrange(position, next) =~= head + inputs + seq![TokenView::In]
                    + tokens.subrange(inputs_end + 1, close) + end);
            }
        },
        DefView::Const(c) => {
            let head = seq![TokenView::Const, TokenView::Ident(c.name)];
            lemma_body_spelled(tokens, position + 2, Seq::empty());
            let close = parse_body(tokens, position + 2, Seq::empty())->Ok_0.1;
            assert(c.ops.skip(0) =~= c.ops);
            assert(tokens.subrange(position, next) =~= head + tokens.subrange(position + 2, close)
                + end);
        },
    }
}

/// Parsing drops no mistake.
pub proof fn lemma_mistakes_stay(
    tokens: Seq<TokenView>,
    position: int,
    done: Seq<DefView>,
    errors: Seq<ParseErrorView>,
)
    ensures
        parse_from(tokens, position, done, errors).1.len() >= errors.len(),
    decreases tokens.len() - position,
{
    if position < 0 || position >= tokens.len() {
    } else {
        match parse_definition(tokens, position) {
            Ok((def, next)) => {
                if position < next <= tokens.len() {
                    lemma_mistakes_stay(tokens, next, done.push(def), errors);
                }
            },
            Err(e) => {
                match next_end(tokens, e.position) {
                    Some(end) => {
                        if e.expected == Expected::Operation && position <= end < tokens.len() {
                            lemma_mistakes_stay(tokens, end + 1, done, errors.push(e));
                        }
                    },
                    None => {},
                }
            },
        }
    }
}

/// Definitions that are parsed without a mistake are spelled by the
/// tokens that were read.
pub proof fn lemma_program_spelled(
    tokens: Seq<TokenView>,
    position: int,
    done: Seq<DefView>,
    errors: Seq<ParseErrorView>,
)
    requires
        0 <= position <= tokens.len(),
        parse_from(tokens, position, done, errors).1.len() == 0,
    ensures
        ({
            let defs = parse_from(tokens, position, done, errors).0;
            &&& done.len() <= defs.len()
            &&& defs.take(done.len() as int) == done
            &&& tokens.subrange(position, tokens.len() as int) == defs_tokens(
                defs.skip(done.len() as int),
            )
        }),
    decreases tokens.len() - position,
{
    let defs = parse_from(tokens, position, done, errors).0;
    let n = done.len() as int;
    if position >= tokens.len() {
        assert(defs.take(n) =~= done);
        assert(defs.skip(n) =~= Seq::empty());
        assert(tokens.subrange(position, tokens.len() as int) =~= Seq::empty());
    } else {
        match parse_definition(tokens, position) {
            Ok((def, next)) => {
                lemma_definition_spelled(tokens, position);
                lemma_program_spelled(tokens, next, done.push(def), errors);
                assert(defs.take(n) =~= done) by {
                    assert forall|i: int| 0 <= i < n implies defs.take(n)[i] == done[i] by {
                        assert(defs.take(n + 1)[i] == done.push(def)[i]);
                    }
                }
                let tail = defs.skip(n);
                assert(tail[0] == def) by {
                    assert(defs.take(n + 1)[n] == done.push(def)[n]);
                }
                assert(tail.drop_first() =~= defs.skip(n + 1));
                assert(tokens.subrange(position, tokens.len() as int) =~= tokens.subrange(
                    position,
                    next,
                ) + tokens.subrange(next, tokens.len() as int));
            },
            Err(e) => {
                match next_end(tokens, e.position) {
                    Some(end) => {
                        if e.expected == Expected::Operation && position <= end < tokens.len() {
                            lemma_mistakes_stay(tokens, end + 1, done, errors.push(e));
                        }
                    },
                    None => {},
                }
            },
        }
    }
}

/// The parser accepts only token sequences that spell a program, and the
/// program that it gives back is the one that they spell.
pub proof fn parsed_program_is_spelled(tokens: Seq<TokenView>)
    ensures
        parse_tokens(tokens) matches Ok(defs) ==> defs_tokens(defs) == tokens,
{
    if parse_tokens(tokens) is Ok {
        let defs = parse_tokens(tokens)->Ok_0;
        lemma_program_spelled(tokens, 0, Seq::empty(), Seq::empty());
        assert(defs.skip(0) =~= defs);
        assert(tokens.subrange(0, tokens.len() as int) =~= tokens);
    }
}

} // verus!
