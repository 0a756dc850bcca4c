//! Lexical tokens: what each whitespace-delimited piece of source text is.

use vstd::prelude::*;
use vstd::string::StrSliceExecFns;
use vstd::string::StringExecFns;

verus! {

/// A piece of source text, classified.
#[derive(Debug, PartialEq, Eq)]
pub enum Token {
    Proc,
    Const,
    In,
    End,
    Int,
    /// The `--` between the inputs and the outputs of a signature.
    Arrow,
    If,
    Add,
    Sub,
    Mul,
    DivMod,
    IDivMod,
    Equal,
    Drop,
    Dup,
    Print,
    Swap,
    /// An unsigned integer literal that fits in 64 bits.
    Integer(u64),
    /// Any other text: a name.
    Ident(String),
}

/// The mathematical value of a [`Token`].
pub enum TokenView {
    Proc,
    Const,
    In,
    End,
    Int,
    Arrow,
    If,
    Add,
    Sub,
    Mul,
    DivMod,
    IDivMod,
    Equal,
    Drop,
    Dup,
    Print,
    Swap,
    Integer(u64),
    Ident(Seq<char>),
}

impl View for Token {
    type V = TokenView;

    open spec fn view(&self) -> TokenView {
        match self {
            Token::Proc => TokenView::Proc,
            Token::Const => TokenView::Const,
            Token::In => TokenView::In,
            Token::End => TokenView::End,
            Token::Int => TokenView::Int,
            Token::Arrow => TokenView::Arrow,
            Token::If => TokenView::If,
            Token::Add => TokenView::Add,
            Token::Sub => TokenView::Sub,
            Token::Mul => TokenView::Mul,
            Token::DivMod => TokenView::DivMod,
            Token::IDivMod => TokenView::IDivMod,
            Token::Equal => TokenView::Equal,
            Token::Drop => TokenView::Drop,
            Token::Dup => TokenView::Dup,
            Token::Print => TokenView::Print,
            Token::Swap => TokenView::Swap,
            Token::Integer(n) => TokenView::Integer(*n),
            Token::Ident(s) => TokenView::Ident(s@),
        }
    }
}

/// The views of a sequence of tokens.
pub open spec fn tokens_view(tokens: Seq<Token>) -> Seq<TokenView> {
    Seq::new(tokens.len(), |i: int| tokens[i]@)
}

/// The views of a sequence of texts.
pub open spec fn texts_view(texts: Seq<String>) -> Seq<Seq<char>> {
    Seq::new(texts.len(), |i: int| texts[i]@)
}

/// Whether a character is a decimal digit.
pub open spec fn is_digit(c: char) -> bool {
    48 <= c as u32 <= 57
}

/// The number that a decimal digit denotes.
pub open spec fn digit_value(c: char) -> nat {
    if is_digit(c) {
        (c as u32 - 48) as nat
    } else {
        0
    }
}

/// The number that a sequence of decimal digits denotes.
pub open spec fn digits_value(digits: Seq<char>) -> nat
    decreases digits.len(),
{
    if digits.len() == 0 {
        0
    } else {
        digits_value(digits.drop_last()) * 10 + digit_value(digits.last())
    }
}

/// The digits of a literal: the text without a plus sign in front.
pub open spec fn literal_digits(text: Seq<char>) -> Seq<char> {
    if text.len() > 0 && text[0] == '+' {
        text.subrange(1, text.len() as int)
    } else {
        text
    }
}

/// The value of an unsigned integer literal: an optional plus sign, then one
/// or more decimal digits whose number fits in 64 bits. Any other text has
/// none.
pub open spec fn literal_value(text: Seq<char>) -> Option<u64> {
    let digits = literal_digits(text);
    if digits.len() > 0 && (forall|i: int| 0 <= i < digits.len() ==> is_digit(#[trigger] digits[i]))
        && digits_value(digits) <= u64::MAX {
        Some(digits_value(digits) as u64)
    } else {
        None
    }
}

/// What a piece of text is: a keyword, an operator, a literal, or else a
/// name.
pub open spec fn classify(text: Seq<char>) -> TokenView {
    if text == "proc"@ {
        TokenView::Proc
    } else if text == "const"@ {
        TokenView::Const
    } else if text == "in"@ {
        TokenView::In
    } else if text == "end"@ {
        TokenView::End
    } else if text == "int"@ {
        TokenView::Int
    } else if text == "--"@ {
        TokenView::Arrow
    } else if text == "if"@ {
        TokenView::If
    } else if text == "+"@ {
        TokenView::Add
    } else if text == "-"@ {
        TokenView::Sub
    } else if text == "*"@ {
        TokenView::Mul
    } else if text == "divmod"@ {
        TokenView::DivMod
    } else if text == "idivmod"@ {
        TokenView::IDivMod
    } else if text == "="@ {
        TokenView::Equal
    } else if text == "drop"@ {
        TokenView::Drop
    } else if text == "dup"@ {
        TokenView::Dup
    } else if text == "print"@ {
        TokenView::Print
    } else if text == "swap"@ {
        TokenView::Swap
    } else {
        match literal_value(text) {
            Some(n) => TokenView::Integer(n),
            None => TokenView::Ident(text),
        }
    }
}

/// The classification of each text.
pub open spec fn classify_all(texts: Seq<Seq<char>>) -> Seq<TokenView> {
    Seq::new(texts.len(), |i: int| classify(texts[i]))
}

/// A longer run of digits denotes no smaller a number.
proof fn lemma_digits_value_grows(digits: Seq<char>, k: int)
    requires
        0 <= k <= digits.len(),
    ensures
        digits_value(digits.take(k)) <= digits_value(digits),
    decreases digits.len() - k,
{
    if k == digits.len() {
        assert(digits.take(k) =~= digits);
    } else {
        lemma_digits_value_grows(digits.drop_last(), k);
        assert(digits.drop_last().take(k) =~= digits.take(k));
    }
}

/// Whether the text is the given word.
fn is_word(text: &String, word: &str) -> (same: bool)
    ensures
        same == (text@ == word@),
{
    let word = String::from_str(word);
    *text == word
}

/// The value of an unsigned integer literal, if the text is one.
pub fn parse_integer(text: &String) -> (value: Option<u64>)
    ensures
        value == literal_value(text@),
{
    let s = text.as_str();
    let len = s.unicode_len();
    let start: usize = if len > 0 && s.get_char(0) == '+' {
        1
    } else {
        0
    };
    let ghost digits = literal_digits(text@);
    if start == len {
        return None;
    }
    let mut value: u64 = 0;
    let mut i: usize = start;
    while i < len
        invariant
            start <= i <= len,
            len == text@.len(),
            s@ == text@,
            digits == literal_digits(text@),
            digits.len() == len - start,
            forall|j: int| 0 <= j < digits.len() ==> digits[j] == text@[j + start],
            forall|j: int| 0 <= j < i - start ==> is_digit(#[trigger] digits[j]),
            value == digits_value(digits.take(i - start)),
        decreases len - i,
    {
        let c = s.get_char(i);
        let code = c as u32;
        if code < 48 || code > 57 {
            assert(!is_digit(digits[i - start]));
            return None;
        }
        let digit = (code - 48) as u64;
        proof {
            assert(digits.take(i - start + 1).drop_last() =~= digits.take(i - start));
            assert(digits.take(i - start + 1).last() == c);
            lemma_digits_value_grows(digits, i - start + 1);
        }
        if value > (u64::MAX - digit) / 10 {
            return None;
        }
        value = value * 10 + digit;
        i += 1;
    }
    assert(digits.take(len - start) =~= digits);
    Some(value)
}

/// What a piece of text is.
pub fn classify_text(text: &String) -> (token: Token)
    ensures
        token@ == classify(text@),
{
    if is_word(text, "proc") {
        Token::Proc
    } else if is_word(text, "const") {
        Token::Const
    } else if is_word(text, "in") {
        Token::In
    } else if is_word(text, "end") {
        Token::End
    } else if is_word(text, "int") {
        Token::Int
    } else if is_word(text, "--") {
        Token::Arrow
    } else if is_word(text, "if") {
        Token::If
    } else if is_word(text, "+") {
        Token::Add
    } else if is_word(text, "-") {
        Token::Sub
    } else if is_word(text, "*") {
        Token::Mul
    } else if is_word(text, "divmod") {
        Token::DivMod
    } else if is_word(text, "idivmod") {
        Token::IDivMod
    } else if is_word(text, "=") {
        Token::Equal
    } else if is_word(text, "drop") {
        Token::Drop
    } else if is_word(text, "dup") {
        Token::Dup
    } else if is_word(text, "print") {
        Token::Print
    } else if is_word(text, "swap") {
        Token::Swap
    } else {
        match parse_integer(text) {
            Some(n) => Token::Integer(n),
            None => Token::Ident(text.clone()),
        }
    }
}

/// Classifies each text, in order.
pub fn classify_texts(texts: &Vec<String>) -> (tokens: Vec<Token>)
    ensures
        tokens_view(tokens@) == classify_all(texts_view(texts@)),
{
    let mut tokens: Vec<Token> = Vec::new();
    let mut i: usize = 0;
    while i < texts.len()
        invariant
            i <= texts@.len(),
            tokens@.len() == i,
            forall|j: int| 0 <= j < i ==> (#[trigger] tokens@[j])@ == classify(texts@[j]@),
        decreases texts@.len() - i,
    {
        tokens.push(classify_text(&texts[i]));
        i += 1;
    }
    assert(tokens_view(tokens@) =~= classify_all(texts_view(texts@)));
    tokens
}

/// Whether a character separates words: a space, a tab, a line feed, a
/// carriage return, a vertical tab or a form feed.
pub open spec fn is_space(c: char) -> bool {
    let code = c as u32;
    code == 32 || (9 <= code <= 13)
}

/// The length of the word at the start of the text: of the longest run of
/// characters that do not separate words.
pub open spec fn word_len(text: Seq<char>) -> nat
    decreases text.len(),
{
    if text.len() == 0 || is_space(text[0]) {
        0
    } else {
        1 + word_len(text.drop_first())
    }
}

/// The word at the start of a text is no longer than the text, and not
/// empty where the text starts with a character that separates no words.
pub proof fn lemma_word_len(text: Seq<char>)
    ensures
        word_len(text) <= text.len(),
        text.len() > 0 && !is_space(text[0]) ==> word_len(text) > 0,
    decreases text.len(),
{
    if text.len() > 0 && !is_space(text[0]) {
        lemma_word_len(text.drop_first());
    }
}

/// The words of a text, in order: its longest runs of characters that do
/// not separate words.
pub open spec fn words(text: Seq<char>) -> Seq<Seq<char>>
    decreases text.len(),
{
    if text.len() == 0 {
        Seq::empty()
    } else if is_space(text[0]) {
        words(text.drop_first())
    } else {
        proof {
            lemma_word_len(text);
        }
        seq![text.take(word_len(text) as int)] + words(text.skip(word_len(text) as int))
    }
}

/// Splits a source text into its words. A text that is not ASCII has no
/// words.
pub fn tokenize(source: &str) -> (texts: Option<Vec<String>>)
    ensures
        match texts {
            Some(t) => source.is_ascii() && texts_view(t@) == words(source@),
            None => !source.is_ascii(),
        },
{
    if !source.is_ascii() {
        return None;
    }
    let len = source.unicode_len();
    let ghost text = source@;
    let mut texts: Vec<String> = Vec::new();
    let mut i: usize = 0;
    assert(text.skip(0) =~= text);
    assert(texts_view(texts@) =~= Seq::empty());
    while i < len
        invariant
            i <= len,
            len == text.len(),
            text == source@,
            source.is_ascii(),
            words(text) == texts_view(texts@) + words(text.skip(i as int)),
        decreases len - i,
    {
        let ghost rest = text.skip(i as int);
        let ghost before = texts_view(texts@);
        if byte_is_space(source.get_ascii(i)) {
            assert(is_space(rest[0]));
            assert(rest.drop_first() =~= text.skip(i + 1));
            i += 1;
        } else {
            assert(!is_space(rest[0]));
            let mut j: usize = i + 1;
            assert(rest.drop_first() =~= text.skip(i + 1));
            while j < len && !byte_is_space(source.get_ascii(j))
                invariant
                    i < j <= len,
                    len == text.len(),
                    text == source@,
                    source.is_ascii(),
                    word_len(text.skip(i as int)) == (j - i) + word_len(text.skip(j as int)),
                decreases len - j,
            {
                assert(text.skip(j as int).drop_first() =~= text.skip(j + 1));
                assert(!is_space(text.skip(j as int)[0]));
                j += 1;
            }
            assert(word_len(text.skip(j as int)) == 0) by {
                if j < len {
                    assert(is_space(text.skip(j as int)[0]));
                }
            }
            let word = String::from_str(source.substring_ascii(i, j));
            assert(word@ =~= rest.take(j - i));
            assert(rest.skip(j - i) =~= text.skip(j as int));
            texts.push(word);
            assert(texts_view(texts@) =~= before + seq![rest.take(j - i)]);
            i = j;
        }
    }
    assert(text.skip(len as int) =~= Seq::empty());
    assert(texts_view(texts@) + Seq::<Seq<char>>::empty() =~= texts_view(texts@));
    Some(texts)
}

/// Whether a byte of ASCII text separates words.
fn byte_is_space(b: u8) -> (space: bool)
    ensures
        space == (b == 32 || (9 <= b <= 13)),
{
    b == 32 || (9 <= b && b <= 13)
}

} // verus!
