use vstd::prelude::*;
use crate::error::EvalError;

verus! {

/// A lexical unit: the text of a number, or a single operator symbol.
#[derive(Clone, Debug, PartialEq, Eq)]
pub enum Token {
    Number(String),
    Operator(char),
}

/// The mathematical value of a [`Token`].
pub enum Lexeme {
    Number(Seq<char>),
    Operator(char),
}

impl View for Token {
    type V = Lexeme;

    open spec fn view(&self) -> Lexeme {
        match self {
            Token::Number(text) => Lexeme::Number(text@),
            Token::Operator(symbol) => Lexeme::Operator(*symbol),
        }
    }
}

/// The lexemes of a token sequence, in order.
pub open spec fn lexemes(tokens: Seq<Token>) -> Seq<Lexeme> {
    tokens.map_values(|t: Token| t@)
}

/// A character that may stand in the text of a number.
pub open spec fn is_numeric(c: char) -> bool {
    ('0' <= c && c <= '9') || c == '.'
}

/// A character that is a token by itself.
pub open spec fn is_symbol(c: char) -> bool {
    c == '+' || c == '-' || c == '*' || c == '/' || c == '(' || c == ')'
}

/// A character that the tokenizer accepts.
pub open spec fn is_recognized(c: char) -> bool {
    is_numeric(c) || is_symbol(c) || c == ' '
}

/// A lexeme as the tokenizer makes it: the text of a number is not empty and
/// holds digits and points only.
pub open spec fn well_formed(lexeme: Lexeme) -> bool {
    match lexeme {
        Lexeme::Number(text) => text.len() > 0 && forall|i: int|
            0 <= i < text.len() ==> is_numeric(#[trigger] text[i]),
        Lexeme::Operator(_) => true,
    }
}

/// Every lexeme of the sequence is well formed.
pub open spec fn all_well_formed(lexemes: Seq<Lexeme>) -> bool {
    forall|i: int| 0 <= i < lexemes.len() ==> well_formed(#[trigger] lexemes[i])
}

/// The pending run of numeric characters as a token, if there is one.
pub open spec fn flush(pending: Seq<char>) -> Seq<Lexeme> {
    if pending.len() == 0 {
        Seq::empty()
    } else {
        seq![Lexeme::Number(pending)]
    }
}

/// The lexemes of `text` when `pending` numeric characters stand before it:
/// numeric characters extend the pending run, a symbol or a space ends it,
/// and a symbol is then a lexeme of its own.
pub open spec fn scan(text: Seq<char>, pending: Seq<char>) -> Seq<Lexeme>
    decreases text.len(),
{
    if text.len() == 0 {
        flush(pending)
    } else if is_numeric(text[0]) {
        scan(text.drop_first(), pending.push(text[0]))
    } else if is_symbol(text[0]) {
        flush(pending) + seq![Lexeme::Operator(text[0])] + scan(text.drop_first(), Seq::empty())
    } else {
        flush(pending) + scan(text.drop_first(), Seq::empty())
    }
}

/// The position of the first character of `text` that the tokenizer does not
/// accept, or the length of `text` where it accepts them all.
pub open spec fn first_unrecognized(text: Seq<char>) -> int
    decreases text.len(),
{
    if text.len() == 0 || !is_recognized(text[0]) {
        0
    } else {
        1 + first_unrecognized(text.drop_first())
    }
}

/// What tokenizing `text` gives: its lexemes, or the first character that is
/// not accepted.
pub open spec fn spec_tokenize(text: Seq<char>) -> Result<Seq<Lexeme>, EvalError> {
    let stop = first_unrecognized(text);
    if stop < text.len() {
        Err(EvalError::InvalidCharacter(text[stop]))
    } else {
        Ok(scan(text, Seq::empty()))
    }
}

/// `String::push` of the standard library: the string afterwards is the
/// string before with `ch` appended at its end. Believed, not proved.
pub assume_specification[ String::push ](s: &mut String, ch: char)
    ensures
        final(s)@ == old(s)@.push(ch),
;

/// Every character before `first_unrecognized(text)` is accepted, and the
/// character at that position, if there is one, is not.
pub proof fn lemma_first_unrecognized(text: Seq<char>)
    ensures
        0 <= first_unrecognized(text) <= text.len(),
        forall|j: int| 0 <= j < first_unrecognized(text) ==> is_recognized(#[trigger] text[j]),
        first_unrecognized(text) < text.len() ==> !is_recognized(
            text[first_unrecognized(text)],
        ),
    decreases text.len(),
{
    if text.len() != 0 && is_recognized(text[0]) {
        let rest = text.drop_first();
        lemma_first_unrecognized(rest);
        assert forall|j: int| 0 <= j < first_unrecognized(text) implies is_recognized(
            #[trigger] text[j],
        ) by {
            if j > 0 {
                assert(text[j] == rest[j - 1]);
            }
        }
        if first_unrecognized(rest) < rest.len() {
            assert(text[first_unrecognized(text)] == rest[first_unrecognized(rest)]);
        }
    }
}

/// One step of `scan`, taken at position `at` of `text`.
proof fn lemma_scan_at(text: Seq<char>, at: int, pending: Seq<char>)
    requires
        0 <= at < text.len(),
    ensures
        scan(text.skip(at), pending) == if is_numeric(text[at]) {
            scan(text.skip(at + 1), pending.push(text[at]))
        } else if is_symbol(text[at]) {
            flush(pending) + seq![Lexeme::Operator(text[at])] + scan(
                text.skip(at + 1),
                Seq::empty(),
            )
        } else {
            flush(pending) + scan(text.skip(at + 1), Seq::empty())
        },
{
    assert(text.skip(at).drop_first() =~= text.skip(at + 1));
}

/// Tokenizes `expression`: each run of digits and points becomes a number
/// token, each operator or parenthesis a token of its own, and spaces only
/// separate. The first character outside that alphabet is the error, and no
/// tokens are returned then.
pub fn tokenize(expression: &str) -> (result: Result<Vec<Token>, EvalError>)
    ensures
        match spec_tokenize(expression@) {
            Ok(expected) => result is Ok && lexemes(result->Ok_0@) == expected,
            Err(e) => result == Err::<Vec<Token>, EvalError>(e),
        },
{
    let mut tokens: Vec<Token> = Vec::new();
    let mut current_number = String::new();
    proof {
        assert(expression@.skip(0) =~= expression@);
        assert(lexemes(tokens@) + scan(expression@, Seq::empty()) =~= scan(
            expression@,
            Seq::empty(),
        ));
    }
    for c in it: expression.chars()
        invariant
            it.seq() == expression@,
            forall|j: int| 0 <= j < it.index() ==> is_recognized(#[trigger] expression@[j]),
            scan(expression@, Seq::empty()) == lexemes(tokens@) + scan(
                expression@.skip(it.index()),
                current_number@,
            ),
    {
        let ghost before = lexemes(tokens@);
        let ghost pending = current_number@;
        let ghost rest = scan(expression@.skip(it.index() + 1), Seq::empty());
        proof {
            lemma_scan_at(expression@, it.index(), pending);
        }
        if ('0' <= c && c <= '9') || c == '.' {
            current_number.push(c);
        } else if c == '+' || c == '-' || c == '*' || c == '/' || c == '(' || c == ')' {
            if !current_number.as_str().is_empty() {
                tokens.push(Token::Number(current_number));
                current_number = String::new();
            }
            tokens.push(Token::Operator(c));
            proof {
                assert(current_number@ =~= Seq::<char>::empty());
                assert(lexemes(tokens@) =~= before + flush(pending) + seq![Lexeme::Operator(c)]);
                assert(before + (flush(pending) + seq![Lexeme::Operator(c)] + rest) =~= lexemes(
                    tokens@,
                ) + rest);
            }
        } else if c == ' ' {
            if !current_number.as_str().is_empty() {
                tokens.push(Token::Number(current_number));
                current_number = String::new();
            }
            proof {
                assert(current_number@ =~= Seq::<char>::empty());
                assert(lexemes(tokens@) =~= before + flush(pending));
                assert(before + (flush(pending) + rest) =~= lexemes(tokens@) + rest);
            }
        } else {
            proof {
                lemma_first_unrecognized(expression@);
            }
            return Err(EvalError::InvalidCharacter(c));
        }
    }
    proof {
        lemma_first_unrecognized(expression@);
        assert(expression@.skip(expression@.len() as int) =~= Seq::empty());
    }
    let ghost before = lexemes(tokens@);
    let ghost pending = current_number@;
    if !current_number.as_str().is_empty() {
        tokens.push(Token::Number(current_number));
    }
    proof {
        assert(lexemes(tokens@) =~= before + flush(pending));
    }
    Ok(tokens)
}

/// Every lexeme that the tokenizer makes is well formed.
pub proof fn lemma_scan_well_formed(text: Seq<char>, pending: Seq<char>)
    requires
        forall|i: int| 0 <= i < pending.len() ==> is_numeric(#[trigger] pending[i]),
    ensures
        all_well_formed(scan(text, pending)),
    decreases text.len(),
{
    if text.len() != 0 {
        if is_numeric(text[0]) {
            lemma_scan_well_formed(text.drop_first(), pending.push(text[0]));
        } else {
            lemma_scan_well_formed(text.drop_first(), Seq::empty());
        }
    }
}

/// The characters that a lexeme was made from.
pub open spec fn spelling(lexeme: Lexeme) -> Seq<char> {
    match lexeme {
        Lexeme::Number(text) => text,
        Lexeme::Operator(symbol) => seq![symbol],
    }
}

/// The characters that the lexemes were made from, in order.
pub open spec fn spelled(lexemes: Seq<Lexeme>) -> Seq<char>
    decreases lexemes.len(),
{
    if lexemes.len() == 0 {
        Seq::empty()
    } else {
        spelling(lexemes[0]) + spelled(lexemes.drop_first())
    }
}

/// The characters of `text` that go into tokens: all but the separators.
pub open spec fn significant(text: Seq<char>) -> Seq<char>
    decreases text.len(),
{
    if text.len() == 0 {
        Seq::empty()
    } else if is_numeric(text[0]) || is_symbol(text[0]) {
        seq![text[0]] + significant(text.drop_first())
    } else {
        significant(text.drop_first())
    }
}

/// The pending characters go before what the lexemes after them spell.
proof fn lemma_spelled_after_flush(pending: Seq<char>, rest: Seq<Lexeme>)
    ensures
        spelled(flush(pending) + rest) == pending + spelled(rest),
{
    if pending.len() == 0 {
        assert(flush(pending) + rest =~= rest);
        assert(pending + spelled(rest) =~= spelled(rest));
    } else {
        assert((flush(pending) + rest).drop_first() =~= rest);
    }
}

/// The tokenizer drops nothing but separators and keeps the order: spelled
/// out one after the other, the lexemes give the pending characters and then
/// the text without its separators.
pub proof fn lemma_scan_keeps_characters(text: Seq<char>, pending: Seq<char>)
    ensures
        spelled(scan(text, pending)) == pending + significant(text),
    decreases text.len(),
{
    if text.len() == 0 {
        lemma_spelled_after_flush(pending, Seq::empty());
        assert(flush(pending) + Seq::<Lexeme>::empty() =~= flush(pending));
        assert(spelled(Seq::<Lexeme>::empty()) =~= Seq::<char>::empty());
        assert(pending + Seq::<char>::empty() =~= pending);
    } else {
        let c = text[0];
        let rest = text.drop_first();
        if is_numeric(c) {
            lemma_scan_keeps_characters(rest, pending.push(c));
            assert(pending.push(c) + significant(rest) =~= pending + (seq![c] + significant(rest)));
        } else if is_symbol(c) {
            lemma_scan_keeps_characters(rest, Seq::empty());
            let tail = seq![Lexeme::Operator(c)] + scan(rest, Seq::empty());
            assert(tail.drop_first() =~= scan(rest, Seq::empty()));
            assert(Seq::<char>::empty() + significant(rest) =~= significant(rest));
            assert(scan(text, pending) =~= flush(pending) + tail);
            lemma_spelled_after_flush(pending, tail);
        } else {
            lemma_scan_keeps_characters(rest, Seq::empty());
            assert(Seq::<char>::empty() + significant(rest) =~= significant(rest));
            lemma_spelled_after_flush(pending, scan(rest, Seq::empty()));
        }
    }
}

/// A space changes no lexeme unless it parts two characters of a number.
proof fn lemma_scan_space(before: Seq<char>, after: Seq<char>, pending: Seq<char>)
    requires
        after.len() > 0 && is_numeric(after[0]) ==> if before.len() > 0 {
            !is_numeric(before.last())
        } else {
            pending.len() == 0
        },
    ensures
        scan(before + seq![' '] + after, pending) == scan(before + after, pending),
    decreases before.len(),
{
    let with = before + seq![' '] + after;
    let without = before + after;
    if before.len() == 0 {
        assert(with.drop_first() =~= after);
        assert(without =~= after);
        assert(with[0] == ' ');
        assert(scan(with, pending) == flush(pending) + scan(after, Seq::empty()));
        assert(flush(Seq::<char>::empty()) =~= Seq::<Lexeme>::empty());
        if after.len() == 0 {
            assert(flush(pending) + flush(Seq::empty()) =~= flush(pending));
        } else if is_numeric(after[0]) {
            assert(pending =~= Seq::<char>::empty());
            assert(flush(pending) + scan(after, Seq::empty()) =~= scan(after, pending));
        } else {
            let tail = scan(after.drop_first(), Seq::empty());
            if is_symbol(after[0]) {
                let symbol = seq![Lexeme::Operator(after[0])];
                assert(scan(after, Seq::empty()) =~= symbol + tail);
                assert(flush(pending) + (symbol + tail) =~= flush(pending) + symbol + tail);
            } else {
                assert(scan(after, Seq::empty()) =~= tail);
            }
        }
    } else {
        let c = before[0];
        let rest = before.drop_first();
        assert(with.drop_first() =~= rest + seq![' '] + after);
        assert(without.drop_first() =~= rest + after);
        assert(with[0] == c && without[0] == c);
        if rest.len() > 0 {
            assert(rest.last() == before.last());
        }
        if is_numeric(c) {
            lemma_scan_space(rest, after, pending.push(c));
        } else {
            lemma_scan_space(rest, after, Seq::empty());
        }
    }
}

/// A space moves the first character that is not accepted by one place at
/// most, and only where it stands before it.
proof fn lemma_first_unrecognized_space(before: Seq<char>, after: Seq<char>)
    ensures
        first_unrecognized(before + seq![' '] + after) == if first_unrecognized(before + after)
            < before.len() {
            first_unrecognized(before + after)
        } else {
            first_unrecognized(before + after) + 1
        },
    decreases before.len(),
{
    let with = before + seq![' '] + after;
    let without = before + after;
    if before.len() == 0 {
        assert(with.drop_first() =~= after);
        assert(without =~= after);
        assert(with[0] == ' ');
        lemma_first_unrecognized(after);
    } else {
        let rest = before.drop_first();
        assert(with.drop_first() =~= rest + seq![' '] + after);
        assert(without.drop_first() =~= rest + after);
        assert(with[0] == before[0] && without[0] == before[0]);
        lemma_first_unrecognized_space(rest, after);
    }
}

/// Spaces do not matter but between two characters of a number: a space put
/// anywhere else changes neither the lexemes nor the error.
pub proof fn lemma_space_is_insignificant(before: Seq<char>, after: Seq<char>)
    requires
        !(before.len() > 0 && is_numeric(before.last()) && after.len() > 0 && is_numeric(after[0])),
    ensures
        spec_tokenize(before + seq![' '] + after) == spec_tokenize(before + after),
{
    let with = before + seq![' '] + after;
    let without = before + after;
    lemma_scan_space(before, after, Seq::empty());
    lemma_first_unrecognized_space(before, after);
    lemma_first_unrecognized(without);
    let stop = first_unrecognized(without);
    if stop < without.len() {
        if stop < before.len() {
            assert(with[stop] == without[stop]);
        } else {
            assert(with[stop + 1] == without[stop]);
        }
    }
}

} // verus!
