//! What numbers, names and errors look like as text, said of their characters.

use vstd::arithmetic::div_mod::lemma_div_denominator;
use vstd::arithmetic::power::{lemma_pow0, lemma_pow1, lemma_pow_positive, pow};
use vstd::prelude::*;

use crate::error::{
    context_text, error_text, kind_text, Error, ErrorKind, ErrorView, Source, SourceKind,
};
use crate::text::{
    decimal_text, digit_char, digits_text, digits_value, join_dots, parsed_i64,
    split_dots, split_joins_back, texts,
};

verus! {

proof fn lemma_digits(n: nat, k: int)
    ensures
        digits_text(n).len() >= 1,
        n < pow(10, digits_text(n).len()),
        digits_text(n).len() > 1 ==> pow(10, (digits_text(n).len() - 1) as nat) <= n,
        0 <= k < digits_text(n).len() ==> digits_text(n)[k] as int == '0' as int + (n as int / pow(
            10,
            (digits_text(n).len() - 1 - k) as nat,
        )) % 10,
    decreases n,
{
    let text = digits_text(n);
    lemma_pow0(10);
    lemma_pow1(10);
    reveal(pow);
    if n >= 10 {
        let high = n / 10;
        let front = digits_text(high);
        lemma_digits(high, k);
        assert(text.len() == front.len() + 1);
        assert(pow(10, text.len()) == 10 * pow(10, front.len()));
        assert(pow(10, front.len()) == 10 * pow(10, (front.len() - 1) as nat));
        if 0 <= k < front.len() {
            let e = (front.len() - 1 - k) as nat;
            lemma_pow_positive(10, e);
            lemma_div_denominator(n as int, 10, pow(10, e));
            assert(pow(10, (text.len() - 1 - k) as nat) == 10 * pow(10, e));
            assert(text[k] == front[k]);
        } else if k == front.len() {
            assert(text[k] == digit_char(n % 10));
            assert(n as int / pow(10, 0) == n);
        }
    } else if k == 0 {
        assert(text[k] == digit_char(n));
        assert(n as int / pow(10, 0) == n);
    }
}

/// A number that is not negative is written with the digits that it has to base
/// ten, the most significant first, without leading zeros; a negative one as a minus
/// sign and its size.
pub proof fn decimal_digits(n: int, k: int)
    ensures
        n >= 0 ==> {
            let text = decimal_text(n);
            &&& text.len() >= 1
            &&& n < pow(10, text.len())
            &&& text.len() > 1 ==> pow(10, (text.len() - 1) as nat) <= n
            &&& 0 <= k < text.len() ==> text[k] as int == '0' as int + (n / pow(
                10,
                (text.len() - 1 - k) as nat,
            )) % 10
        },
        n < 0 ==> decimal_text(n) == seq!['-'] + decimal_text(-n),
{
    if n >= 0 {
        lemma_digits(n as nat, k);
    }
}

proof fn lemma_digits_fold(text: Seq<char>)
    requires
        text.len() > 0,
        forall|k: int| 0 <= k < text.len() ==> '0' <= #[trigger] text[k] <= '9',
    ensures
        digits_value(text) matches Some(value) && value as int == text.fold_left(
            0int,
            |value: int, c: char| 10 * value + (c as int - '0' as int),
        ),
    decreases text.len(),
{
    let step = |value: int, c: char| 10 * value + (c as int - '0' as int);
    let front = text.drop_last();
    assert('0' <= text[text.len() - 1] <= '9');
    if text.len() == 1 {
        assert(front.fold_left(0int, step) == 0);
        assert(text.last() == text[0]);
    } else {
        assert forall|k: int| 0 <= k < front.len() implies '0' <= #[trigger] front[k] <= '9' by {
            assert(front[k] == text[k]);
        }
        lemma_digits_fold(front);
    }
}

proof fn lemma_digits_none(text: Seq<char>, k: int)
    requires
        text.len() == 0 || (0 <= k < text.len() && !('0' <= text[k] <= '9')),
    ensures
        digits_value(text) is None,
    decreases text.len(),
{
    if text.len() > 1 && k < text.len() - 1 {
        assert(text.drop_last()[k] == text[k]);
        lemma_digits_none(text.drop_last(), k);
    }
}

/// A text of digits, with or without a sign before it, parses as the number that the
/// digits make to base ten, if an `i64` holds it, and otherwise not at all.
pub proof fn digits_parse(digits: Seq<char>)
    requires
        digits.len() > 0,
        forall|k: int| 0 <= k < digits.len() ==> '0' <= #[trigger] digits[k] <= '9',
    ensures
        ({
            let value = digits.fold_left(
                0int,
                |value: int, c: char| 10 * value + (c as int - '0' as int),
            );
            &&& 0 <= value
            &&& value <= i64::MAX ==> parsed_i64(digits) == Some(value as i64)
            &&& value > i64::MAX ==> parsed_i64(digits) is None
            &&& parsed_i64(seq!['+'] + digits) == parsed_i64(digits)
            &&& -value >= i64::MIN ==> parsed_i64(seq!['-'] + digits) == Some((-value) as i64)
            &&& -value < i64::MIN ==> parsed_i64(seq!['-'] + digits) is None
        }),
{
    lemma_digits_fold(digits);
    assert('0' <= digits[0] <= '9');
    assert((seq!['+'] + digits).skip(1) =~= digits);
    assert((seq!['-'] + digits).skip(1) =~= digits);
}

/// A text that parses is one or more digits, with or without one sign before them.
pub proof fn parsed_is_digits(text: Seq<char>)
    requires
        parsed_i64(text) is Some,
    ensures
        text.len() > 0,
        text[0] == '+' || text[0] == '-' ==> text.len() > 1 && forall|k: int|
            1 <= k < text.len() ==> '0' <= #[trigger] text[k] <= '9',
        text[0] != '+' && text[0] != '-' ==> forall|k: int|
            0 <= k < text.len() ==> '0' <= #[trigger] text[k] <= '9',
{
    if text.len() == 0 {
        lemma_digits_none(text, 0);
    } else if text[0] == '+' || text[0] == '-' {
        let digits = text.skip(1);
        if digits.len() == 0 {
            lemma_digits_none(digits, 0);
        }
        assert forall|k: int| 1 <= k < text.len() implies '0' <= #[trigger] text[k] <= '9' by {
            assert(digits[k - 1] == text[k]);
            if !('0' <= text[k] <= '9') {
                lemma_digits_none(digits, k - 1);
            }
        }
    } else {
        assert forall|k: int| 0 <= k < text.len() implies '0' <= #[trigger] text[k] <= '9' by {
            if !('0' <= text[k] <= '9') {
                lemma_digits_none(text, k);
            }
        }
    }
}

/// Joining with dots is appending each piece with a dot before it.
pub proof fn join_is_fold(pieces: Seq<Seq<char>>)
    requires
        pieces.len() > 0,
    ensures
        join_dots(pieces) == pieces.skip(1).fold_left(
            pieces[0],
            |text: Seq<char>, piece: Seq<char>| text.push('.') + piece,
        ),
    decreases pieces.len(),
{
    let step = |text: Seq<char>, piece: Seq<char>| text.push('.') + piece;
    if pieces.len() == 1 {
        assert(pieces.skip(1) =~= Seq::empty());
        assert(Seq::<Seq<char>>::empty().fold_left(pieces[0], step) == pieces[0]);
    } else {
        let front = pieces.drop_last();
        join_is_fold(front);
        assert(pieces.skip(1).drop_last() =~= front.skip(1));
        assert(pieces.skip(1).last() == pieces.last());
    }
}

/// The pieces of a text: none holds a dot, and put together again with a dot between
/// each two they are the text. No other pieces are like that.
pub proof fn pieces_of_text(text: Seq<char>, others: Seq<Seq<char>>)
    ensures
        ({
            let pieces = split_dots(text);
            &&& pieces.len() >= 1
            &&& forall|k: int| 0 <= k < pieces.len() ==> !(#[trigger] pieces[k]).contains('.')
            &&& text == pieces.skip(1).fold_left(
                pieces[0],
                |text: Seq<char>, piece: Seq<char>| text.push('.') + piece,
            )
            &&& (others.len() >= 1 && (forall|k: int|
                0 <= k < others.len() ==> !(#[trigger] others[k]).contains('.')) && text
                == others.skip(1).fold_left(
                others[0],
                |text: Seq<char>, piece: Seq<char>| text.push('.') + piece,
            )) ==> others == pieces
        }),
{
    split_joins_back(text);
    join_is_fold(split_dots(text));
    if others.len() >= 1 && (forall|k: int|
        0 <= k < others.len() ==> !(#[trigger] others[k]).contains('.')) {
        join_is_fold(others);
        crate::text::join_splits_back(others);
    }
}

/// The texts of strings are their characters, one text for each string, in order.
pub proof fn texts_in_order(strings: Seq<String>)
    ensures
        texts(strings).len() == strings.len(),
        forall|k: int| 0 <= k < strings.len() ==> #[trigger] texts(strings)[k] == strings[k]@,
{
}

/// What contracts say of an error they say of its parts.
pub proof fn error_parts(error: Error)
    ensures
        error@.kind == error.kind,
        error@.message == error.message@,
        error@.context.len() == error.context@.len(),
        forall|k: int|
            0 <= k < error.context@.len() ==> #[trigger] error@.context[k] == (
                error.context@[k].0@,
                error.context@[k].1@,
            ),
        error@.source is Some <==> error.source is Some,
        error@.source == Some(SourceKind::ParseInt) <==> error.source matches Some(
            Source::ParseInt(_),
        ),
        error@.source == Some(SourceKind::Arrow) <==> error.source matches Some(Source::Arrow(_)),
{
}

/// An error as text starts with the word for its kind; then come the context entries,
/// each as key, colon and value, with a comma between each two; and last the message.
pub proof fn error_written(error: ErrorView)
    ensures
        kind_text(ErrorKind::DataInvalid) == "DataInvalid"@,
        kind_text(ErrorKind::Unexpected) == "Unexpected"@,
        ({
            let entries = error.context.map_values(
                |entry: (Seq<char>, Seq<char>)| entry.0 + ": "@ + entry.1,
            );
            let shown = if error.context.len() == 0 {
                Seq::empty()
            } else {
                ", context: { "@ + entries.skip(1).fold_left(
                    entries[0],
                    |text: Seq<char>, entry: Seq<char>| text + ", "@ + entry,
                ) + " }"@
            };
            let message = if error.message.len() == 0 {
                Seq::empty()
            } else {
                " => "@ + error.message
            };
            error_text(error) == kind_text(error.kind) + shown + message
        }),
{
    let entries = error.context.map_values(
        |entry: (Seq<char>, Seq<char>)| entry.0 + ": "@ + entry.1,
    );
    if error.context.len() > 0 {
        lemma_context_fold(error.context);
    }
    let shown = if error.context.len() == 0 {
        Seq::empty()
    } else {
        ", context: { "@ + context_text(error.context) + " }"@
    };
    let message = if error.message.len() == 0 {
        Seq::empty()
    } else {
        " => "@ + error.message
    };
    assert(error_text(error) =~= kind_text(error.kind) + shown + message);
}

proof fn lemma_context_fold(context: Seq<(Seq<char>, Seq<char>)>)
    requires
        context.len() > 0,
    ensures
        ({
            let entries = context.map_values(
                |entry: (Seq<char>, Seq<char>)| entry.0 + ": "@ + entry.1,
            );
            context_text(context) == entries.skip(1).fold_left(
                entries[0],
                |text: Seq<char>, entry: Seq<char>| text + ", "@ + entry,
            )
        }),
    decreases context.len(),
{
    let entries = context.map_values(|entry: (Seq<char>, Seq<char>)| entry.0 + ": "@ + entry.1);
    let step = |text: Seq<char>, entry: Seq<char>| text + ", "@ + entry;
    let front = context.drop_last();
    if context.len() == 1 {
        assert(context_text(front) =~= Seq::empty());
        assert(entries.skip(1) =~= Seq::empty());
        assert(Seq::<Seq<char>>::empty().fold_left(entries[0], step) == entries[0]);
        assert(context_text(context) =~= entries[0]);
    } else {
        lemma_context_fold(front);
        let front_entries = front.map_values(
            |entry: (Seq<char>, Seq<char>)| entry.0 + ": "@ + entry.1,
        );
        assert(entries.skip(1).drop_last() =~= front_entries.skip(1));
        assert(entries.skip(1).last() == context.last().0 + ": "@ + context.last().1);
        assert(context_text(context) =~= step(
            context_text(front),
            context.last().0 + ": "@ + context.last().1,
        ));
    }
}

} // verus!
