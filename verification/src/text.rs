//! Decimal numbers and dot-separated names as text.

use vstd::prelude::*;

use crate::written::pieces_of_text;

verus! {

/// The value of a decimal digit.
pub open spec fn digit_value(c: char) -> Option<nat> {
    if '0' <= c <= '9' {
        Some((c as int - '0' as int) as nat)
    } else {
        None
    }
}

/// The number that a non-empty run of decimal digits stands for.
pub open spec fn digits_value(digits: Seq<char>) -> Option<nat>
    decreases digits.len(),
{
    if digits.len() == 0 {
        None
    } else if digits.len() == 1 {
        digit_value(digits[0])
    } else {
        match (digits_value(digits.drop_last()), digit_value(digits.last())) {
            (Some(high), Some(low)) => Some(10 * high + low),
            _ => None,
        }
    }
}

/// The `i64` that a text stands for: an optional sign, then decimal digits and
/// nothing else, within the range of the type.
pub open spec fn parsed_i64(text: Seq<char>) -> Option<i64> {
    let negative = text.len() > 0 && text[0] == '-';
    let signed = negative || (text.len() > 0 && text[0] == '+');
    match digits_value(
        if signed {
            text.skip(1)
        } else {
            text
        },
    ) {
        Some(size) => {
            let value: int = if negative {
                -(size as int)
            } else {
                size as int
            };
            if i64::MIN <= value <= i64::MAX {
                Some(value as i64)
            } else {
                None
            }
        },
        None => None,
    }
}

/// `str::parse::<i64>`. It succeeds exactly on the texts that `parsed_i64` gives
/// a value for, with that value. Which of std's reasons a failure carries is
/// left unsaid.
#[verifier::external_body]
pub(crate) fn parse_i64(text: &str) -> (parsed: Result<i64, std::num::ParseIntError>)
    ensures
        match parsed {
            Ok(value) => parsed_i64(text@) == Some(value),
            Err(_) => parsed_i64(text@) is None,
        },
{
    text.parse::<i64>()
}

/// The character for a digit.
pub open spec fn digit_char(digit: nat) -> char {
    ('0' as int + digit) as char
}

/// The decimal digits of a number, without leading zeros.
pub open spec fn digits_text(n: nat) -> Seq<char>
    decreases n,
{
    if n < 10 {
        seq![digit_char(n)]
    } else {
        digits_text(n / 10).push(digit_char(n % 10))
    }
}

/// A number in decimal, with a minus sign if it is negative.
pub open spec fn decimal_text(n: int) -> Seq<char> {
    if n < 0 {
        seq!['-'] + digits_text((-n) as nat)
    } else {
        digits_text(n as nat)
    }
}

fn digit_str(digit: u64) -> (text: &'static str)
    requires
        digit < 10,
    ensures
        text@ == seq![digit_char(digit as nat)],
{
    proof {
        reveal_strlit("0");
        reveal_strlit("1");
        reveal_strlit("2");
        reveal_strlit("3");
        reveal_strlit("4");
        reveal_strlit("5");
        reveal_strlit("6");
        reveal_strlit("7");
        reveal_strlit("8");
        reveal_strlit("9");
    }
    match digit {
        0 => "0",
        1 => "1",
        2 => "2",
        3 => "3",
        4 => "4",
        5 => "5",
        6 => "6",
        7 => "7",
        8 => "8",
        _ => "9",
    }
}

fn write_digits(n: u64) -> (text: String)
    ensures
        text@ == digits_text(n as nat),
    decreases n,
{
    if n < 10 {
        digit_str(n).to_owned()
    } else {
        let mut text = write_digits(n / 10);
        text.append(digit_str(n % 10));
        assert(text@ =~= digits_text(n as nat));
        text
    }
}

/// Writes a number in decimal.
pub fn write_decimal(n: i32) -> (text: String)
    ensures
        text@ == decimal_text(n as int),
        parsed_i64(text@) == Some(n as i64),
{
    proof {
        decimal_reads_back(n as i64);
    }
    let wide: i64 = n as i64;
    if wide < 0 {
        proof {
            reveal_strlit("-");
        }
        let mut text = "-".to_owned();
        text.append(write_digits((-wide) as u64).as_str());
        assert(text@ =~= decimal_text(n as int));
        text
    } else {
        write_digits(wide as u64)
    }
}

/// Digits read back as the number they were written for.
proof fn lemma_digits_read_back(n: nat)
    ensures
        digits_text(n).len() > 0,
        digits_value(digits_text(n)) == Some(n),
        '0' <= digits_text(n)[0] <= '9',
    decreases n,
{
    if n >= 10 {
        lemma_digits_read_back(n / 10);
        let text = digits_text(n);
        assert(text.drop_last() =~= digits_text(n / 10));
        assert(text.last() == digit_char(n % 10));
        assert(digit_value(digit_char(n % 10)) == Some(n % 10));
        assert(text[0] == digits_text(n / 10)[0]);
    }
}

/// Every `i64` written in decimal parses back to itself.
pub proof fn decimal_reads_back(n: i64)
    ensures
        parsed_i64(decimal_text(n as int)) == Some(n),
{
    if n < 0 {
        lemma_digits_read_back((-n) as nat);
        assert(decimal_text(n as int).skip(1) =~= digits_text((-n) as nat));
    } else {
        lemma_digits_read_back(n as nat);
    }
}

/// The pieces of a text between its dots. There is always at least one; two dots
/// in a row, or one at either end, leave an empty piece.
pub open spec fn split_dots(text: Seq<char>) -> Seq<Seq<char>>
    decreases text.len(),
{
    if text.len() == 0 {
        seq![Seq::empty()]
    } else {
        let before = split_dots(text.drop_last());
        if text.last() == '.' {
            before.push(Seq::empty())
        } else {
            before.update(before.len() - 1, before.last().push(text.last()))
        }
    }
}

/// Pieces joined with a dot between each two.
pub open spec fn join_dots(pieces: Seq<Seq<char>>) -> Seq<char>
    decreases pieces.len(),
{
    if pieces.len() == 0 {
        Seq::empty()
    } else if pieces.len() == 1 {
        pieces[0]
    } else {
        join_dots(pieces.drop_last()).push('.') + pieces.last()
    }
}

/// The contents of a list of strings.
pub open spec fn texts(strings: Seq<String>) -> Seq<Seq<char>> {
    strings.map_values(|string: String| string@)
}

/// Joining the pieces of a text gives the text back, and no piece holds a dot.
pub proof fn split_joins_back(text: Seq<char>)
    ensures
        split_dots(text).len() >= 1,
        join_dots(split_dots(text)) == text,
        forall|k: int|
            0 <= k < split_dots(text).len() ==> !(#[trigger] split_dots(text)[k]).contains('.'),
    decreases text.len(),
{
    if text.len() > 0 {
        let rest = text.drop_last();
        split_joins_back(rest);
        let before = split_dots(rest);
        let pieces = split_dots(text);
        if text.last() == '.' {
            assert(pieces.drop_last() =~= before);
            assert(join_dots(pieces) =~= text);
        } else {
            assert(pieces.drop_last() =~= before.drop_last());
            assert(pieces.last() == before.last().push(text.last()));
            assert(text =~= rest.push(text.last()));
            if before.len() == 1 {
                assert(pieces[0] == pieces.last());
                assert(before[0] == before.last());
            }
            assert(join_dots(pieces) =~= join_dots(before).push(text.last()));
            assert forall|k: int| 0 <= k < pieces.len() implies !(
            #[trigger] pieces[k]).contains('.') by {
                assert(!before[k].contains('.'));
                if k == pieces.len() - 1 && pieces[k].contains('.') {
                    let at = choose|at: int| 0 <= at < pieces[k].len() && pieces[k][at] == '.';
                    assert(at < before[k].len());
                    assert(before[k][at] == '.');
                }
            }
        }
    }
}

/// A text without a dot, put behind another, goes into the last piece.
proof fn lemma_split_append(text: Seq<char>, more: Seq<char>)
    requires
        !more.contains('.'),
    ensures
        split_dots(text).len() >= 1,
        split_dots(text + more) == split_dots(text).update(
            split_dots(text).len() - 1,
            split_dots(text).last() + more,
        ),
    decreases more.len(),
{
    split_joins_back(text);
    let before = split_dots(text);
    if more.len() == 0 {
        assert(text + more =~= text);
        assert(before.last() + more =~= before.last());
        assert(before =~= before.update(before.len() - 1, before.last() + more));
    } else {
        let rest = more.drop_last();
        assert(!rest.contains('.')) by {
            if rest.contains('.') {
                let at = choose|at: int| 0 <= at < rest.len() && rest[at] == '.';
                assert(more[at] == '.');
            }
        }
        assert(more[more.len() - 1] != '.');
        lemma_split_append(text, rest);
        assert((text + more).drop_last() =~= text + rest);
        assert((before.last() + rest).push(more.last()) =~= before.last() + more);
        assert(split_dots(text + more) =~= before.update(before.len() - 1, before.last() + more));
    }
}

/// Pieces without dots, joined and split again, are the same pieces.
pub proof fn join_splits_back(pieces: Seq<Seq<char>>)
    requires
        pieces.len() > 0,
        forall|k: int| 0 <= k < pieces.len() ==> !(#[trigger] pieces[k]).contains('.'),
    ensures
        split_dots(join_dots(pieces)) == pieces,
    decreases pieces.len(),
{
    if pieces.len() == 1 {
        split_without_dot(pieces[0]);
        assert(pieces =~= seq![pieces[0]]);
    } else {
        let front = pieces.drop_last();
        assert forall|k: int| 0 <= k < front.len() implies !(#[trigger] front[k]).contains('.') by {
            assert(front[k] == pieces[k]);
        }
        join_splits_back(front);
        let text = join_dots(front).push('.');
        assert(text.drop_last() =~= join_dots(front));
        assert(split_dots(text) =~= front.push(Seq::empty()));
        lemma_split_append(text, pieces.last());
        assert(Seq::<char>::empty() + pieces.last() =~= pieces.last());
        assert(split_dots(join_dots(pieces)) =~= pieces);
    }
}

/// A text without a dot is its own only piece.
pub proof fn split_without_dot(text: Seq<char>)
    requires
        !text.contains('.'),
    ensures
        split_dots(text) == seq![text],
    decreases text.len(),
{
    if text.len() > 0 {
        let rest = text.drop_last();
        assert(!rest.contains('.')) by {
            if rest.contains('.') {
                let at = choose|at: int| 0 <= at < rest.len() && rest[at] == '.';
                assert(text[at] == '.');
            }
        }
        assert(text[text.len() - 1] != '.');
        split_without_dot(rest);
        assert(rest.push(text.last()) =~= text);
        assert(split_dots(text) =~= seq![text]);
    } else {
        assert(text =~= Seq::empty());
    }
}

/// The pieces of `text` between its dots.
pub fn split_path(text: &str) -> (pieces: Vec<String>)
    ensures
        texts(pieces@) == split_dots(text@),
        pieces@.len() >= 1,
        forall|k: int| 0 <= k < pieces@.len() ==> !(#[trigger] pieces@[k])@.contains('.'),
        text@ == texts(pieces@).skip(1).fold_left(
            pieces@[0]@,
            |text: Seq<char>, piece: Seq<char>| text.push('.') + piece,
        ),
{
    let mut pieces: Vec<String> = Vec::new();
    let mut start: usize = 0;
    let mut at: usize = 0;
    let len = text.unicode_len();
    proof {
        assert(text@.take(0) =~= Seq::empty());
        assert(text@.subrange(0, 0) =~= Seq::empty());
        assert(split_dots(text@.take(0)) =~= texts(pieces@).push(text@.subrange(0, 0)));
    }
    while at < len
        invariant
            len == text@.len(),
            start <= at <= len,
            split_dots(text@.take(at as int)) == texts(pieces@).push(
                text@.subrange(start as int, at as int),
            ),
        decreases len - at,
    {
        let ghost before = text@.take(at as int);
        let ghost shown = text@.take(at + 1);
        proof {
            assert(shown.drop_last() =~= before);
            assert(shown.last() == text@[at as int]);
        }
        if text.get_char(at) == '.' {
            let ghost old_pieces = texts(pieces@);
            pieces.push(text.substring_char(start, at).to_owned());
            start = at + 1;
            proof {
                assert(texts(pieces@) =~= old_pieces.push(split_dots(before).last()));
                assert(texts(pieces@) =~= split_dots(before));
                assert(text@.subrange(start as int, at + 1) =~= Seq::empty());
            }
        } else {
            proof {
                assert(text@.subrange(start as int, at + 1) =~= text@.subrange(
                    start as int,
                    at as int,
                ).push(text@[at as int]));
                assert(split_dots(shown) =~= texts(pieces@).push(
                    text@.subrange(start as int, at + 1),
                ));
            }
        }
        at = at + 1;
    }
    assert(text@.take(len as int) =~= text@);
    let ghost old_pieces = texts(pieces@);
    pieces.push(text.substring_char(start, len).to_owned());
    proof {
        assert(texts(pieces@) =~= old_pieces.push(text@.subrange(start as int, len as int)));
        pieces_of_text(text@, split_dots(text@));
        assert forall|k: int| 0 <= k < pieces@.len() implies !(
        #[trigger] pieces@[k])@.contains('.') by {
            assert(texts(pieces@)[k] == pieces@[k]@);
        }
    }
    pieces
}

} // verus!
