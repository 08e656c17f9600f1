//! Reading cell values from text.
//!
//! A text is tried, in this order, as nothing, as an amount of money, as a
//! plain number and as a percentage; what is none of these stays text.

use vstd::prelude::*;
use vstd::std_specs::iter::IteratorSpec;
use crate::decimal::parsed_decimal;
use crate::decimal::spec_hundredth;
use crate::decimal::Decimal;
use crate::decimal::DecimalModel;

verus! {

/// Whether `c` is white space: one of the characters with the Unicode
/// property of that name.
pub open spec fn is_white_space(c: char) -> bool {
    let u = c as u32;
    ||| 0x09 <= u <= 0x0d
    ||| u == 0x20
    ||| u == 0x85
    ||| u == 0xa0
    ||| u == 0x1680
    ||| 0x2000 <= u <= 0x200a
    ||| u == 0x2028
    ||| u == 0x2029
    ||| u == 0x202f
    ||| u == 0x205f
    ||| u == 0x3000
}

/// The text without the white space at its start.
pub open spec fn trimmed_start(text: Seq<char>) -> Seq<char>
    decreases text.len(),
{
    if text.len() > 0 && is_white_space(text[0]) {
        trimmed_start(text.skip(1))
    } else {
        text
    }
}

/// The text without the white space at its end.
pub open spec fn trimmed_end(text: Seq<char>) -> Seq<char>
    decreases text.len(),
{
    if text.len() > 0 && is_white_space(text.last()) {
        trimmed_end(text.drop_last())
    } else {
        text
    }
}

/// The text without the white space at its start and at its end.
pub open spec fn trimmed(text: Seq<char>) -> Seq<char> {
    trimmed_end(trimmed_start(text))
}

/// Whether `c` is white space.
pub fn white_space(c: char) -> (r: bool)
    ensures
        r == is_white_space(c),
{
    let u: u32 = c as u32;
    (0x09 <= u && u <= 0x0d) || u == 0x20 || u == 0x85 || u == 0xa0 || u == 0x1680 || (0x2000 <= u && u
        <= 0x200a) || u == 0x2028 || u == 0x2029 || u == 0x202f || u == 0x205f || u == 0x3000
}

/// A text whose first `from` characters are white space and whose next one,
/// if there is one, is not, is without them once its start is trimmed.
proof fn lemma_trimmed_start(text: Seq<char>, from: int)
    requires
        0 <= from <= text.len(),
        forall|k: int| 0 <= k < from ==> is_white_space(#[trigger] text[k]),
        from < text.len() ==> !is_white_space(text[from]),
    ensures
        trimmed_start(text) == text.skip(from),
    decreases from,
{
    if from == 0 {
        assert(text.skip(0) =~= text);
    } else {
        let rest = text.skip(1);
        assert forall|k: int| 0 <= k < from - 1 implies is_white_space(#[trigger] rest[k]) by {
            assert(rest[k] == text[k + 1]);
        }
        lemma_trimmed_start(rest, from - 1);
        assert(rest.skip(from - 1) =~= text.skip(from));
    }
}

/// A text whose characters from `to` on are white space and whose character
/// before them, if there is one, is not, is without them once its end is
/// trimmed.
proof fn lemma_trimmed_end(text: Seq<char>, to: int)
    requires
        0 <= to <= text.len(),
        forall|k: int| to <= k < text.len() ==> is_white_space(#[trigger] text[k]),
        0 < to ==> !is_white_space(text[to - 1]),
    ensures
        trimmed_end(text) == text.take(to),
    decreases text.len() - to,
{
    if to == text.len() {
        assert(text.take(to) =~= text);
    } else {
        let rest = text.drop_last();
        assert forall|k: int| to <= k < rest.len() implies is_white_space(#[trigger] rest[k]) by {
            assert(rest[k] == text[k]);
        }
        lemma_trimmed_end(rest, to);
        assert(rest.take(to) =~= text.take(to));
    }
}

/// The text without the white space at its start and at its end, in a string
/// of its own.
pub fn trim_text(text: &str) -> (r: String)
    ensures
        r@ == trimmed(text@),
{
    broadcast use vstd::string::group_string_axioms;

    let n = text.unicode_len();
    let mut from: usize = 0;
    let mut to: usize = 0;
    let mut seen = false;
    let mut i: usize = 0;
    for c in it: text.chars()
        invariant
            it.seq() == text@,
            n == text@.len(),
            i == it.index(),
            !seen ==> forall|k: int| 0 <= k < i ==> is_white_space(#[trigger] text@[k]),
            seen ==> {
                &&& from < to <= i
                &&& !is_white_space(text@[from as int])
                &&& !is_white_space(text@[to - 1])
                &&& forall|k: int| 0 <= k < from ==> is_white_space(#[trigger] text@[k])
                &&& forall|k: int| to <= k < i ==> is_white_space(#[trigger] text@[k])
            },
    {
        if !white_space(c) {
            if !seen {
                from = i;
                seen = true;
            }
            to = i + 1;
        }
        i = i + 1;
    }
    if !seen {
        proof {
            lemma_trimmed_start(text@, n as int);
            assert(text@.skip(n as int) =~= Seq::<char>::empty());
        }
        return String::new();
    }
    let kept = text.substring_char(from, to);
    proof {
        lemma_trimmed_start(text@, from as int);
        let tail = text@.skip(from as int);
        assert forall|k: int| to - from <= k < tail.len() implies is_white_space(#[trigger] tail[k]) by {
            assert(tail[k] == text@[k + from]);
        }
        assert(tail[to - from - 1] == text@[to - 1]);
        lemma_trimmed_end(tail, to - from);
        assert(tail.take(to - from) =~= text@.subrange(from as int, to as int));
    }
    String::from_str(kept)
}

/// Whether `c` is one of the currency symbols that start an amount of money.
pub open spec fn is_currency_symbol(c: char) -> bool {
    c == '$' || c == '€' || c == '£' || c == '¥'
}

/// The symbol and the number of an amount of money: a currency symbol
/// followed by what reads as a number.
pub open spec fn spec_unpack_currency(text: Seq<char>) -> Option<(Seq<char>, DecimalModel)> {
    if text.len() > 0 && is_currency_symbol(text[0]) && parsed_decimal(text.skip(1)) is Some {
        Some((seq![text[0]], parsed_decimal(text.skip(1))->0))
    } else {
        None
    }
}

/// The fraction that a percentage stands for: what reads as a number before
/// a final `%`, divided by a hundred.
pub open spec fn spec_unpack_percentage(text: Seq<char>) -> Option<DecimalModel> {
    if text.len() > 0 && text.last() == '%' {
        match parsed_decimal(text.drop_last()) {
            Some(d) => spec_hundredth(d),
            None => None,
        }
    } else {
        None
    }
}

/// The symbol and the number of an amount of money, if `text` is one.
pub fn unpack_currency(text: &str) -> (r: Option<(String, Decimal)>)
    ensures
        match r {
            Some((symbol, number)) => spec_unpack_currency(text@) == Some((symbol@, number@)),
            None => spec_unpack_currency(text@) is None,
        },
{
    let n = text.unicode_len();
    if n == 0 {
        return None;
    }
    let first = text.get_char(0);
    if !(first == '$' || first == '€' || first == '£' || first == '¥') {
        return None;
    }
    let rest = text.substring_char(1, n);
    proof {
        assert(rest@ =~= text@.skip(1));
    }
    match Decimal::parse(rest) {
        Some(number) => {
            let symbol = text.substring_char(0, 1);
            proof {
                assert(symbol@ =~= seq![text@[0]]);
            }
            Some((String::from_str(symbol), number))
        },
        None => None,
    }
}

/// The fraction that a percentage stands for, if `text` is one.
pub fn unpack_percentage(text: &str) -> (r: Option<Decimal>)
    ensures
        match r {
            Some(number) => spec_unpack_percentage(text@) == Some(number@),
            None => spec_unpack_percentage(text@) is None,
        },
{
    let n = text.unicode_len();
    if n == 0 {
        return None;
    }
    let last = text.get_char(n - 1);
    if last != '%' {
        return None;
    }
    let rest = text.substring_char(0, n - 1);
    proof {
        assert(rest@ =~= text@.drop_last());
    }
    match Decimal::parse(rest) {
        Some(number) => number.hundredth(),
        None => None,
    }
}

/// `String::push`: appends one character to the text.
#[verifier::external_body]
pub(crate) fn push_char(text: &mut String, c: char)
    ensures
        final(text)@ == old(text)@.push(c),
{
    text.push(c);
}

/// The character of the decimal digit `d`.
pub open spec fn digit_char(d: nat) -> char {
    if d == 0 {
        '0'
    } else if d == 1 {
        '1'
    } else if d == 2 {
        '2'
    } else if d == 3 {
        '3'
    } else if d == 4 {
        '4'
    } else if d == 5 {
        '5'
    } else if d == 6 {
        '6'
    } else if d == 7 {
        '7'
    } else if d == 8 {
        '8'
    } else {
        '9'
    }
}

/// The decimal digits of `n`, the most significant first and no zero in
/// front but for zero itself.
pub open spec fn natural_text(n: nat) -> Seq<char>
    decreases n,
{
    if n < 10 {
        seq![digit_char(n)]
    } else {
        natural_text(n / 10).push(digit_char(n % 10))
    }
}

/// The character of one decimal digit.
fn digit(d: u128) -> (c: char)
    requires
        d < 10,
    ensures
        c == digit_char(d as nat),
{
    if d == 0 {
        '0'
    } else if d == 1 {
        '1'
    } else if d == 2 {
        '2'
    } else if d == 3 {
        '3'
    } else if d == 4 {
        '4'
    } else if d == 5 {
        '5'
    } else if d == 6 {
        '6'
    } else if d == 7 {
        '7'
    } else if d == 8 {
        '8'
    } else {
        '9'
    }
}

/// Appends the decimal digits of `n` to the text.
pub fn push_natural(text: &mut String, n: u128)
    ensures
        final(text)@ == old(text)@ + natural_text(n as nat),
    decreases n,
{
    let ghost before = text@;
    if n >= 10 {
        push_natural(text, n / 10);
    }
    push_char(text, digit(n % 10));
    proof {
        assert(text@ =~= before + natural_text(n as nat));
    }
}

/// The pieces of `s` between the occurrences of `sep`: one more piece than
/// there are occurrences, each without `sep`.
pub open spec fn split_spec(s: Seq<char>, sep: char) -> Seq<Seq<char>>
    decreases s.len(),
{
    if s.len() == 0 {
        seq![Seq::empty()]
    } else {
        let prev = split_spec(s.drop_last(), sep);
        if s.last() == sep {
            prev.push(Seq::empty())
        } else {
            prev.drop_last().push(prev.last().push(s.last()))
        }
    }
}

/// The texts of a list of strings.
pub open spec fn texts(v: Seq<String>) -> Seq<Seq<char>> {
    Seq::new(v.len(), |i: int| v[i]@)
}

/// The pieces of `text` between the occurrences of `sep`.
pub fn split(text: &str, sep: char) -> (pieces: Vec<String>)
    ensures
        texts(pieces@) == split_spec(text@, sep),
{
    broadcast use vstd::string::group_string_axioms;

    let mut pieces: Vec<String> = Vec::new();
    let mut current = String::new();
    proof {
        assert(text@.take(0) =~= Seq::<char>::empty());
        assert(texts(pieces@).push(current@) =~= split_spec(text@.take(0), sep));
    }
    for c in it: text.chars()
        invariant
            it.seq() == text@,
            texts(pieces@).push(current@) == split_spec(text@.take(it.index()), sep),
    {
        let ghost before = texts(pieces@).push(current@);
        let ghost done = text@.take(it.index());
        let ghost next = text@.take(it.index() + 1);
        proof {
            assert(next.drop_last() =~= done);
            assert(next.last() == c);
        }
        if c == sep {
            let ghost held = current@;
            pieces.push(current);
            current = String::new();
            proof {
                assert(texts(pieces@) =~= before);
                assert(texts(pieces@).push(current@) =~= before.push(Seq::empty()));
            }
        } else {
            push_char(&mut current, c);
            proof {
                assert(before.drop_last() =~= texts(pieces@));
                assert(texts(pieces@).push(current@) =~= before.drop_last().push(before.last().push(c)));
            }
        }
    }
    proof {
        assert(text@.take(text@.len() as int) =~= text@);
    }
    let ghost before = texts(pieces@).push(current@);
    pieces.push(current);
    proof {
        assert(texts(pieces@) =~= before);
    }
    pieces
}

} // verus!
