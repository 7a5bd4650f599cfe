//! How text falls into words, and how numbers are written.
use vstd::prelude::*;

use crate::text::{Decimal, Separator};

verus! {

/// True if the character separates words.
pub open spec fn is_blank(c: char) -> bool {
    c == ' ' || c == '\t' || c == '\n' || c == '\r'
}

/// True if the text consists of the given words, in this order, with blanks between them, and
/// maybe blanks in front and behind.
pub open spec fn laid_out(text: Seq<char>, words: Seq<Seq<char>>) -> bool
    decreases words.len(),
{
    if words.len() == 0 {
        forall|i: int| 0 <= i < text.len() ==> is_blank(#[trigger] text[i])
    } else {
        exists|start: int, end: int| #[trigger] last_word(text, words.last(), start, end)
            && laid_out(text.take(start), words.drop_last())
    }
}

/// True if the last word of the text is the given one and stands at the given place.
pub open spec fn last_word(text: Seq<char>, word: Seq<char>, start: int, end: int) -> bool {
    &&& 0 <= start < end <= text.len()
    &&& word == text.subrange(start, end)
    &&& start > 0 ==> is_blank(text[start - 1])
    &&& forall|i: int| start <= i < end ==> !is_blank(#[trigger] text[i])
    &&& forall|i: int| end <= i < text.len() ==> is_blank(#[trigger] text[i])
}

/// Text behind which there are no separators becomes part of the last part.
proof fn lemma_parts_append(separator: Separator, text: Seq<char>, tail: Seq<char>)
    requires
        forall|i: int| 0 <= i < tail.len() ==> !separator.splits_at(#[trigger] tail[i]),
    ensures
        separator.parts(text).len() > 0,
        separator.parts(text + tail) == separator.parts(text).drop_last().push(
            separator.parts(text).last() + tail,
        ),
    decreases tail.len(),
{
    lemma_parts_nonempty(separator, text);
    let before = separator.parts(text);
    if tail.len() == 0 {
        assert(text + tail =~= text);
        assert(before.last() + tail =~= before.last());
        assert(before.drop_last().push(before.last()) =~= before);
    } else {
        let less = tail.drop_last();
        assert forall|i: int| 0 <= i < less.len() implies !separator.splits_at(
            #[trigger] less[i],
        ) by {
            assert(less[i] == tail[i]);
        }
        lemma_parts_append(separator, text, less);
        assert((text + tail).drop_last() =~= text + less);
        assert((text + tail).last() == tail[tail.len() - 1]);
        let middle = separator.parts(text + less);
        assert(middle.drop_last() =~= before.drop_last());
        assert((before.last() + less).push(tail.last()) =~= before.last() + tail);
    }
}

/// There is always a part.
proof fn lemma_parts_nonempty(separator: Separator, text: Seq<char>)
    ensures
        separator.parts(text).len() > 0,
    decreases text.len(),
{
    if text.len() > 0 {
        lemma_parts_nonempty(separator, text.drop_last());
    }
}

/// Behind a separator a new part starts.
proof fn lemma_parts_separator(separator: Separator, text: Seq<char>, c: char)
    requires
        separator.splits_at(c),
    ensures
        separator.parts(text.push(c)) == separator.parts(text).push(Seq::empty()),
{
    assert(text.push(c).drop_last() =~= text);
}

/// Text is split at blanks, tabs and line ends, or at the given character, and at nothing else:
/// where it has none of these it is a single part, and where it has one, the parts before it come
/// first, and those behind it come next.
pub proof fn lemma_split(
    separator: Separator,
    first: Seq<char>,
    c: char,
    second: Seq<char>,
    text: Seq<char>,
)
    ensures
        separator.splits_at(c) <==> match separator {
            Separator::Space => is_blank(c),
            Separator::Char(other) => c == other,
        },
        separator.splits_at(c) ==> separator.parts(first.push(c) + second) == separator.parts(first)
            + separator.parts(second),
        (forall|i: int| 0 <= i < text.len() ==> !separator.splits_at(#[trigger] text[i]))
            ==> separator.parts(text) == seq![text],
{
    if separator.splits_at(c) {
        lemma_split_between(separator, first, c, second);
    }
    if forall|i: int| 0 <= i < text.len() ==> !separator.splits_at(#[trigger] text[i]) {
        let none = Seq::<char>::empty();
        lemma_parts_append(separator, none, text);
        assert(none + text =~= text);
        assert(separator.parts(none) =~= seq![none]);
        assert(separator.parts(text) =~= seq![text]);
    }
}

/// The parts before and behind a separator.
proof fn lemma_split_between(
    separator: Separator,
    first: Seq<char>,
    c: char,
    second: Seq<char>,
)
    requires
        separator.splits_at(c),
    ensures
        separator.parts(first.push(c) + second) == separator.parts(first) + separator.parts(
            second,
        ),
    decreases second.len(),
{
    let all = first.push(c) + second;
    let before = separator.parts(first);
    if second.len() == 0 {
        lemma_parts_separator(separator, first, c);
        assert(all =~= first.push(c));
        assert(separator.parts(second) =~= seq![Seq::<char>::empty()]);
        assert(before.push(Seq::empty()) =~= before + separator.parts(second));
    } else {
        let less = second.drop_last();
        let parts = separator.parts(less);
        lemma_split_between(separator, first, c, less);
        lemma_parts_nonempty(separator, less);
        assert(all.drop_last() =~= first.push(c) + less);
        assert(all.last() == second.last());
        if separator.splits_at(second.last()) {
            assert((before + parts).push(Seq::empty()) =~= before + parts.push(Seq::empty()));
        } else {
            let longer = parts.last().push(second.last());
            assert((before + parts).last() == parts.last());
            assert((before + parts).drop_last().push(longer) =~= before
                + parts.drop_last().push(longer));
        }
    }
}

/// The parts which are not empty, when there is one more part.
proof fn lemma_nonempty_push(parts: Seq<Seq<char>>, part: Seq<char>)
    ensures
        Separator::nonempty(parts.push(part)) == (if part.len() == 0 {
            Separator::nonempty(parts)
        } else {
            Separator::nonempty(parts).push(part)
        }),
    decreases parts.len(),
{
    let longer = parts.push(part);
    if parts.len() == 0 {
        assert(longer.drop_first() =~= Seq::empty());
        assert(Separator::nonempty(longer.drop_first()) =~= Seq::empty());
        assert(Separator::nonempty(parts) =~= Seq::empty());
        assert(longer[0] == part);
        assert(Separator::nonempty(longer) =~= (if part.len() == 0 {
            Separator::nonempty(parts)
        } else {
            Separator::nonempty(parts).push(part)
        }));
    } else {
        lemma_nonempty_push(parts.drop_first(), part);
        assert(longer.drop_first() =~= parts.drop_first().push(part));
        assert(longer[0] == parts[0]);
        assert(Separator::nonempty(longer) =~= (if part.len() == 0 {
            Separator::nonempty(parts)
        } else {
            Separator::nonempty(parts).push(part)
        }));
    }
}

/// Blanks behind a text add no words.
proof fn lemma_words_blanks(text: Seq<char>, blanks: Seq<char>)
    requires
        forall|i: int| 0 <= i < blanks.len() ==> is_blank(#[trigger] blanks[i]),
    ensures
        Separator::words(text + blanks) == Separator::words(text),
    decreases blanks.len(),
{
    if blanks.len() == 0 {
        assert(text + blanks =~= text);
    } else {
        let less = blanks.drop_last();
        assert forall|i: int| 0 <= i < less.len() implies is_blank(#[trigger] less[i]) by {
            assert(less[i] == blanks[i]);
        }
        lemma_words_blanks(text, less);
        assert(text + blanks =~= (text + less).push(blanks[blanks.len() - 1]));
        lemma_parts_separator(Separator::Space, text + less, blanks[blanks.len() - 1]);
        lemma_nonempty_push(Separator::Space.parts(text + less), Seq::empty());
    }
}

/// A word behind a text which is empty or ends in a blank is one more word.
proof fn lemma_words_word(text: Seq<char>, word: Seq<char>)
    requires
        word.len() > 0,
        text.len() > 0 ==> is_blank(text.last()),
        forall|i: int| 0 <= i < word.len() ==> !is_blank(#[trigger] word[i]),
    ensures
        Separator::words(text + word) == Separator::words(text).push(word),
{
    let space = Separator::Space;
    let before = space.parts(text);
    lemma_parts_append(space, text, word);
    assert(before.last() =~= Seq::empty()) by {
        if text.len() > 0 {
            assert(text.drop_last().push(text.last()) =~= text);
            lemma_parts_separator(space, text.drop_last(), text.last());
        }
    }
    assert(before.last() + word =~= word);
    lemma_nonempty_push(before.drop_last(), word);
    lemma_nonempty_push(before.drop_last(), Seq::empty());
    assert(before.drop_last().push(Seq::empty()) =~= before);
}

/// The words of a text are those of which it consists.
proof fn lemma_words_of_layout(text: Seq<char>, words: Seq<Seq<char>>)
    requires
        laid_out(text, words),
    ensures
        Separator::words(text) == words,
    decreases words.len(),
{
    if words.len() == 0 {
        assert(Seq::<char>::empty() + text =~= text);
        lemma_words_blanks(Seq::empty(), text);
        reveal_with_fuel(Separator::nonempty, 3);
        let parts = Separator::Space.parts(Seq::<char>::empty());
        assert(parts.drop_first() =~= Seq::empty());
        assert(Separator::words(Seq::<char>::empty()) =~= Seq::empty());
        assert(words =~= Seq::empty());
    } else {
        let (start, end) = choose|start: int, end: int| #[trigger]
            last_word(text, words.last(), start, end) && laid_out(
                text.take(start),
                words.drop_last(),
            );
        let front = text.take(start);
        let word = words.last();
        lemma_words_of_layout(front, words.drop_last());
        assert forall|i: int| 0 <= i < word.len() implies !is_blank(#[trigger] word[i]) by {
            assert(word[i] == text[start + i]);
        }
        lemma_words_word(front, word);
        let blanks = text.skip(end);
        assert forall|i: int| 0 <= i < blanks.len() implies is_blank(#[trigger] blanks[i]) by {
            assert(blanks[i] == text[end + i]);
        }
        assert(front + word + blanks =~= text);
        lemma_words_blanks(front + word, blanks);
        assert(words.drop_last().push(word) =~= words);
    }
}

/// Every text consists of words.
proof fn lemma_layout_exists(text: Seq<char>, end: int) -> (words: Seq<Seq<char>>)
    requires
        0 <= end <= text.len(),
        forall|i: int| end <= i < text.len() ==> is_blank(#[trigger] text[i]),
    ensures
        laid_out(text, words),
    decreases text.len(), end,
{
    if end == 0 {
        Seq::empty()
    } else if is_blank(text[end - 1]) {
        lemma_layout_exists(text, end - 1)
    } else {
        let start = lemma_word_start(text, end - 1, end);
        let front = text.take(start);
        let before = lemma_layout_exists(front, start);
        let words = before.push(text.subrange(start, end));
        assert(words.drop_last() =~= before);
        assert(last_word(text, words.last(), start, end));
        words
    }
}

/// Where the word starts which ends at the given place.
proof fn lemma_word_start(text: Seq<char>, from: int, end: int) -> (start: int)
    requires
        0 <= from < end <= text.len(),
        forall|i: int| from <= i < end ==> !is_blank(#[trigger] text[i]),
    ensures
        0 <= start < end,
        start > 0 ==> is_blank(text[start - 1]),
        forall|i: int| start <= i < end ==> !is_blank(#[trigger] text[i]),
    decreases from,
{
    if from == 0 || is_blank(text[from - 1]) {
        from
    } else {
        lemma_word_start(text, from - 1, end)
    }
}

/// The words of a text are those of which it consists, and no others.
pub proof fn lemma_words(text: Seq<char>, words: Seq<Seq<char>>)
    ensures
        Separator::words(text) == words <==> laid_out(text, words),
{
    let found = lemma_layout_exists(text, text.len() as int);
    lemma_words_of_layout(text, found);
    if laid_out(text, words) {
        lemma_words_of_layout(text, words);
    }
}

/// The parts with the character between them.
pub open spec fn joined(parts: Seq<Seq<char>>, c: char) -> Seq<char>
    decreases parts.len(),
{
    if parts.len() <= 1 {
        parts[0]
    } else {
        joined(parts.drop_last(), c).push(c) + parts.last()
    }
}

/// True if the character is not in the text.
pub open spec fn lacks(text: Seq<char>, c: char) -> bool {
    forall|i: int| 0 <= i < text.len() ==> #[trigger] text[i] != c
}

/// True if the character is in none of the parts.
pub open spec fn all_lack(parts: Seq<Seq<char>>, c: char) -> bool {
    forall|i: int| 0 <= i < parts.len() ==> lacks(#[trigger] parts[i], c)
}

/// Text which is put together from parts falls into these parts.
proof fn lemma_parts_of_joined(parts: Seq<Seq<char>>, c: char)
    requires
        parts.len() > 0,
        all_lack(parts, c),
    ensures
        Separator::Char(c).parts(joined(parts, c)) == parts,
    decreases parts.len(),
{
    let separator = Separator::Char(c);
    let none = Seq::<char>::empty();
    if parts.len() == 1 {
        lemma_parts_append(separator, none, parts[0]);
        assert(none + parts[0] =~= parts[0]);
        assert(separator.parts(none) == seq![none]);
        assert(separator.parts(parts[0]) =~= parts);
    } else {
        let front = parts.drop_last();
        assert forall|i: int| 0 <= i < front.len() implies lacks(#[trigger] front[i], c) by {
            assert(front[i] == parts[i]);
        }
        lemma_parts_of_joined(front, c);
        lemma_parts_separator(separator, joined(front, c), c);
        assert(lacks(parts[parts.len() - 1], c));
        lemma_parts_append(separator, joined(front, c).push(c), parts.last());
        assert(front.push(none).drop_last() =~= front);
        assert(none + parts.last() =~= parts.last());
        assert(front.push(parts.last()) =~= parts);
    }
}

/// Text is put together from its parts.
proof fn lemma_joined_parts(text: Seq<char>, c: char)
    ensures
        Separator::Char(c).parts(text).len() > 0,
        all_lack(Separator::Char(c).parts(text), c),
        joined(Separator::Char(c).parts(text), c) == text,
    decreases text.len(),
{
    let separator = Separator::Char(c);
    let parts = separator.parts(text);
    if text.len() == 0 {
        assert(parts[0] =~= text);
    } else {
        let before = separator.parts(text.drop_last());
        lemma_joined_parts(text.drop_last(), c);
        if text.last() == c {
            assert(parts.drop_last() =~= before);
            assert(joined(parts, c) =~= text);
            assert forall|i: int| 0 <= i < parts.len() implies lacks(#[trigger] parts[i], c) by {
                if i < before.len() {
                    assert(parts[i] == before[i]);
                }
            }
        } else {
            assert forall|i: int| 0 <= i < parts.len() implies lacks(#[trigger] parts[i], c) by {
                if i < before.len() - 1 {
                    assert(parts[i] == before[i]);
                } else {
                    assert(lacks(before[before.len() - 1], c));
                }
            }
            if before.len() == 1 {
                assert(joined(parts, c) =~= text);
            } else {
                assert(parts.drop_last() =~= before.drop_last());
                assert(joined(parts, c) =~= joined(before, c).push(text.last()));
                assert(joined(parts, c) =~= text);
            }
        }
    }
}

/// The parts of a text are those without the character from which it is put together.
pub(crate) proof fn lemma_parts(text: Seq<char>, parts: Seq<Seq<char>>, c: char)
    ensures
        Separator::Char(c).parts(text) == parts <==> {
            &&& parts.len() > 0
            &&& all_lack(parts, c)
            &&& joined(parts, c) == text
        },
{
    lemma_joined_parts(text, c);
    if parts.len() > 0 && all_lack(parts, c) && joined(parts, c) == text {
        lemma_parts_of_joined(parts, c);
    }
}

/// The digit for a number below ten.
pub open spec fn digit(n: int) -> char {
    seq!['0', '1', '2', '3', '4', '5', '6', '7', '8', '9'][n]
}

/// The decimal numeral for a number.
pub open spec fn numeral(n: nat) -> Seq<char>
    decreases n,
{
    if n < 10 {
        seq![digit(n as int)]
    } else {
        numeral(n / 10).push(digit((n % 10) as int))
    }
}

/// True if the text is the decimal numeral for the number, maybe with zeros in front.
pub open spec fn writes(text: Seq<char>, n: int) -> bool {
    n >= 0 && exists|zeros: nat| text == #[trigger] padded(zeros, n)
}

/// The decimal numeral for a number with zeros in front.
pub open spec fn padded(zeros: nat, n: int) -> Seq<char> {
    Seq::new(zeros, |i: int| '0') + numeral(n as nat)
}

/// Digits stand for the numbers below ten.
proof fn lemma_digit(n: int)
    requires
        0 <= n < 10,
    ensures
        digit(n) as int - '0' as int == n,
        '0' <= digit(n) <= '9',
{
}

/// A digit stands for the number by which it follows zero.
proof fn lemma_digit_of(c: char)
    requires
        '0' <= c <= '9',
    ensures
        0 <= c as int - '0' as int <= 9,
        digit(c as int - '0' as int) == c,
{
    lemma_digit(c as int - '0' as int);
}

/// A numeral is decimal and has its number as its value, whatever zeros stand in front.
proof fn lemma_padded(zeros: nat, n: nat)
    ensures
        Decimal::is_decimal(padded(zeros, n as int)),
        Decimal::value(padded(zeros, n as int)) == n,
    decreases n, zeros,
{
    let text = padded(zeros, n as int);
    if n < 10 {
        lemma_digit(n as int);
        assert(text.last() == digit(n as int));
        assert(text.drop_last() =~= Seq::new(zeros, |i: int| '0'));
        lemma_zeros(zeros);
        assert forall|i: int| 0 <= i < text.len() implies '0' <= #[trigger] text[i] && text[i]
            <= '9' by {
            if i < zeros {
                assert(text[i] == '0');
            }
        }
    } else {
        let front = padded(zeros, (n / 10) as int);
        lemma_padded(zeros, n / 10);
        lemma_digit((n % 10) as int);
        assert(text =~= front.push(digit((n % 10) as int)));
        assert(text.drop_last() =~= front);
        assert forall|i: int| 0 <= i < text.len() implies '0' <= #[trigger] text[i] && text[i]
            <= '9' by {
            if i < front.len() {
                assert(text[i] == front[i]);
            }
        }
    }
}

/// Zeros have no value.
proof fn lemma_zeros(zeros: nat)
    ensures
        Decimal::value(Seq::new(zeros, |i: int| '0')) == 0,
    decreases zeros,
{
    let text = Seq::new(zeros, |i: int| '0');
    if zeros > 0 {
        lemma_zeros((zeros - 1) as nat);
        assert(text.drop_last() =~= Seq::new((zeros - 1) as nat, |i: int| '0'));
    }
}

/// Decimal text is the numeral for its value.
proof fn lemma_decimal(text: Seq<char>)
    requires
        Decimal::is_decimal(text),
    ensures
        writes(text, Decimal::value(text)),
    decreases text.len(),
{
    let front = text.drop_last();
    let c = text[text.len() - 1];
    let d = c as int - '0' as int;
    lemma_digit_of(c);
    if front.len() == 0 {
        assert(Decimal::value(front) == 0);
        assert(text =~= padded(0, d));
    } else {
        assert forall|i: int| 0 <= i < front.len() implies '0' <= #[trigger] front[i] && front[i]
            <= '9' by {
            assert(front[i] == text[i]);
        }
        lemma_decimal(front);
        let n = Decimal::value(front);
        let zeros = choose|zeros: nat| front == #[trigger] padded(zeros, n);
        if n == 0 {
            assert(numeral(0) == seq!['0']);
            assert(front =~= Seq::new(zeros + 1, |i: int| '0'));
            assert(text =~= padded(zeros + 1, d));
        } else {
            let m = (n * 10 + d) as nat;
            assert(m / 10 == n as nat && m % 10 == d as nat);
            assert(numeral(m) == numeral(n as nat).push(digit(d)));
            let front_zeros = Seq::new(zeros, |i: int| '0');
            assert(text =~= front.push(c));
            assert(front_zeros + numeral(n as nat).push(c) =~= (front_zeros + numeral(
                n as nat,
            )).push(c));
            assert(text == padded(zeros, n * 10 + d));
        }
    }
}

/// A text is read as a number exactly if it is a numeral for that number and the number is not
/// too large.
pub proof fn lemma_number(text: Seq<char>, max: int, n: int)
    ensures
        Decimal::number(text, max) == Some(n) <==> writes(text, n) && n <= max,
{
    if writes(text, n) {
        let zeros = choose|zeros: nat| text == #[trigger] padded(zeros, n);
        lemma_padded(zeros, n as nat);
    }
    if Decimal::is_decimal(text) {
        lemma_decimal(text);
    }
}

} // verus!
