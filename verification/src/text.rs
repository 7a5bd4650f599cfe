//! Splitting text and reading numbers.
use vstd::prelude::*;

verus! {

/// `String::push` of the standard library: it appends the character to the string.
pub assume_specification[ String::push ](s: &mut String, c: char)
    ensures
        final(s)@ == old(s)@.push(c),
;

/// Characters at which text is split.
#[derive(Clone, Copy, Debug)]
pub enum Separator {
    /// Blanks, tabs and line ends.
    Space,
    /// One character.
    Char(char),
}

impl Separator {
    /// True if text is split at the character.
    pub open spec fn splits_at(self, c: char) -> bool {
        match self {
            Separator::Space => c == ' ' || c == '\t' || c == '\n' || c == '\r',
            Separator::Char(separator) => c == separator,
        }
    }

    /// The parts of the text before, between and after the characters at which it is split.
    pub open spec fn parts(self, text: Seq<char>) -> Seq<Seq<char>>
        decreases text.len(),
    {
        if text.len() == 0 {
            seq![Seq::<char>::empty()]
        } else {
            let before = self.parts(text.drop_last());
            if self.splits_at(text.last()) {
                before.push(Seq::empty())
            } else {
                before.drop_last().push(before.last().push(text.last()))
            }
        }
    }

    /// The parts which are not empty.
    pub open spec fn nonempty(parts: Seq<Seq<char>>) -> Seq<Seq<char>>
        decreases parts.len(),
    {
        if parts.len() == 0 {
            Seq::empty()
        } else if parts[0].len() == 0 {
            Self::nonempty(parts.drop_first())
        } else {
            seq![parts[0]] + Self::nonempty(parts.drop_first())
        }
    }

    /// The words of a text: its longest stretches without space.
    pub open spec fn words(text: Seq<char>) -> Seq<Seq<char>> {
        Self::nonempty(Separator::Space.parts(text))
    }

    /// The contents of strings.
    pub open spec fn contents(strings: Seq<String>) -> Seq<Seq<char>> {
        Seq::new(strings.len(), |i: int| strings[i]@)
    }

    /// Returns the parts of the text before, between and after the characters at which it is
    /// split.
    pub fn split(self, text: &str) -> (r: Vec<String>)
        ensures
            Self::contents(r@) == self.parts(text@),
            r@.len() > 0,
    {
        let mut done: Vec<String> = Vec::new();
        let mut current = String::new();
        let ghost chars = text@;
        assert(chars.take(0) =~= Seq::<char>::empty());
        assert(Self::contents(done@).push(current@) =~= seq![Seq::<char>::empty()]);
        for c in it: text.chars()
            invariant
                it.seq() == chars,
                Self::contents(done@).push(current@) == self.parts(chars.take(it.index() as int)),
        {
            let ghost index = it.index() as int;
            let ghost before = Self::contents(done@);
            let ghost last = current@;
            proof {
                assert(chars.take(index + 1).drop_last() =~= chars.take(index));
                assert(chars.take(index + 1).last() == c);
                assert(before.push(last).drop_last() =~= before);
            }
            let splits = match self {
                Separator::Space => c == ' ' || c == '\t' || c == '\n' || c == '\r',
                Separator::Char(separator) => c == separator,
            };
            if splits {
                done.push(current);
                current = String::new();
                assert(Self::contents(done@) =~= before.push(last));
            } else {
                current.push(c);
            }
        }
        assert(chars.take(chars.len() as int) =~= chars);
        let ghost before = Self::contents(done@);
        let ghost last = current@;
        done.push(current);
        assert(Self::contents(done@) =~= before.push(last));
        done
    }
}

/// Reading of decimal numbers.
pub struct Decimal;

impl Decimal {
    /// True if the text consists of one or more decimal digits.
    pub open spec fn is_decimal(text: Seq<char>) -> bool {
        text.len() > 0 && forall|i: int|
            0 <= i < text.len() ==> '0' <= #[trigger] text[i] && text[i] <= '9'
    }

    /// The number which the digits denote.
    pub open spec fn value(text: Seq<char>) -> int
        decreases text.len(),
    {
        if text.len() == 0 {
            0
        } else {
            Self::value(text.drop_last()) * 10 + (text.last() as int - '0' as int)
        }
    }

    /// The number which the text denotes, if it is decimal and not greater than `max`.
    pub open spec fn number(text: Seq<char>, max: int) -> Option<int> {
        if Self::is_decimal(text) && Self::value(text) <= max {
            Some(Self::value(text))
        } else {
            None
        }
    }

    /// A number is not smaller than the number in front of its last digits.
    proof fn lemma_prefix(text: Seq<char>, n: int)
        requires
            0 <= n <= text.len(),
            Self::is_decimal(text),
        ensures
            0 <= Self::value(text.take(n)) <= Self::value(text),
        decreases text.len() - n,
    {
        if n == text.len() {
            assert(text.take(n) =~= text);
            Self::lemma_nonnegative(text);
        } else {
            Self::lemma_prefix(text, n + 1);
            assert(text.take(n + 1).drop_last() =~= text.take(n));
            assert(text.take(n + 1).last() == text[n]);
            assert forall|i: int| 0 <= i < text.take(n).len() implies '0' <= #[trigger] text.take(
                n,
            )[i] && text.take(n)[i] <= '9' by {
                assert(text.take(n)[i] == text[i]);
            }
            Self::lemma_nonnegative(text.take(n));
        }
    }

    /// Digits denote a number which is not negative.
    proof fn lemma_nonnegative(text: Seq<char>)
        requires
            forall|i: int| 0 <= i < text.len() ==> '0' <= #[trigger] text[i] && text[i] <= '9',
        ensures
            0 <= Self::value(text),
        decreases text.len(),
    {
        if text.len() > 0 {
            let before = text.drop_last();
            assert forall|i: int| 0 <= i < before.len() implies '0' <= #[trigger] before[i]
                && before[i] <= '9' by {
                assert(before[i] == text[i]);
            }
            Self::lemma_nonnegative(before);
            assert('0' <= text[text.len() - 1]);
        }
    }

    /// Returns the number which the text denotes, if it is decimal and not greater than `max`.
    pub fn parse(text: &str, max: u64) -> (r: Option<u64>)
        ensures
            r matches Some(n) ==> Self::number(text@, max as int) == Some(n as int),
            r is None ==> Self::number(text@, max as int) is None,
    {
        let ghost chars = text@;
        let mut value: u64 = 0;
        let mut empty: bool = true;
        assert(chars.take(0) =~= Seq::<char>::empty());
        for c in it: text.chars()
            invariant
                it.seq() == chars,
                chars == text@,
                empty == (it.index() == 0),
                forall|i: int| 0 <= i < it.index() ==> '0' <= #[trigger] chars[i] && chars[i] <= '9',
                value == Self::value(chars.take(it.index() as int)),
                value <= max,
        {
            let ghost index = it.index() as int;
            assert(chars[index] == c);
            if c < '0' || c > '9' {
                return None;
            }
            proof {
                assert(chars.take(index + 1).drop_last() =~= chars.take(index));
                assert(chars.take(index + 1).last() == c);
                if Self::is_decimal(chars) {
                    Self::lemma_prefix(chars, index + 1);
                }
            }
            let digit: u64 = (c as u32 - '0' as u32) as u64;
            let wide: u128 = value as u128 * 10 + digit as u128;
            if wide > max as u128 {
                return None;
            }
            value = wide as u64;
            empty = false;
        }
        assert(chars.take(chars.len() as int) =~= chars);
        if empty {
            None
        } else {
            Some(value)
        }
    }
}

/// Returns true if the two texts are the same.
pub fn same_text(a: &str, b: &str) -> (r: bool)
    ensures
        r == (a@ == b@),
{
    a.to_owned() == b.to_owned()
}

} // verus!
