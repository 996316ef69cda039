use vstd::prelude::*;
use vstd::string::StringSliceAdditionalSpecFns;

verus! {

/// The byte classes that the problem format is made of.
#[derive(Clone, Copy, Debug)]
pub enum Class {
    /// A space or a horizontal tab.
    Blank,
    /// A space.
    Space,
    /// A decimal digit.
    Digit,
    /// A visible ASCII character: a letter, a digit or a punctuation mark.
    Graphic,
    /// Any byte but the closing parenthesis.
    Unclosed,
}

impl Class {
    /// Whether the byte belongs to the class.
    pub open spec fn holds(self, b: u8) -> bool {
        match self {
            Class::Blank => b == 32 || b == 9,
            Class::Space => b == 32,
            Class::Digit => 48 <= b <= 57,
            Class::Graphic => 33 <= b <= 126,
            Class::Unclosed => b != 41,
        }
    }

    pub fn test(&self, b: u8) -> (r: bool)
        ensures
            r == self.holds(b),
    {
        match self {
            Class::Blank => b == 32 || b == 9,
            Class::Space => b == 32,
            Class::Digit => 48 <= b && b <= 57,
            Class::Graphic => 33 <= b && b <= 126,
            Class::Unclosed => b != 41,
        }
    }
}

/// Where the longest run of bytes of one class that begins at `pos` ends.
pub open spec fn run_end(s: Seq<u8>, class: Class, pos: int) -> int
    decreases s.len() - pos,
{
    if 0 <= pos < s.len() && class.holds(s[pos]) {
        run_end(s, class, pos + 1)
    } else {
        pos
    }
}

/// A run ends inside the input, at or after its start; every byte of it is of
/// the class, and the byte after it, if there is one, is not.
pub proof fn lemma_run_end(s: Seq<u8>, class: Class, pos: int)
    requires
        0 <= pos <= s.len(),
    ensures
        pos <= run_end(s, class, pos) <= s.len(),
        forall|i: int| pos <= i < run_end(s, class, pos) ==> class.holds(#[trigger] s[i]),
        run_end(s, class, pos) < s.len() ==> !class.holds(s[run_end(s, class, pos)]),
    decreases s.len() - pos,
{
    if pos < s.len() && class.holds(s[pos]) {
        lemma_run_end(s, class, pos + 1);
    }
}

/// A run reaches at least as far as the bytes of its class go on.
pub proof fn lemma_run_reaches(s: Seq<u8>, class: Class, pos: int, to: int)
    requires
        0 <= pos <= to <= s.len(),
        forall|i: int| pos <= i < to ==> class.holds(#[trigger] s[i]),
    ensures
        to <= run_end(s, class, pos),
    decreases to - pos,
{
    if pos < to {
        assert(class.holds(s[pos]));
        lemma_run_reaches(s, class, pos + 1, to);
    } else {
        lemma_run_end(s, class, pos);
    }
}

/// Skips the longest run of bytes of one class.
pub fn scan(input: &[u8], class: Class, pos: usize) -> (end: usize)
    requires
        pos <= input@.len(),
    ensures
        end == run_end(input@, class, pos as int),
        pos <= end <= input@.len(),
{
    let mut cur: usize = pos;
    while cur < input.len() && class.test(input[cur])
        invariant
            pos <= cur <= input@.len(),
            run_end(input@, class, pos as int) == run_end(input@, class, cur as int),
        decreases input@.len() - cur,
    {
        cur += 1;
    }
    cur
}

/// Whether the bytes of `tag` stand in `s` at `pos`.
pub open spec fn has_tag(s: Seq<u8>, pos: int, tag: Seq<u8>) -> bool {
    0 <= pos && pos + tag.len() <= s.len() && s.subrange(pos, pos + tag.len()) == tag
}

/// Tests for a fixed piece of text.
pub fn match_tag(input: &[u8], pos: usize, tag: &str) -> (r: bool)
    requires
        pos <= input@.len(),
    ensures
        r == has_tag(input@, pos as int, tag.spec_bytes()),
        r ==> pos + tag.spec_bytes().len() <= usize::MAX,
{
    let bytes = tag.as_bytes();
    if bytes.len() > input.len() - pos {
        return false;
    }
    let mut i: usize = 0;
    while i < bytes.len()
        invariant
            i <= bytes.len(),
            bytes@ == tag.spec_bytes(),
            pos + bytes.len() <= input.len(),
            input@.subrange(pos as int, pos + i) == bytes@.take(i as int),
        decreases bytes.len() - i,
    {
        if input[pos + i] != bytes[i] {
            assert(input@.subrange(pos as int, pos + bytes.len())[i as int] != bytes@[i as int]);
            return false;
        }
        assert(input@.subrange(pos as int, pos + i + 1) =~= input@.subrange(
            pos as int,
            pos + i,
        ).push(input@[pos + i]));
        assert(bytes@.take(i + 1) =~= bytes@.take(i as int).push(bytes@[i as int]));
        i += 1;
    }
    assert(bytes@.take(i as int) =~= bytes@);
    true
}

/// The position after the line ending that begins at `pos`: a line feed, or
/// a carriage return and a line feed.
pub open spec fn line_end(s: Seq<u8>, pos: int) -> Option<int> {
    if 0 <= pos < s.len() && s[pos] == 10 {
        Some(pos + 1)
    } else if 0 <= pos && pos + 1 < s.len() && s[pos] == 13 && s[pos + 1] == 10 {
        Some(pos + 2)
    } else {
        None
    }
}

pub fn match_line_end(input: &[u8], pos: usize) -> (r: Option<usize>)
    requires
        pos <= input@.len(),
    ensures
        match r {
            Some(next) => line_end(input@, pos as int) == Some(next as int),
            None => line_end(input@, pos as int).is_none(),
        },
{
    if pos < input.len() && input[pos] == 10 {
        Some(pos + 1)
    } else if pos < input.len() && input.len() - pos > 1 && input[pos] == 13 && input[pos + 1]
        == 10 {
        Some(pos + 2)
    } else {
        None
    }
}

/// The number that a sequence of decimal digits writes.
pub open spec fn decimal(digits: Seq<u8>) -> nat
    decreases digits.len(),
{
    if digits.len() == 0 {
        0
    } else {
        (decimal(digits.drop_last()) * 10 + (digits.last() - 48)) as nat
    }
}

/// Reading more digits never makes the number smaller.
pub proof fn lemma_decimal_grows(digits: Seq<u8>, k: int)
    requires
        0 <= k <= digits.len(),
        forall|i: int| 0 <= i < digits.len() ==> Class::Digit.holds(#[trigger] digits[i]),
    ensures
        decimal(digits.take(k)) <= decimal(digits),
    decreases digits.len(),
{
    if k < digits.len() {
        assert(digits.drop_last().take(k) =~= digits.take(k));
        lemma_decimal_grows(digits.drop_last(), k);
    } else {
        assert(digits.take(k) =~= digits);
    }
}

/// Reads the digits between `start` and `end` as a number of at most `limit`.
pub fn read_number(input: &[u8], start: usize, end: usize, limit: u64) -> (r: Option<u64>)
    requires
        start <= end <= input@.len(),
        forall|i: int| start <= i < end ==> Class::Digit.holds(#[trigger] input@[i]),
    ensures
        r == if decimal(input@.subrange(start as int, end as int)) <= limit {
            Some(decimal(input@.subrange(start as int, end as int)) as u64)
        } else {
            None
        },
{
    let ghost digits = input@.subrange(start as int, end as int);
    let mut value: u64 = 0;
    let mut cur: usize = start;
    assert(digits.take(0) =~= Seq::<u8>::empty());
    while cur < end
        invariant
            start <= cur <= end <= input@.len(),
            digits == input@.subrange(start as int, end as int),
            forall|i: int| 0 <= i < digits.len() ==> Class::Digit.holds(#[trigger] digits[i]),
            value == decimal(digits.take(cur - start)),
            value <= limit,
        decreases end - cur,
    {
        proof {
            assert(digits[cur - start] == input@[cur as int]);
        }
        let digit: u64 = (input[cur] - 48) as u64;
        proof {
            assert(digits.take(cur - start + 1).drop_last() =~= digits.take(cur - start));
            lemma_decimal_grows(digits, cur - start + 1);
        }
        if digit > limit || value > (limit - digit) / 10 {
            return None;
        }
        value = value * 10 + digit;
        cur += 1;
    }
    assert(digits.take(cur - start) =~= digits);
    Some(value)
}

/// Whether every byte is a decimal digit.
pub open spec fn all_digits(s: Seq<u8>) -> bool {
    forall|i: int| 0 <= i < s.len() ==> Class::Digit.holds(#[trigger] s[i])
}

/// The number that a word writes: an optional plus sign, then one decimal
/// digit or more, and nothing else.
pub open spec fn unsigned_word(word: Seq<u8>) -> Option<nat> {
    let digits = if word.len() > 0 && word[0] == 43 {
        word.skip(1)
    } else {
        word
    };
    if digits.len() > 0 && all_digits(digits) {
        Some(decimal(digits))
    } else {
        None
    }
}

/// Reads the word between `start` and `end` as a number of at most `limit`.
pub fn read_unsigned(input: &[u8], start: usize, end: usize, limit: u64) -> (r: Option<u64>)
    requires
        start <= end <= input@.len(),
    ensures
        r == match unsigned_word(input@.subrange(start as int, end as int)) {
            Some(value) => if value <= limit {
                Some(value as u64)
            } else {
                None
            },
            None => None,
        },
{
    let ghost word = input@.subrange(start as int, end as int);
    let from = if start < end && input[start] == 43 {
        start + 1
    } else {
        start
    };
    let ghost digits = if word.len() > 0 && word[0] == 43 {
        word.skip(1)
    } else {
        word
    };
    assert(digits =~= input@.subrange(from as int, end as int));
    let stop = scan(input, Class::Digit, from);
    proof {
        lemma_run_end(input@, Class::Digit, from as int);
        if stop >= end {
            assert forall|i: int| 0 <= i < digits.len() implies Class::Digit.holds(
                #[trigger] digits[i],
            ) by {
                assert(digits[i] == input@[from + i]);
            }
        }
        if from < end && stop < end {
            assert(digits[stop - from] == input@[stop as int]);
        }
    }
    if from == end || stop < end {
        return None;
    }
    read_number(input, from, end, limit)
}

} // verus!
