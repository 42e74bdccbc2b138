//! Characters, separators and digits: what the readers of addresses and
//! numbers have in common.

use vstd::prelude::*;

verus! {

/// The pieces into which the separator `sep` cuts `s`. There is always one
/// piece more than there are separators, so a text without any is its own
/// single piece, and pieces may be empty.
pub open spec fn split(s: Seq<char>, sep: char) -> Seq<Seq<char>>
    decreases s.len(),
{
    if s.len() == 0 {
        seq![Seq::empty()]
    } else {
        let before = split(s.drop_last(), sep);
        if s.last() == sep {
            before.push(Seq::empty())
        } else {
            before.drop_last().push(before.last().push(s.last()))
        }
    }
}

/// The value of `c` as a digit of the given radix, ten or sixteen. The
/// letters `a` to `f` are digits in lower and in upper case.
pub open spec fn digit_of(c: char, radix: int) -> Option<int> {
    let code = c as int;
    let value = if '0' as int <= code <= '9' as int {
        code - '0' as int
    } else if 'a' as int <= code <= 'f' as int {
        code - 'a' as int + 10
    } else if 'A' as int <= code <= 'F' as int {
        code - 'A' as int + 10
    } else {
        radix
    };
    if value < radix {
        Some(value)
    } else {
        None
    }
}

/// Every character of `s` is a digit of the radix.
pub open spec fn all_digits(s: Seq<char>, radix: int) -> bool {
    forall|i: int| 0 <= i < s.len() ==> (#[trigger] digit_of(s[i], radix)) is Some
}

/// The number that the digits `s` spell in the radix, most significant digit
/// first. Characters that are no digits count as zero.
pub open spec fn number(s: Seq<char>, radix: int) -> int
    decreases s.len(),
{
    if s.len() == 0 {
        0
    } else {
        number(s.drop_last(), radix) * radix + match digit_of(s.last(), radix) {
            Some(d) => d,
            None => 0,
        }
    }
}

/// The views of the elements of `pieces`.
pub open spec fn views(pieces: Seq<Vec<char>>) -> Seq<Seq<char>> {
    Seq::new(pieces.len(), |i: int| pieces[i]@)
}

/// A text is cut into at least one piece.
pub proof fn lemma_split_nonempty(s: Seq<char>, sep: char)
    ensures
        split(s, sep).len() >= 1,
    decreases s.len(),
{
    if s.len() > 0 {
        lemma_split_nonempty(s.drop_last(), sep);
    }
}

/// A number does not shrink when digits are appended to it.
pub proof fn lemma_number_grows(s: Seq<char>, radix: int, n: int)
    requires
        2 <= radix,
        0 <= n <= s.len(),
    ensures
        0 <= number(s.take(n), radix) <= number(s, radix),
    decreases s.len() - n,
{
    lemma_number_nonnegative(s.take(n), radix);
    if n < s.len() {
        lemma_number_grows(s, radix, n + 1);
        let longer = s.take(n + 1);
        assert(longer.drop_last() == s.take(n));
        let low = number(s.take(n), radix);
        assert(low * radix >= low) by (nonlinear_arith)
            requires
                low >= 0,
                radix >= 2,
        ;
    } else {
        assert(s.take(n) == s);
    }
}

/// A number is never negative.
pub proof fn lemma_number_nonnegative(s: Seq<char>, radix: int)
    requires
        2 <= radix,
    ensures
        0 <= number(s, radix),
    decreases s.len(),
{
    if s.len() > 0 {
        lemma_number_nonnegative(s.drop_last(), radix);
        let low = number(s.drop_last(), radix);
        assert(low * radix >= 0) by (nonlinear_arith)
            requires
                low >= 0,
                radix >= 2,
        ;
    }
}

/// The characters of `text`, one element each.
pub fn chars_of(text: &str) -> (chars: Vec<char>)
    ensures
        chars@ == text@,
{
    let mut chars: Vec<char> = Vec::new();
    for c in it: text.chars()
        invariant
            it.seq() == text@,
            chars@ == it.seq().take(it.index() as int),
    {
        chars.push(c);
    }
    chars
}

/// Cuts the characters `from..to` of `chars` at every `sep`.
pub(crate) fn split_range(chars: &Vec<char>, from: usize, to: usize, sep: char) -> (pieces: Vec<
    Vec<char>,
>)
    requires
        from <= to <= chars@.len(),
    ensures
        views(pieces@) == split(chars@.subrange(from as int, to as int), sep),
{
    let mut pieces: Vec<Vec<char>> = Vec::new();
    let mut current: Vec<char> = Vec::new();
    let mut i: usize = from;
    while i < to
        invariant
            from <= i <= to <= chars@.len(),
            views(pieces@).push(current@) == split(chars@.subrange(from as int, i as int), sep),
        decreases to - i,
    {
        let c = chars[i];
        let ghost seen = chars@.subrange(from as int, i as int);
        let ghost next = chars@.subrange(from as int, i + 1);
        let ghost done = views(pieces@);
        let ghost open = current@;
        proof {
            assert(next.drop_last() == seen);
            assert(next.last() == c);
            assert(done.push(open).drop_last() == done);
        }
        if c == sep {
            pieces.push(current);
            current = Vec::new();
            proof {
                assert(views(pieces@) == done.push(open));
            }
        } else {
            current.push(c);
            proof {
                assert(views(pieces@) == done);
            }
        }
        i += 1;
    }
    proof {
        assert(views(pieces@.push(current)) == views(pieces@).push(current@));
    }
    pieces.push(current);
    pieces
}

/// The value of `c` as a digit of radix ten or sixteen.
pub(crate) fn digit(c: char, radix: u32) -> (value: Option<u32>)
    requires
        radix == 10 || radix == 16,
    ensures
        match value {
            Some(d) => digit_of(c, radix as int) == Some(d as int),
            None => digit_of(c, radix as int) is None,
        },
{
    let code = c as u32;
    let value: u32 = if 48 <= code && code <= 57 {
        code - 48
    } else if 97 <= code && code <= 102 {
        code - 87
    } else if 65 <= code && code <= 70 {
        code - 55
    } else {
        radix
    };
    if value < radix {
        Some(value)
    } else {
        None
    }
}

/// Reads `digits` as one number of the given radix that does not exceed
/// `limit`. The text must hold at least one character and digits only.
pub(crate) fn read_number(digits: &Vec<char>, radix: u32, limit: u32) -> (value: Option<u32>)
    requires
        radix == 10 || radix == 16,
        limit <= 0xffff,
    ensures
        match value {
            Some(v) => digits@.len() >= 1 && all_digits(digits@, radix as int) && v == number(
                digits@,
                radix as int,
            ) && v <= limit,
            None => !(digits@.len() >= 1 && all_digits(digits@, radix as int) && number(
                digits@,
                radix as int,
            ) <= limit),
        },
{
    if digits.len() == 0 {
        return None;
    }
    let mut total: u32 = 0;
    let mut i: usize = 0;
    while i < digits.len()
        invariant
            radix == 10 || radix == 16,
            limit <= 0xffff,
            i <= digits@.len(),
            all_digits(digits@.take(i as int), radix as int),
            total == number(digits@.take(i as int), radix as int),
            total <= limit,
        decreases digits@.len() - i,
    {
        let ghost seen = digits@.take(i as int);
        let ghost next = digits@.take(i + 1);
        proof {
            assert(next.drop_last() == seen);
            assert(next.last() == digits@[i as int]);
        }
        match digit(digits[i], radix) {
            None => {
                return None;
            },
            Some(d) => {
                assert(total * radix + d <= 0xffff * 16 + 15) by (nonlinear_arith)
                    requires
                        total <= 0xffff,
                        radix <= 16,
                        d < radix,
                ;
                let grown = total * radix + d;
                proof {
                    assert forall|k: int| 0 <= k < next.len() implies (#[trigger] digit_of(
                        next[k],
                        radix as int,
                    )) is Some by {
                        if k < i {
                            assert(seen[k] == next[k]);
                        }
                    }
                }
                if grown > limit {
                    proof {
                        if all_digits(digits@, radix as int) {
                            lemma_number_grows(digits@, radix as int, i + 1);
                        }
                    }
                    return None;
                }
                total = grown;
            },
        }
        i += 1;
    }
    proof {
        assert(digits@.take(i as int) == digits@);
    }
    Some(total)
}

} // verus!
