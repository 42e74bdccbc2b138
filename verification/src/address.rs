//! IP addresses and their textual forms.
//!
//! An IPv4 address is written as four decimal octets with dots between them.
//! An IPv6 address is written as eight groups of up to four hex digits with
//! colons between them; one run of zero groups may be elided as `::`, and the
//! last two groups may be written as an IPv4 address.

use vstd::prelude::*;
use crate::text::{
    all_digits, chars_of, lemma_split_nonempty, number, read_number, split, split_range, views,
};

verus! {

/// An IP address of either family, by its octets or its groups.
#[derive(Clone, Copy, Debug, PartialEq, Eq, Structural)]
pub enum IpAddress {
    /// An IPv4 address: its four octets, first to last.
    V4(u8, u8, u8, u8),
    /// An IPv6 address: its eight groups of sixteen bits, first to last.
    V6(u16, u16, u16, u16, u16, u16, u16, u16),
}

/// The octet that `s` spells: one to three decimal digits, without a leading
/// zero unless the octet is the single digit zero, and no more than 255.
pub open spec fn octet_of(s: Seq<char>) -> Option<u8> {
    if 1 <= s.len() <= 3 && all_digits(s, 10) && (s.len() == 1 || s[0] != '0') && number(s, 10)
        <= 255 {
        Some(number(s, 10) as u8)
    } else {
        None
    }
}

/// The group that `s` spells: one to four hex digits of either case.
pub open spec fn group_of(s: Seq<char>) -> Option<u16> {
    if 1 <= s.len() <= 4 && all_digits(s, 16) && number(s, 16) <= 0xffff {
        Some(number(s, 16) as u16)
    } else {
        None
    }
}

/// The four octets that `s` spells in dotted form.
pub open spec fn quad_of(s: Seq<char>) -> Option<(u8, u8, u8, u8)> {
    let parts = split(s, '.');
    if parts.len() == 4 && octet_of(parts[0]) is Some && octet_of(parts[1]) is Some && octet_of(
        parts[2],
    ) is Some && octet_of(parts[3]) is Some {
        Some(
            (
                octet_of(parts[0])->0,
                octet_of(parts[1])->0,
                octet_of(parts[2])->0,
                octet_of(parts[3])->0,
            ),
        )
    } else {
        None
    }
}

/// The two groups that hold the four octets of `quad`.
pub open spec fn groups_of_quad(quad: (u8, u8, u8, u8)) -> Seq<u16> {
    seq![(quad.0 * 256 + quad.1) as u16, (quad.2 * 256 + quad.3) as u16]
}

/// The groups that the pieces spell, if each of them spells one.
pub open spec fn groups_of(pieces: Seq<Seq<char>>) -> Option<Seq<u16>> {
    if forall|i: int| 0 <= i < pieces.len() ==> (#[trigger] group_of(pieces[i])) is Some {
        Some(Seq::new(pieces.len(), |i: int| group_of(pieces[i])->0))
    } else {
        None
    }
}

/// The groups of a run that may close an address: groups with colons
/// between them, where a dotted quad may stand in place of the last group
/// and then counts for two.
pub open spec fn closing_groups(s: Seq<char>) -> Option<Seq<u16>> {
    let pieces = split(s, ':');
    match groups_of(pieces.drop_last()) {
        None => None,
        Some(groups) => match group_of(pieces.last()) {
            Some(group) => Some(groups.push(group)),
            None => match quad_of(pieces.last()) {
                Some(quad) => Some(groups + groups_of_quad(quad)),
                None => None,
            },
        },
    }
}

/// Two colons stand side by side at `k` in `s`.
pub open spec fn colons_at(s: Seq<char>, k: int) -> bool {
    0 <= k && k + 1 < s.len() && s[k] == ':' && s[k + 1] == ':'
}

/// The first pair of colons in `s` stands at `k`.
pub open spec fn elided_at(s: Seq<char>, k: int) -> bool {
    colons_at(s, k) && forall|j: int| 0 <= j < k ==> !colons_at(s, j)
}

/// The groups before an elision, or after one where `closing` is set: none
/// for an empty text.
pub open spec fn side_groups(s: Seq<char>, closing: bool) -> Option<Seq<u16>> {
    if s.len() == 0 {
        Some(Seq::empty())
    } else if closing {
        closing_groups(s)
    } else {
        groups_of(split(s, ':'))
    }
}

/// The eight groups that `s` spells as an IPv6 address. Without an elision
/// the text must spell all eight. With one, the groups before and after it
/// are at most seven, and zero groups fill the gap.
pub open spec fn segments_of(s: Seq<char>) -> Option<Seq<u16>> {
    if exists|k: int| elided_at(s, k) {
        let k = choose|k: int| elided_at(s, k);
        let front = side_groups(s.subrange(0, k), false);
        let back = side_groups(s.subrange(k + 2, s.len() as int), true);
        if front is Some && back is Some && front->0.len() + back->0.len() <= 7 {
            Some(
                front->0 + Seq::new(
                    (8 - front->0.len() - back->0.len()) as nat,
                    |i: int| 0u16,
                ) + back->0,
            )
        } else {
            None
        }
    } else {
        match closing_groups(s) {
            Some(groups) => if groups.len() == 8 {
                Some(groups)
            } else {
                None
            },
            None => None,
        }
    }
}

/// The address that `s` spells, in either family.
pub open spec fn ip_address_of(s: Seq<char>) -> Option<IpAddress> {
    match quad_of(s) {
        Some(quad) => Some(IpAddress::V4(quad.0, quad.1, quad.2, quad.3)),
        None => match segments_of(s) {
            Some(g) => Some(IpAddress::V6(g[0], g[1], g[2], g[3], g[4], g[5], g[6], g[7])),
            None => None,
        },
    }
}

/// Reads `piece` as one octet of a dotted quad.
fn parse_octet(piece: &Vec<char>) -> (octet: Option<u8>)
    ensures
        octet == octet_of(piece@),
{
    if piece.len() < 1 || piece.len() > 3 {
        return None;
    }
    if piece.len() > 1 && piece[0] == '0' {
        return None;
    }
    match read_number(piece, 10, 255) {
        Some(value) => Some(value as u8),
        None => None,
    }
}

/// Reads `piece` as one group of hex digits.
fn parse_group(piece: &Vec<char>) -> (group: Option<u16>)
    ensures
        group == group_of(piece@),
{
    if piece.len() < 1 || piece.len() > 4 {
        return None;
    }
    match read_number(piece, 16, 0xffff) {
        Some(value) => Some(value as u16),
        None => None,
    }
}

/// Reads `piece` as four octets with dots between them.
fn parse_quad(piece: &Vec<char>) -> (quad: Option<(u8, u8, u8, u8)>)
    ensures
        quad == quad_of(piece@),
{
    let parts = split_range(piece, 0, piece.len(), '.');
    proof {
        assert(piece@.subrange(0, piece@.len() as int) == piece@);
        assert(views(parts@).len() == parts@.len());
    }
    if parts.len() != 4 {
        return None;
    }
    proof {
        assert(views(parts@)[0] == parts@[0]@);
        assert(views(parts@)[1] == parts@[1]@);
        assert(views(parts@)[2] == parts@[2]@);
        assert(views(parts@)[3] == parts@[3]@);
    }
    let a = parse_octet(&parts[0]);
    let b = parse_octet(&parts[1]);
    let c = parse_octet(&parts[2]);
    let d = parse_octet(&parts[3]);
    match (a, b, c, d) {
        (Some(a), Some(b), Some(c), Some(d)) => Some((a, b, c, d)),
        _ => None,
    }
}

/// Reads the first `count` of the pieces as groups.
fn parse_groups(pieces: &Vec<Vec<char>>, count: usize) -> (groups: Option<Vec<u16>>)
    requires
        count <= pieces@.len(),
    ensures
        match groups {
            Some(g) => groups_of(views(pieces@).take(count as int)) == Some(g@),
            None => groups_of(views(pieces@).take(count as int)) is None,
        },
{
    let ghost texts = views(pieces@).take(count as int);
    let mut groups: Vec<u16> = Vec::new();
    let mut i: usize = 0;
    while i < count
        invariant
            i <= count <= pieces@.len(),
            texts == views(pieces@).take(count as int),
            groups@.len() == i,
            forall|j: int| 0 <= j < i ==> (#[trigger] group_of(texts[j])) is Some,
            forall|j: int| 0 <= j < i ==> groups@[j] == group_of(texts[j])->0,
        decreases count - i,
    {
        proof {
            assert(texts[i as int] == pieces@[i as int]@);
        }
        match parse_group(&pieces[i]) {
            Some(group) => {
                groups.push(group);
            },
            None => {
                proof {
                    assert(group_of(texts[i as int]) is None);
                }
                return None;
            },
        }
        i += 1;
    }
    proof {
        assert(groups@ == Seq::new(texts.len(), |j: int| group_of(texts[j])->0));
    }
    Some(groups)
}

/// Reads the characters `from..to` as a run that may close an address.
fn parse_closing(chars: &Vec<char>, from: usize, to: usize) -> (groups: Option<Vec<u16>>)
    requires
        from <= to <= chars@.len(),
    ensures
        match groups {
            Some(g) => closing_groups(chars@.subrange(from as int, to as int)) == Some(g@),
            None => closing_groups(chars@.subrange(from as int, to as int)) is None,
        },
{
    let pieces = split_range(chars, from, to, ':');
    proof {
        lemma_split_nonempty(chars@.subrange(from as int, to as int), ':');
        assert(views(pieces@).len() == pieces@.len());
    }
    let last = pieces.len() - 1;
    proof {
        assert(views(pieces@).take(last as int) == views(pieces@).drop_last());
        assert(views(pieces@).last() == pieces@[last as int]@);
    }
    match parse_groups(&pieces, last) {
        None => None,
        Some(mut groups) => {
            match parse_group(&pieces[last]) {
                Some(group) => {
                    groups.push(group);
                    Some(groups)
                },
                None => match parse_quad(&pieces[last]) {
                    Some(quad) => {
                        let ghost leading = groups@;
                        let high: u16 = (quad.0 as u16) * 256 + (quad.1 as u16);
                        let low: u16 = (quad.2 as u16) * 256 + (quad.3 as u16);
                        groups.push(high);
                        groups.push(low);
                        proof {
                            assert(groups@ == leading + groups_of_quad(quad));
                        }
                        Some(groups)
                    },
                    None => None,
                },
            }
        },
    }
}

/// Reads the characters `from..to` as the groups before an elision.
fn parse_leading(chars: &Vec<char>, from: usize, to: usize) -> (groups: Option<Vec<u16>>)
    requires
        from <= to <= chars@.len(),
    ensures
        match groups {
            Some(g) => groups_of(split(chars@.subrange(from as int, to as int), ':')) == Some(g@),
            None => groups_of(split(chars@.subrange(from as int, to as int), ':')) is None,
        },
{
    let pieces = split_range(chars, from, to, ':');
    proof {
        assert(views(pieces@).len() == pieces@.len());
        assert(views(pieces@).take(pieces@.len() as int) == views(pieces@));
    }
    parse_groups(&pieces, pieces.len())
}

/// Finds the first pair of colons.
fn find_elision(chars: &Vec<char>) -> (at: Option<usize>)
    ensures
        match at {
            Some(k) => elided_at(chars@, k as int),
            None => forall|k: int| !colons_at(chars@, k),
        },
{
    if chars.len() < 2 {
        return None;
    }
    let mut i: usize = 0;
    while i < chars.len() - 1
        invariant
            chars@.len() >= 2,
            forall|j: int| 0 <= j < i ==> !colons_at(chars@, j),
        decreases chars@.len() - i,
    {
        if chars[i] == ':' && chars[i + 1] == ':' {
            return Some(i);
        }
        i += 1;
    }
    None
}

/// Reads `chars` as the eight groups of an IPv6 address.
fn parse_segments(chars: &Vec<char>) -> (groups: Option<Vec<u16>>)
    ensures
        match groups {
            Some(g) => segments_of(chars@) == Some(g@),
            None => segments_of(chars@) is None,
        },
{
    match find_elision(chars) {
        None => {
            proof {
                assert(chars@.subrange(0, chars@.len() as int) == chars@);
            }
            match parse_closing(chars, 0, chars.len()) {
                Some(groups) => if groups.len() == 8 {
                    Some(groups)
                } else {
                    None
                },
                None => None,
            }
        },
        Some(k) => {
            proof {
                assert(colons_at(chars@, k as int));
                let chosen = choose|j: int| elided_at(chars@, j);
                assert(chosen == k) by {
                    if chosen < k {
                        assert(!colons_at(chars@, chosen));
                    }
                    if k < chosen {
                        assert(!colons_at(chars@, k as int));
                    }
                }
            }
            let front = if k == 0 {
                Some(Vec::new())
            } else {
                parse_leading(chars, 0, k)
            };
            let end = chars.len();
            let back = if k + 2 == end {
                Some(Vec::new())
            } else {
                parse_closing(chars, k + 2, end)
            };
            match (front, back) {
                (Some(mut groups), Some(back)) => {
                    if groups.len() > 7 || back.len() > 7 - groups.len() {
                        return None;
                    }
                    let ghost head = groups@;
                    let gap = 8 - groups.len() - back.len();
                    let mut n: usize = 0;
                    while n < gap
                        invariant
                            n <= gap,
                            groups@ == head + Seq::new(n as nat, |i: int| 0u16),
                        decreases gap - n,
                    {
                        groups.push(0);
                        n += 1;
                    }
                    let ghost filled = groups@;
                    let mut m: usize = 0;
                    while m < back.len()
                        invariant
                            m <= back@.len(),
                            groups@ == filled + back@.take(m as int),
                        decreases back@.len() - m,
                    {
                        groups.push(back[m]);
                        m += 1;
                    }
                    proof {
                        assert(back@.take(m as int) == back@);
                    }
                    Some(groups)
                },
                _ => None,
            }
        },
    }
}

/// Reads `text` as an IP address: as an IPv4 address where it is one in
/// dotted form, else as an IPv6 address. `None` for any other text.
pub fn parse_ip_address(text: &str) -> (address: Option<IpAddress>)
    ensures
        address == ip_address_of(text@),
{
    let chars = chars_of(text);
    match parse_quad(&chars) {
        Some(quad) => Some(IpAddress::V4(quad.0, quad.1, quad.2, quad.3)),
        None => match parse_segments(&chars) {
            Some(g) => {
                proof {
                    assert(g@.len() == 8);
                }
                Some(IpAddress::V6(g[0], g[1], g[2], g[3], g[4], g[5], g[6], g[7]))
            },
            None => None,
        },
    }
}

} // verus!
