//! Addresses as text: dotted quads and colon-separated hexadecimal groups.

use crate::address::Address;
use vstd::prelude::*;
use vstd::slice::slice_subrange;

verus! {

/// The index of the first `mark` in `text`, or the length of `text` if there
/// is none.
pub open spec fn first_at(text: Seq<u8>, mark: u8) -> int
    decreases text.len(),
{
    if text.len() == 0 || text[0] == mark {
        0
    } else {
        1 + first_at(text.skip(1), mark)
    }
}

/// The pieces of `text` between occurrences of `mark`. There is always at
/// least one piece; pieces may be empty.
pub open spec fn fields(text: Seq<u8>, mark: u8) -> Seq<Seq<u8>>
    decreases text.len(),
{
    let cut = first_at(text, mark);
    if 0 <= cut < text.len() {
        seq![text.take(cut)] + fields(text.skip(cut + 1), mark)
    } else {
        seq![text]
    }
}

/// The contents of a list of slices.
pub open spec fn views_of(parts: Seq<&[u8]>) -> Seq<Seq<u8>> {
    Seq::new(parts.len(), |i: int| parts[i]@)
}

/// `first_at` finds position `at` when no mark stands before it and either a
/// mark stands at it or the text ends there.
pub proof fn lemma_first_at(text: Seq<u8>, mark: u8, at: int)
    requires
        0 <= at <= text.len(),
        forall|i: int| 0 <= i < at ==> text[i] != mark,
        at == text.len() || text[at] == mark,
    ensures
        first_at(text, mark) == at,
    decreases at,
{
    if at > 0 {
        let rest = text.skip(1);
        assert forall|i: int| 0 <= i < at - 1 implies rest[i] != mark by {
            assert(rest[i] == text[i + 1]);
        }
        lemma_first_at(rest, mark, at - 1);
    }
}

/// Cuts `text` at every `mark`.
pub fn split_fields<'a>(text: &'a [u8], mark: u8) -> (out: Vec<&'a [u8]>)
    ensures
        views_of(out@) == fields(text@, mark),
        out@.len() >= 1,
{
    let mut out: Vec<&'a [u8]> = Vec::new();
    let mut start: usize = 0;
    let mut at: usize = 0;
    assert(text@.skip(0) == text@);
    assert(views_of(out@) + fields(text@, mark) == fields(text@, mark));
    while at < text.len()
        invariant
            start <= at <= text@.len(),
            forall|i: int| start <= i < at ==> text@[i] != mark,
            fields(text@, mark) == views_of(out@) + fields(text@.skip(start as int), mark),
        decreases text@.len() - at,
    {
        if text[at] == mark {
            let piece = slice_subrange(text, start, at);
            proof {
                let rest = text@.skip(start as int);
                assert forall|i: int| 0 <= i < at - start implies rest[i] != mark by {
                    assert(rest[i] == text@[start + i]);
                }
                lemma_first_at(rest, mark, at - start);
                assert(rest.take(at - start) == piece@);
                assert(rest.skip(at - start + 1) == text@.skip(at + 1));
                assert(views_of(out@.push(piece)) == views_of(out@) + seq![piece@]);
                assert(fields(rest, mark) == seq![piece@] + fields(text@.skip(at + 1), mark));
                assert(views_of(out@) + (seq![piece@] + fields(text@.skip(at + 1), mark)) == (
                views_of(out@) + seq![piece@]) + fields(text@.skip(at + 1), mark));
            }
            out.push(piece);
            start = at + 1;
        }
        at = at + 1;
    }
    let piece = slice_subrange(text, start, text.len());
    proof {
        let rest = text@.skip(start as int);
        assert forall|i: int| 0 <= i < rest.len() implies rest[i] != mark by {
            assert(rest[i] == text@[start + i]);
        }
        lemma_first_at(rest, mark, rest.len() as int);
        assert(rest == piece@);
        assert(views_of(out@.push(piece)) == views_of(out@) + seq![piece@]);
    }
    out.push(piece);
    out
}

/// Whether `byte` is one of the digits `0` to `9`.
pub open spec fn is_digit(byte: u8) -> bool {
    0x30 <= byte <= 0x39
}

/// The number that a run of decimal digits writes.
pub open spec fn decimal(digits: Seq<u8>) -> nat
    decreases digits.len(),
{
    if digits.len() == 0 {
        0
    } else {
        decimal(digits.drop_last()) * 10 + (digits.last() - 0x30) as nat
    }
}

/// The octet that `text` writes: one to three decimal digits, without a
/// leading zero unless the octet is written `0`, worth at most 255.
pub open spec fn octet_of(text: Seq<u8>) -> Option<u8> {
    if 1 <= text.len() <= 3 && (forall|i: int| 0 <= i < text.len() ==> is_digit(#[trigger] text[i]))
        && (text.len() == 1 || text[0] != 0x30) && decimal(text) <= 255 {
        Some(decimal(text) as u8)
    } else {
        None
    }
}

/// The number of the IPv4 address made of four octets, first octet first.
pub open spec fn quad(a: u8, b: u8, c: u8, d: u8) -> u32 {
    (((a * 0x100 + b) * 0x100 + c) * 0x100 + d) as u32
}

/// The IPv4 address that `text` writes: exactly four octets separated by
/// dots, and nothing else.
pub open spec fn ipv4_of(text: Seq<u8>) -> Option<u32> {
    let parts = fields(text, 0x2e);
    if parts.len() == 4 && octet_of(parts[0]) is Some && octet_of(parts[1]) is Some && octet_of(
        parts[2],
    ) is Some && octet_of(parts[3]) is Some {
        Some(
            quad(
                octet_of(parts[0])->0,
                octet_of(parts[1])->0,
                octet_of(parts[2])->0,
                octet_of(parts[3])->0,
            ),
        )
    } else {
        None
    }
}

/// Reads one octet of a dotted quad.
pub fn parse_octet(text: &[u8]) -> (out: Option<u8>)
    ensures
        out == octet_of(text@),
{
    let count = text.len();
    if count == 0 || count > 3 {
        return None;
    }
    if count > 1 && text[0] == 0x30 {
        return None;
    }
    let mut value: u16 = 0;
    let mut at: usize = 0;
    while at < count
        invariant
            at <= count <= 3,
            count == text@.len(),
            forall|i: int| 0 <= i < at ==> is_digit(#[trigger] text@[i]),
            value == decimal(text@.take(at as int)),
            at == 0 ==> value == 0,
            at == 1 ==> value <= 9,
            at == 2 ==> value <= 99,
        decreases count - at,
    {
        let byte = text[at];
        if byte < 0x30 || byte > 0x39 {
            return None;
        }
        assert(text@.take(at + 1).drop_last() == text@.take(at as int));
        value = value * 10 + (byte - 0x30) as u16;
        at = at + 1;
    }
    assert(text@.take(count as int) == text@);
    if value > 255 {
        None
    } else {
        Some(value as u8)
    }
}

/// Reads a dotted quad.
pub fn parse_ipv4(text: &[u8]) -> (out: Option<u32>)
    ensures
        out == ipv4_of(text@),
{
    let parts = split_fields(text, 0x2e);
    if parts.len() != 4 {
        return None;
    }
    assert(views_of(parts@)[0] == parts@[0]@);
    assert(views_of(parts@)[1] == parts@[1]@);
    assert(views_of(parts@)[2] == parts@[2]@);
    assert(views_of(parts@)[3] == parts@[3]@);
    let a = match parse_octet(parts[0]) {
        Some(octet) => octet,
        None => { return None; },
    };
    let b = match parse_octet(parts[1]) {
        Some(octet) => octet,
        None => { return None; },
    };
    let c = match parse_octet(parts[2]) {
        Some(octet) => octet,
        None => { return None; },
    };
    let d = match parse_octet(parts[3]) {
        Some(octet) => octet,
        None => { return None; },
    };
    Some((((a as u32) * 0x100 + b as u32) * 0x100 + c as u32) * 0x100 + d as u32)
}

/// The value of a hexadecimal digit, in either case.
pub open spec fn hex_digit(byte: u8) -> Option<u8> {
    if 0x30 <= byte <= 0x39 {
        Some((byte - 0x30) as u8)
    } else if 0x61 <= byte <= 0x66 {
        Some((byte - 0x61 + 10) as u8)
    } else if 0x41 <= byte <= 0x46 {
        Some((byte - 0x41 + 10) as u8)
    } else {
        None
    }
}

/// The number that a run of hexadecimal digits writes.
pub open spec fn hexadecimal(digits: Seq<u8>) -> nat
    decreases digits.len(),
{
    if digits.len() == 0 {
        0
    } else {
        hexadecimal(digits.drop_last()) * 16 + match hex_digit(digits.last()) {
            Some(value) => value as nat,
            None => 0,
        }
    }
}

/// The sixteen-bit group that `text` writes: one to four hexadecimal digits.
pub open spec fn group_of(text: Seq<u8>) -> Option<u16> {
    if 1 <= text.len() <= 4 && (forall|i: int|
        0 <= i < text.len() ==> hex_digit(#[trigger] text[i]) is Some) {
        Some(hexadecimal(text) as u16)
    } else {
        None
    }
}

/// The groups that `items` write if every one of them writes a group.
pub open spec fn plain_groups(items: Seq<Seq<u8>>) -> Option<Seq<u16>> {
    if forall|i: int| 0 <= i < items.len() ==> group_of(#[trigger] items[i]) is Some {
        Some(Seq::new(items.len(), |i: int| group_of(items[i])->0))
    } else {
        None
    }
}

/// The two groups that hold an embedded IPv4 address.
pub open spec fn quad_groups(number: u32) -> Seq<u16> {
    seq![(number / 0x1_0000) as u16, (number % 0x1_0000) as u16]
}

/// The groups that the items of a colon-separated list write. Every item is
/// a group, except that with `embedded` the last may be a dotted quad, which
/// stands for two groups.
pub open spec fn groups_of(items: Seq<Seq<u8>>, embedded: bool) -> Option<Seq<u16>> {
    if plain_groups(items) is Some {
        plain_groups(items)
    } else if embedded && items.len() > 0 && plain_groups(items.drop_last()) is Some && ipv4_of(
        items.last(),
    ) is Some {
        Some(plain_groups(items.drop_last())->0 + quad_groups(ipv4_of(items.last())->0))
    } else {
        None
    }
}

/// The groups that `text` lists. An empty text lists none.
pub open spec fn list_of(text: Seq<u8>, embedded: bool) -> Option<Seq<u16>> {
    if text.len() == 0 {
        Some(Seq::empty())
    } else {
        groups_of(fields(text, 0x3a), embedded)
    }
}

/// Whether a double colon starts at index `at` of `text`.
pub open spec fn gap_starts(text: Seq<u8>, at: int) -> bool {
    0 <= at && at + 1 < text.len() && text[at] == 0x3a && text[at + 1] == 0x3a
}

/// The index of the first double colon in `text`, or the length of `text` if
/// there is none.
pub open spec fn gap_at(text: Seq<u8>) -> int
    decreases text.len(),
{
    if text.len() < 2 {
        text.len() as int
    } else if text[0] == 0x3a && text[1] == 0x3a {
        0
    } else {
        1 + gap_at(text.skip(1))
    }
}

/// The number whose sixteen-bit digits are `groups`, most significant first.
pub open spec fn joined(groups: Seq<u16>) -> nat
    decreases groups.len(),
{
    if groups.len() == 0 {
        0
    } else {
        joined(groups.drop_last()) * 0x1_0000 + groups.last() as nat
    }
}

/// `count` groups of zero.
pub open spec fn zero_groups(count: int) -> Seq<u16> {
    Seq::new(count as nat, |i: int| 0u16)
}

/// The eight groups of the IPv6 address that `text` writes.
///
/// Without a double colon the text lists all eight groups. With one, the list
/// before it and the list after it together have at most seven groups, and
/// the double colon stands for the groups of zero that are missing between
/// them. Only the list that ends the text may end in a dotted quad. A second
/// double colon is an error.
pub open spec fn ipv6_groups(text: Seq<u8>) -> Option<Seq<u16>> {
    let gap = gap_at(text);
    if gap >= text.len() {
        match list_of(text, true) {
            Some(groups) => if groups.len() == 8 {
                Some(groups)
            } else {
                None
            },
            None => None,
        }
    } else {
        match (list_of(text.take(gap), false), list_of(text.skip(gap + 2), true)) {
            (Some(head), Some(tail)) => if head.len() + tail.len() <= 7 {
                Some(head + zero_groups(8 - head.len() - tail.len()) + tail)
            } else {
                None
            },
            _ => None,
        }
    }
}

/// The IPv6 address that `text` writes.
pub open spec fn ipv6_of(text: Seq<u8>) -> Option<u128> {
    match ipv6_groups(text) {
        Some(groups) => Some(joined(groups) as u128),
        None => None,
    }
}

/// The address that `text` writes: a dotted quad or colon-separated groups.
pub open spec fn address_of(text: Seq<u8>) -> Option<Address> {
    match ipv4_of(text) {
        Some(number) => Some(Address::V4(number)),
        None => match ipv6_of(text) {
            Some(number) => Some(Address::V6(number)),
            None => None,
        },
    }
}

/// `gap_at` finds position `at` when no double colon starts before it and
/// either one starts at it or fewer than two bytes are left there.
pub proof fn lemma_gap_at(text: Seq<u8>, at: int)
    requires
        0 <= at <= text.len(),
        forall|i: int| 0 <= i < at ==> !#[trigger] gap_starts(text, i),
        at == text.len() || gap_starts(text, at),
    ensures
        gap_at(text) == at,
    decreases at,
{
    if at > 0 {
        let rest = text.skip(1);
        assert forall|i: int| 0 <= i < at - 1 implies !#[trigger] gap_starts(rest, i) by {
            assert(!gap_starts(text, i + 1));
            if i + 1 < rest.len() {
                assert(rest[i] == text[i + 1]);
                assert(rest[i + 1] == text[i + 2]);
            }
        }
        if at < text.len() {
            assert(rest[at - 1] == text[at]);
            assert(rest[at] == text[at + 1]);
            assert(gap_starts(rest, at - 1));
        }
        assert(!gap_starts(text, 0));
        lemma_gap_at(rest, at - 1);
    }
}

/// Reads one group of an IPv6 address.
pub fn parse_group(text: &[u8]) -> (out: Option<u16>)
    ensures
        out == group_of(text@),
{
    let count = text.len();
    if count == 0 || count > 4 {
        return None;
    }
    let mut value: u32 = 0;
    let mut at: usize = 0;
    while at < count
        invariant
            at <= count <= 4,
            count == text@.len(),
            forall|i: int| 0 <= i < at ==> hex_digit(#[trigger] text@[i]) is Some,
            value == hexadecimal(text@.take(at as int)),
            at == 0 ==> value == 0,
            at == 1 ==> value <= 0xf,
            at == 2 ==> value <= 0xff,
            at == 3 ==> value <= 0xfff,
            at == 4 ==> value <= 0xffff,
        decreases count - at,
    {
        let byte = text[at];
        let digit: u8 = if 0x30 <= byte && byte <= 0x39 {
            byte - 0x30
        } else if 0x61 <= byte && byte <= 0x66 {
            byte - 0x61 + 10
        } else if 0x41 <= byte && byte <= 0x46 {
            byte - 0x41 + 10
        } else {
            return None;
        };
        assert(text@.take(at + 1).drop_last() == text@.take(at as int));
        value = value * 16 + digit as u32;
        at = at + 1;
    }
    assert(text@.take(count as int) == text@);
    Some(value as u16)
}

/// Reads a colon-separated list of groups.
pub fn parse_list(text: &[u8], embedded: bool) -> (out: Option<Vec<u16>>)
    ensures
        match (out, list_of(text@, embedded)) {
            (Some(groups), Some(model)) => groups@ == model,
            (None, None) => true,
            _ => false,
        },
{
    let mut groups: Vec<u16> = Vec::new();
    if text.len() == 0 {
        return Some(groups);
    }
    let items = split_fields(text, 0x3a);
    let ghost model = fields(text@, 0x3a);
    let last: usize = items.len() - 1;
    let mut at: usize = 0;
    while at < last
        invariant
            at <= last,
            last + 1 == items@.len(),
            text@.len() > 0,
            model == fields(text@, 0x3a),
            views_of(items@) == model,
            groups@.len() == at,
            forall|i: int| 0 <= i < at ==> group_of(#[trigger] model[i]) is Some,
            forall|i: int| 0 <= i < at ==> #[trigger] groups@[i] == group_of(model[i])->0,
        decreases last - at,
    {
        assert(views_of(items@)[at as int] == items@[at as int]@);
        match parse_group(items[at]) {
            Some(group) => {
                groups.push(group);
            },
            None => {
                assert(plain_groups(model) is None);
                assert(plain_groups(model.drop_last()) is None) by {
                    assert(model.drop_last()[at as int] == model[at as int]);
                }
                return None;
            },
        }
        at = at + 1;
    }
    assert(views_of(items@)[last as int] == items@[last as int]@);
    assert(model.last() == items@[last as int]@);
    proof {
        let front = model.drop_last();
        assert forall|i: int| 0 <= i < front.len() implies group_of(#[trigger] front[i]) is Some by {
            assert(front[i] == model[i]);
        }
        assert(plain_groups(front) is Some);
        assert(plain_groups(front)->0 == groups@);
    }
    match parse_group(items[last]) {
        Some(group) => {
            groups.push(group);
            assert(plain_groups(model) is Some);
            assert(plain_groups(model)->0 == groups@);
            Some(groups)
        },
        None => {
            assert(plain_groups(model) is None);
            if !embedded {
                return None;
            }
            match parse_ipv4(items[last]) {
                Some(number) => {
                    groups.push((number / 0x1_0000) as u16);
                    groups.push((number % 0x1_0000) as u16);
                    assert(groups@ == plain_groups(model.drop_last())->0 + quad_groups(number));
                    Some(groups)
                },
                None => None,
            }
        },
    }
}

/// Reads the number that eight groups make.
fn join_groups(groups: &Vec<u16>) -> (out: u128)
    requires
        groups@.len() == 8,
    ensures
        out == joined(groups@),
{
    proof {
        reveal_with_fuel(joined, 9);
        let g = groups@;
        assert(g.drop_last().len() == 7);
        assert(g.drop_last().drop_last().len() == 6);
        assert(g.drop_last().drop_last().drop_last().len() == 5);
        assert(g.drop_last().drop_last().drop_last().drop_last().len() == 4);
        assert(g.drop_last().drop_last().drop_last().drop_last().drop_last().len() == 3);
    }
    let a: u128 = groups[0] as u128;
    let b: u128 = a * 0x1_0000 + groups[1] as u128;
    let c: u128 = b * 0x1_0000 + groups[2] as u128;
    let d: u128 = c * 0x1_0000 + groups[3] as u128;
    let e: u128 = d * 0x1_0000 + groups[4] as u128;
    let f: u128 = e * 0x1_0000 + groups[5] as u128;
    let g: u128 = f * 0x1_0000 + groups[6] as u128;
    g * 0x1_0000 + groups[7] as u128
}

/// Reads an IPv6 address.
pub fn parse_ipv6(text: &[u8]) -> (out: Option<u128>)
    ensures
        out == ipv6_of(text@),
{
    let len = text.len();
    let mut gap: usize = 0;
    let mut found = false;
    while len >= 2 && gap < len - 1
        invariant_except_break
            !found,
        invariant
            len == text@.len(),
            gap <= text@.len(),
            forall|i: int| 0 <= i < gap ==> !#[trigger] gap_starts(text@, i),
        ensures
            gap <= text@.len(),
            forall|i: int| 0 <= i < gap ==> !#[trigger] gap_starts(text@, i),
            found ==> gap_starts(text@, gap as int),
            !found ==> gap + 1 >= text@.len(),
        decreases text@.len() - gap,
    {
        if text[gap] == 0x3a && text[gap + 1] == 0x3a {
            found = true;
            break ;
        }
        gap = gap + 1;
    }
    if !found {
        proof {
            assert forall|i: int| 0 <= i < text@.len() implies !#[trigger] gap_starts(text@, i) by {
                if i >= gap {
                    assert(i + 1 >= text@.len());
                }
            }
            lemma_gap_at(text@, text@.len() as int);
        }
        return match parse_list(text, true) {
            Some(groups) => if groups.len() == 8 {
                Some(join_groups(&groups))
            } else {
                None
            },
            None => None,
        };
    }
    proof {
        lemma_gap_at(text@, gap as int);
    }
    let head = match parse_list(slice_subrange(text, 0, gap), false) {
        Some(groups) => groups,
        None => { return None; },
    };
    let tail = match parse_list(slice_subrange(text, gap + 2, len), true) {
        Some(groups) => groups,
        None => { return None; },
    };
    if head.len() > 7 || tail.len() > 7 - head.len() {
        return None;
    }
    let missing: usize = 8 - head.len() - tail.len();
    let mut all: Vec<u16> = Vec::new();
    let mut at: usize = 0;
    while at < head.len()
        invariant
            at <= head@.len(),
            all@ == head@.take(at as int),
        decreases head@.len() - at,
    {
        all.push(head[at]);
        at = at + 1;
        assert(head@.take(at as int) == head@.take(at - 1).push(head@[at - 1]));
    }
    assert(head@.take(head@.len() as int) == head@);
    at = 0;
    while at < missing
        invariant
            at <= missing,
            all@ == head@ + zero_groups(at as int),
        decreases missing - at,
    {
        all.push(0);
        at = at + 1;
        assert(zero_groups(at as int) == zero_groups(at - 1).push(0u16));
    }
    at = 0;
    while at < tail.len()
        invariant
            at <= tail@.len(),
            all@ == head@ + zero_groups(missing as int) + tail@.take(at as int),
        decreases tail@.len() - at,
    {
        all.push(tail[at]);
        at = at + 1;
        assert(tail@.take(at as int) == tail@.take(at - 1).push(tail@[at - 1]));
    }
    assert(tail@.take(tail@.len() as int) == tail@);
    Some(join_groups(&all))
}

/// Reads an address: a dotted quad or colon-separated groups.
pub fn parse_address(text: &[u8]) -> (out: Option<Address>)
    ensures
        out == address_of(text@),
{
    match parse_ipv4(text) {
        Some(number) => Some(Address::V4(number)),
        None => match parse_ipv6(text) {
            Some(number) => Some(Address::V6(number)),
            None => None,
        },
    }
}

/// Whether `a` alone encodes a white-space character: a tab, a line feed, a
/// vertical tab, a form feed, a carriage return or a space.
pub open spec fn space1(a: u8) -> bool {
    0x09 <= a <= 0x0d || a == 0x20
}

/// Whether `a b` encodes a white-space character: U+0085 or U+00A0.
pub open spec fn space2(a: u8, b: u8) -> bool {
    a == 0xc2 && (b == 0x85 || b == 0xa0)
}

/// Whether `a b c` encodes a white-space character: U+1680, U+2000 to
/// U+200A, U+2028, U+2029, U+202F, U+205F or U+3000.
pub open spec fn space3(a: u8, b: u8, c: u8) -> bool {
    ||| a == 0xe1 && b == 0x9a && c == 0x80
    ||| a == 0xe2 && b == 0x80 && (0x80 <= c <= 0x8a || c == 0xa8 || c == 0xa9 || c == 0xaf)
    ||| a == 0xe2 && b == 0x81 && c == 0x9f
    ||| a == 0xe3 && b == 0x80 && c == 0x80
}

/// The number of bytes of the white-space character that `text` begins
/// with, or zero if it begins with none.
pub open spec fn leading_space(text: Seq<u8>) -> int {
    if text.len() >= 1 && space1(text[0]) {
        1
    } else if text.len() >= 2 && space2(text[0], text[1]) {
        2
    } else if text.len() >= 3 && space3(text[0], text[1], text[2]) {
        3
    } else {
        0
    }
}

/// The number of bytes of the white-space character that `text` ends with,
/// or zero if it ends with none.
pub open spec fn trailing_space(text: Seq<u8>) -> int {
    let n = text.len() as int;
    if n >= 1 && space1(text[n - 1]) {
        1
    } else if n >= 2 && space2(text[n - 2], text[n - 1]) {
        2
    } else if n >= 3 && space3(text[n - 3], text[n - 2], text[n - 1]) {
        3
    } else {
        0
    }
}

/// `text` without the white space it begins with.
pub open spec fn trim_start(text: Seq<u8>) -> Seq<u8>
    decreases text.len(),
{
    let n = leading_space(text);
    if n > 0 {
        trim_start(text.skip(n))
    } else {
        text
    }
}

/// `text` without the white space it ends with.
pub open spec fn trim_end(text: Seq<u8>) -> Seq<u8>
    decreases text.len(),
{
    let n = trailing_space(text);
    if n > 0 {
        trim_end(text.take(text.len() - n))
    } else {
        text
    }
}

/// `text` without the white space around it.
pub open spec fn trimmed(text: Seq<u8>) -> Seq<u8> {
    trim_end(trim_start(text))
}

/// The addresses that `lines` write, in order. Each line is trimmed first; a
/// line that then writes no address is passed over.
pub open spec fn addresses_in(lines: Seq<Seq<u8>>) -> Seq<Address>
    decreases lines.len(),
{
    if lines.len() == 0 {
        Seq::empty()
    } else {
        match address_of(trimmed(lines.last())) {
            Some(address) => addresses_in(lines.drop_last()).push(address),
            None => addresses_in(lines.drop_last()),
        }
    }
}

/// The addresses that a blacklist file holds: one to a line.
pub open spec fn entries_of(text: Seq<u8>) -> Seq<Address> {
    addresses_in(fields(text, 0x0a))
}

fn is_space1(a: u8) -> (out: bool)
    ensures
        out == space1(a),
{
    (0x09 <= a && a <= 0x0d) || a == 0x20
}

fn is_space2(a: u8, b: u8) -> (out: bool)
    ensures
        out == space2(a, b),
{
    a == 0xc2 && (b == 0x85 || b == 0xa0)
}

fn is_space3(a: u8, b: u8, c: u8) -> (out: bool)
    ensures
        out == space3(a, b, c),
{
    (a == 0xe1 && b == 0x9a && c == 0x80) || (a == 0xe2 && b == 0x80 && ((0x80 <= c && c <= 0x8a)
        || c == 0xa8 || c == 0xa9 || c == 0xaf)) || (a == 0xe2 && b == 0x81 && c == 0x9f) || (a
        == 0xe3 && b == 0x80 && c == 0x80)
}

/// Strips the white space around `text`.
pub fn trim<'a>(text: &'a [u8]) -> (out: &'a [u8])
    ensures
        out@ == trimmed(text@),
{
    let mut rest = text;
    loop
        invariant
            trim_start(text@) == trim_start(rest@),
        ensures
            rest@ == trim_start(text@),
        decreases rest@.len(),
    {
        let n = rest.len();
        let skip: usize = if n >= 1 && is_space1(rest[0]) {
            1
        } else if n >= 2 && is_space2(rest[0], rest[1]) {
            2
        } else if n >= 3 && is_space3(rest[0], rest[1], rest[2]) {
            3
        } else {
            0
        };
        if skip == 0 {
            break ;
        }
        rest = slice_subrange(rest, skip, n);
    }
    let ghost front = rest@;
    loop
        invariant
            trim_end(front) == trim_end(rest@),
        ensures
            rest@ == trim_end(front),
        decreases rest@.len(),
    {
        let n = rest.len();
        let drop: usize = if n >= 1 && is_space1(rest[n - 1]) {
            1
        } else if n >= 2 && is_space2(rest[n - 2], rest[n - 1]) {
            2
        } else if n >= 3 && is_space3(rest[n - 3], rest[n - 2], rest[n - 1]) {
            3
        } else {
            0
        };
        if drop == 0 {
            break ;
        }
        rest = slice_subrange(rest, 0, n - drop);
    }
    rest
}

/// Reads the addresses that a blacklist file holds.
pub fn parse_entries(text: &[u8]) -> (out: Vec<Address>)
    ensures
        out@ == entries_of(text@),
{
    let lines = split_fields(text, 0x0a);
    let mut out: Vec<Address> = Vec::new();
    let mut at: usize = 0;
    while at < lines.len()
        invariant
            at <= lines@.len(),
            out@ == addresses_in(views_of(lines@).take(at as int)),
        decreases lines@.len() - at,
    {
        let ghost seen = views_of(lines@).take(at + 1);
        assert(seen.drop_last() == views_of(lines@).take(at as int));
        assert(seen.last() == lines@[at as int]@);
        match parse_address(trim(lines[at])) {
            Some(address) => {
                out.push(address);
            },
            None => {},
        }
        at = at + 1;
    }
    assert(views_of(lines@).take(lines@.len() as int) == views_of(lines@));
    out
}

/// The decimal digits of `value`, without leading zeros.
pub open spec fn decimal_text(value: nat) -> Seq<u8>
    decreases value,
{
    if value < 10 {
        seq![(0x30 + value) as u8]
    } else {
        decimal_text(value / 10).push((0x30 + value % 10) as u8)
    }
}

/// The hexadecimal digit for a value below sixteen, in lower case.
pub open spec fn hex_char(value: nat) -> u8 {
    if value < 10 {
        (0x30 + value) as u8
    } else {
        (0x61 + value - 10) as u8
    }
}

/// The hexadecimal digits of `value`, in lower case, without leading zeros.
pub open spec fn hex_text(value: nat) -> Seq<u8>
    decreases value,
{
    if value < 16 {
        seq![hex_char(value)]
    } else {
        hex_text(value / 16).push(hex_char(value % 16))
    }
}

/// The dotted quad that writes the IPv4 address `number`.
pub open spec fn ipv4_text(number: u32) -> Seq<u8> {
    decimal_text((number / 0x100_0000) as nat) + seq![0x2eu8] + decimal_text(
        (number / 0x1_0000 % 0x100) as nat,
    ) + seq![0x2eu8] + decimal_text((number / 0x100 % 0x100) as nat) + seq![0x2eu8]
        + decimal_text((number % 0x100) as nat)
}

/// The eight groups of the IPv6 address `number`, most significant first.
pub open spec fn groups_from(number: u128) -> Seq<u16> {
    seq![
        (number / 0x1_0000_0000_0000_0000_0000_0000_0000) as u16,
        (number / 0x1_0000_0000_0000_0000_0000_0000 % 0x1_0000) as u16,
        (number / 0x1_0000_0000_0000_0000_0000 % 0x1_0000) as u16,
        (number / 0x1_0000_0000_0000_0000 % 0x1_0000) as u16,
        (number / 0x1_0000_0000_0000 % 0x1_0000) as u16,
        (number / 0x1_0000_0000 % 0x1_0000) as u16,
        (number / 0x1_0000 % 0x1_0000) as u16,
        (number % 0x1_0000) as u16,
    ]
}

/// `groups` written in hexadecimal with a colon between neighbours.
pub open spec fn groups_text(groups: Seq<u16>) -> Seq<u8>
    decreases groups.len(),
{
    if groups.len() == 0 {
        Seq::empty()
    } else if groups.len() == 1 {
        hex_text(groups[0] as nat)
    } else {
        groups_text(groups.drop_last()) + seq![0x3au8] + hex_text(groups.last() as nat)
    }
}

/// The number of groups of zero in a row from index `at` on.
pub open spec fn run_len(groups: Seq<u16>, at: int) -> nat
    decreases groups.len() - at,
{
    if at < 0 || at >= groups.len() || groups[at] != 0 {
        0
    } else {
        1 + run_len(groups, at + 1)
    }
}

/// Where the longest run of zero groups that starts at or before `upto`
/// starts; of several longest runs, the first.
pub open spec fn longest_run(groups: Seq<u16>, upto: int) -> int
    decreases upto,
{
    if upto <= 0 {
        0
    } else {
        let before = longest_run(groups, upto - 1);
        if run_len(groups, upto) > run_len(groups, before) {
            upto
        } else {
            before
        }
    }
}

/// Whether the IPv6 address with these eight groups embeds an IPv4 address
/// after the prefix `::ffff:`.
pub open spec fn mapped(groups: Seq<u16>) -> bool {
    groups[0] == 0 && groups[1] == 0 && groups[2] == 0 && groups[3] == 0 && groups[4] == 0
        && groups[5] == 0xffff
}

/// The text that writes the IPv6 address with the eight groups `groups`.
///
/// An address that embeds an IPv4 address is written `::ffff:` and the
/// dotted quad. In any other, the longest run of two or more zero groups,
/// the first of them if there are several, is written as a double colon, and
/// the groups on either side as lists.
pub open spec fn eight_groups_text(groups: Seq<u16>) -> Seq<u8> {
    if mapped(groups) {
        seq![0x3au8, 0x3au8, 0x66u8, 0x66u8, 0x66u8, 0x66u8, 0x3au8] + ipv4_text(
            (groups[6] * 0x1_0000 + groups[7]) as u32,
        )
    } else {
        let start = longest_run(groups, 7);
        let length = run_len(groups, start);
        if length > 1 {
            groups_text(groups.take(start)) + seq![0x3au8, 0x3au8] + groups_text(
                groups.skip(start + length),
            )
        } else {
            groups_text(groups)
        }
    }
}

/// The text that writes the IPv6 address `number`.
pub open spec fn ipv6_text(number: u128) -> Seq<u8> {
    eight_groups_text(groups_from(number))
}

/// The text that writes `address`.
pub open spec fn address_text(address: Address) -> Seq<u8> {
    match address {
        Address::V4(number) => ipv4_text(number),
        Address::V6(number) => ipv6_text(number),
    }
}

fn push_decimal(out: &mut Vec<u8>, value: u8)
    ensures
        final(out)@ == old(out)@ + decimal_text(value as nat),
{
    proof {
        reveal_with_fuel(decimal_text, 3);
    }
    if value >= 100 {
        out.push(0x30 + value / 100);
    }
    if value >= 10 {
        out.push(0x30 + value / 10 % 10);
    }
    out.push(0x30 + value % 10);
    assert(out@ == old(out)@ + decimal_text(value as nat));
}

fn hex_digit_for(value: u16) -> (out: u8)
    requires
        value < 16,
    ensures
        out == hex_char(value as nat),
{
    if value < 10 {
        0x30 + value as u8
    } else {
        0x61 + (value - 10) as u8
    }
}

fn push_hex(out: &mut Vec<u8>, value: u16)
    ensures
        final(out)@ == old(out)@ + hex_text(value as nat),
{
    proof {
        reveal_with_fuel(hex_text, 4);
    }
    if value >= 0x1000 {
        out.push(hex_digit_for(value / 0x1000));
    }
    if value >= 0x100 {
        out.push(hex_digit_for(value / 0x100 % 16));
    }
    if value >= 0x10 {
        out.push(hex_digit_for(value / 0x10 % 16));
    }
    out.push(hex_digit_for(value % 16));
    assert(out@ == old(out)@ + hex_text(value as nat));
}

fn push_ipv4(out: &mut Vec<u8>, number: u32)
    ensures
        final(out)@ == old(out)@ + ipv4_text(number),
{
    push_decimal(out, (number / 0x100_0000) as u8);
    out.push(0x2e);
    push_decimal(out, (number / 0x1_0000 % 0x100) as u8);
    out.push(0x2e);
    push_decimal(out, (number / 0x100 % 0x100) as u8);
    out.push(0x2e);
    push_decimal(out, (number % 0x100) as u8);
    assert(out@ == old(out)@ + ipv4_text(number));
}

fn push_groups(out: &mut Vec<u8>, groups: &Vec<u16>, from: usize, to: usize)
    requires
        from <= to <= groups@.len(),
    ensures
        final(out)@ == old(out)@ + groups_text(groups@.subrange(from as int, to as int)),
{
    let mut at: usize = from;
    while at < to
        invariant
            from <= at <= to <= groups@.len(),
            out@ == old(out)@ + groups_text(groups@.subrange(from as int, at as int)),
        decreases to - at,
    {
        let ghost done = groups@.subrange(from as int, at as int);
        let ghost next = groups@.subrange(from as int, at + 1);
        assert(next.drop_last() == done);
        assert(next.last() == groups@[at as int]);
        if at > from {
            out.push(0x3a);
        }
        push_hex(out, groups[at]);
        assert(out@ == old(out)@ + groups_text(next));
        at = at + 1;
    }
}

fn split_groups(number: u128) -> (out: Vec<u16>)
    ensures
        out@ == groups_from(number),
{
    let mut out: Vec<u16> = Vec::new();
    out.push((number / 0x1_0000_0000_0000_0000_0000_0000_0000) as u16);
    out.push((number / 0x1_0000_0000_0000_0000_0000_0000 % 0x1_0000) as u16);
    out.push((number / 0x1_0000_0000_0000_0000_0000 % 0x1_0000) as u16);
    out.push((number / 0x1_0000_0000_0000_0000 % 0x1_0000) as u16);
    out.push((number / 0x1_0000_0000_0000 % 0x1_0000) as u16);
    out.push((number / 0x1_0000_0000 % 0x1_0000) as u16);
    out.push((number / 0x1_0000 % 0x1_0000) as u16);
    out.push((number % 0x1_0000) as u16);
    assert(out@ == groups_from(number));
    out
}

proof fn lemma_run_len(groups: Seq<u16>, at: int, end: int)
    requires
        0 <= at <= end <= groups.len(),
        forall|i: int| at <= i < end ==> groups[i] == 0,
        end == groups.len() || groups[end] != 0,
    ensures
        run_len(groups, at) == end - at,
    decreases end - at,
{
    if at < end {
        lemma_run_len(groups, at + 1, end);
    }
}

fn zero_run(groups: &Vec<u16>, at: usize) -> (out: usize)
    requires
        at <= groups@.len(),
    ensures
        out == run_len(groups@, at as int),
        at + out <= groups@.len(),
{
    let mut end: usize = at;
    while end < groups.len() && groups[end] == 0
        invariant
            at <= end <= groups@.len(),
            forall|i: int| at <= i < end ==> groups@[i] == 0,
        decreases groups@.len() - end,
    {
        end = end + 1;
    }
    proof {
        lemma_run_len(groups@, at as int, end as int);
    }
    end - at
}

fn push_ipv6(out: &mut Vec<u8>, number: u128)
    ensures
        final(out)@ == old(out)@ + ipv6_text(number),
{
    let groups = split_groups(number);
    if groups[0] == 0 && groups[1] == 0 && groups[2] == 0 && groups[3] == 0 && groups[4] == 0
        && groups[5] == 0xffff {
        out.push(0x3a);
        out.push(0x3a);
        out.push(0x66);
        out.push(0x66);
        out.push(0x66);
        out.push(0x66);
        out.push(0x3a);
        push_ipv4(out, (groups[6] as u32) * 0x1_0000 + groups[7] as u32);
        assert(out@ == old(out)@ + ipv6_text(number));
        return ;
    }
    let mut start: usize = 0;
    let mut length: usize = zero_run(&groups, 0);
    let mut at: usize = 1;
    while at < 8
        invariant
            1 <= at <= 8,
            groups@.len() == 8,
            start == longest_run(groups@, at - 1),
            length == run_len(groups@, start as int),
            start < 8,
            start + length <= 8,
        decreases 8 - at,
    {
        let here = zero_run(&groups, at);
        if here > length {
            start = at;
            length = here;
        }
        at = at + 1;
    }
    if length > 1 {
        push_groups(out, &groups, 0, start);
        out.push(0x3a);
        out.push(0x3a);
        push_groups(out, &groups, start + length, 8);
        assert(groups@.subrange(0, start as int) == groups@.take(start as int));
        assert(groups@.subrange(start + length, 8) == groups@.skip(start + length));
        assert(out@ == old(out)@ + ipv6_text(number));
    } else {
        push_groups(out, &groups, 0, 8);
        assert(groups@.subrange(0, 8) == groups@);
        assert(out@ == old(out)@ + ipv6_text(number));
    }
}

/// Writes `address` as text.
pub fn format_address(address: Address) -> (out: Vec<u8>)
    ensures
        out@ == address_text(address),
{
    let mut out: Vec<u8> = Vec::new();
    match address {
        Address::V4(number) => push_ipv4(&mut out, number),
        Address::V6(number) => push_ipv6(&mut out, number),
    }
    out
}

/// The line that bans `address`: its text and a line feed.
pub fn ban_line(address: Address) -> (out: Vec<u8>)
    ensures
        out@ == address_text(address).push(0x0a),
{
    let mut out = format_address(address);
    out.push(0x0a);
    out
}

} // verus!
