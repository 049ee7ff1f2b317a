//! What is written reads back: the laws that tie the text of an address to
//! the address, and a blacklist file to the addresses banned through it.

use crate::address::Address;
use crate::strikes::{lemma_threshold_bans, struck_times, Penalties, MAX_STRIKES};
use crate::notation::{
    address_of, address_text, addresses_in, decimal, decimal_text, entries_of, fields, first_at,
    gap_at, gap_starts, group_of, groups_from, groups_of, groups_text, hex_char, hex_digit,
    hex_text, hexadecimal, eight_groups_text, ipv4_of, ipv4_text, ipv6_groups, ipv6_of, ipv6_text,
    is_digit, joined, leading_space, lemma_first_at, lemma_gap_at, list_of, longest_run, mapped,
    octet_of, plain_groups, quad, quad_groups, run_len, trailing_space, trim_end, trim_start,
    trimmed, zero_groups,
};
use vstd::arithmetic::div_mod::{lemma_div_denominator, lemma_fundamental_div_mod};
use vstd::prelude::*;

verus! {

/// Where `first_at` points: at a mark or at the end, with no mark before it.
pub proof fn lemma_first_at_found(text: Seq<u8>, mark: u8)
    ensures
        0 <= first_at(text, mark) <= text.len(),
        forall|i: int| 0 <= i < first_at(text, mark) ==> text[i] != mark,
        first_at(text, mark) < text.len() ==> text[first_at(text, mark)] == mark,
    decreases text.len(),
{
    if !(text.len() == 0 || text[0] == mark) {
        let rest = text.skip(1);
        lemma_first_at_found(rest, mark);
        assert forall|i: int| 0 <= i < first_at(text, mark) implies text[i] != mark by {
            if i > 0 {
                assert(rest[i - 1] == text[i]);
            }
        }
        if first_at(text, mark) < text.len() {
            assert(rest[first_at(rest, mark)] == text[first_at(text, mark)]);
        }
    }
}

/// A text without the mark is a single field.
pub proof fn lemma_fields_single(text: Seq<u8>, mark: u8)
    requires
        forall|i: int| 0 <= i < text.len() ==> text[i] != mark,
    ensures
        fields(text, mark) == seq![text],
{
    lemma_first_at(text, mark, text.len() as int);
}

/// Cutting distributes over joining: the fields of two texts joined by a
/// mark are the fields of the first followed by the fields of the second.
pub proof fn lemma_fields_join(left: Seq<u8>, mark: u8, right: Seq<u8>)
    ensures
        fields(left + seq![mark] + right, mark) == fields(left, mark) + fields(right, mark),
    decreases left.len(),
{
    let whole = left + seq![mark] + right;
    let cut = first_at(left, mark);
    lemma_first_at_found(left, mark);
    assert forall|i: int| 0 <= i < cut implies whole[i] != mark by {
        assert(whole[i] == left[i]);
    }
    if cut < left.len() {
        assert(whole[cut] == left[cut]);
        lemma_first_at(whole, mark, cut);
        let rest = left.skip(cut + 1);
        assert(whole.take(cut) == left.take(cut));
        assert(whole.skip(cut + 1) == rest + seq![mark] + right);
        lemma_fields_join(rest, mark, right);
        assert(fields(whole, mark) == seq![left.take(cut)] + (fields(rest, mark) + fields(
            right,
            mark,
        )));
        assert(fields(left, mark) == seq![left.take(cut)] + fields(rest, mark));
        assert(seq![left.take(cut)] + (fields(rest, mark) + fields(right, mark)) == (seq![
            left.take(cut),
        ] + fields(rest, mark)) + fields(right, mark));
    } else {
        assert(whole[cut] == mark);
        lemma_first_at(whole, mark, cut);
        assert(whole.take(cut) == left);
        assert(whole.skip(cut + 1) == right);
        assert(fields(left, mark) == seq![left]);
    }
}

/// Whether every byte of `text` is a decimal digit.
pub open spec fn all_digits(text: Seq<u8>) -> bool {
    forall|i: int| 0 <= i < text.len() ==> is_digit(#[trigger] text[i])
}

/// The text of an octet reads back as the octet, and it is one to three
/// digits.
pub proof fn lemma_octet_reads_back(value: u8)
    ensures
        octet_of(decimal_text(value as nat)) == Some(value),
        all_digits(decimal_text(value as nat)),
        1 <= decimal_text(value as nat).len() <= 3,
{
    reveal_with_fuel(decimal_text, 3);
    reveal_with_fuel(decimal, 4);
    let text = decimal_text(value as nat);
    if value < 10 {
        assert(text == seq![(0x30 + value) as u8]);
        assert(text.drop_last() == Seq::<u8>::empty());
    } else if value < 100 {
        let a = (0x30 + value / 10) as u8;
        let b = (0x30 + value % 10) as u8;
        assert(text == seq![a, b]);
        assert(text.drop_last() == seq![a]);
        assert(text.drop_last().drop_last() == Seq::<u8>::empty());
    } else {
        let a = (0x30 + value / 100) as u8;
        let b = (0x30 + value / 10 % 10) as u8;
        let c = (0x30 + value % 10) as u8;
        assert(text == seq![a, b, c]);
        assert(text.drop_last() == seq![a, b]);
        assert(text.drop_last().drop_last() == seq![a]);
        assert(text.drop_last().drop_last().drop_last() == Seq::<u8>::empty());
    }
}

proof fn lemma_digits_hold_no(text: Seq<u8>, mark: u8)
    requires
        all_digits(text),
        !is_digit(mark),
    ensures
        forall|i: int| 0 <= i < text.len() ==> text[i] != mark,
{
    assert forall|i: int| 0 <= i < text.len() implies text[i] != mark by {
        assert(is_digit(text[i]));
    }
}

/// The octets of an IPv4 address make up its number.
pub proof fn lemma_quad_of_octets(number: u32)
    ensures
        quad(
            (number / 0x100_0000) as u8,
            (number / 0x1_0000 % 0x100) as u8,
            (number / 0x100 % 0x100) as u8,
            (number % 0x100) as u8,
        ) == number,
{
    let n = number as int;
    lemma_fundamental_div_mod(n, 0x100);
    lemma_fundamental_div_mod(n / 0x100, 0x100);
    lemma_fundamental_div_mod(n / 0x1_0000, 0x100);
    lemma_div_denominator(n, 0x100, 0x100);
    lemma_div_denominator(n, 0x1_0000, 0x100);
}

/// The fields of a dotted quad are the texts of its four octets.
pub proof fn lemma_ipv4_fields(number: u32)
    ensures
        fields(ipv4_text(number), 0x2e) == seq![
            decimal_text((number / 0x100_0000) as nat),
            decimal_text((number / 0x1_0000 % 0x100) as nat),
            decimal_text((number / 0x100 % 0x100) as nat),
            decimal_text((number % 0x100) as nat),
        ],
{
    let a = decimal_text((number / 0x100_0000) as nat);
    let b = decimal_text((number / 0x1_0000 % 0x100) as nat);
    let c = decimal_text((number / 0x100 % 0x100) as nat);
    let d = decimal_text((number % 0x100) as nat);
    let dot = 0x2eu8;
    lemma_octet_reads_back((number / 0x100_0000) as u8);
    lemma_octet_reads_back((number / 0x1_0000 % 0x100) as u8);
    lemma_octet_reads_back((number / 0x100 % 0x100) as u8);
    lemma_octet_reads_back((number % 0x100) as u8);
    lemma_digits_hold_no(a, dot);
    lemma_digits_hold_no(b, dot);
    lemma_digits_hold_no(c, dot);
    lemma_digits_hold_no(d, dot);
    lemma_fields_single(a, dot);
    lemma_fields_single(b, dot);
    lemma_fields_single(c, dot);
    lemma_fields_single(d, dot);
    let cd = c + seq![dot] + d;
    let bcd = b + seq![dot] + cd;
    lemma_fields_join(c, dot, d);
    lemma_fields_join(b, dot, cd);
    lemma_fields_join(a, dot, bcd);
    assert(ipv4_text(number) == a + seq![dot] + bcd);
    assert(fields(ipv4_text(number), dot) == seq![a] + (seq![b] + (seq![c] + seq![d])));
}

/// A dotted quad reads back as the address it was written for.
pub proof fn lemma_ipv4_reads_back(number: u32)
    ensures
        ipv4_of(ipv4_text(number)) == Some(number),
{
    lemma_ipv4_fields(number);
    lemma_octet_reads_back((number / 0x100_0000) as u8);
    lemma_octet_reads_back((number / 0x1_0000 % 0x100) as u8);
    lemma_octet_reads_back((number / 0x100 % 0x100) as u8);
    lemma_octet_reads_back((number % 0x100) as u8);
    lemma_quad_of_octets(number);
}

/// Whether `byte` is a hexadecimal digit as this library writes them.
pub open spec fn is_lower_hex(byte: u8) -> bool {
    0x30 <= byte <= 0x39 || 0x61 <= byte <= 0x66
}

/// Whether every byte of `text` is a hexadecimal digit or a colon.
pub open spec fn colon_hex(text: Seq<u8>) -> bool {
    forall|i: int| 0 <= i < text.len() ==> is_lower_hex(#[trigger] text[i]) || text[i] == 0x3a
}

/// The text of a group reads back as the group, and it is one to four
/// hexadecimal digits.
pub proof fn lemma_group_reads_back(value: u16)
    ensures
        group_of(hex_text(value as nat)) == Some(value),
        forall|i: int|
            0 <= i < hex_text(value as nat).len() ==> is_lower_hex(
                #[trigger] hex_text(value as nat)[i],
            ),
        1 <= hex_text(value as nat).len() <= 4,
{
    reveal_with_fuel(hex_text, 4);
    reveal_with_fuel(hexadecimal, 5);
    let text = hex_text(value as nat);
    let v = value as nat;
    assert forall|n: nat| n < 16 implies hex_digit(#[trigger] hex_char(n)) == Some(n as u8) by {}
    if value < 0x10 {
        assert(text == seq![hex_char(v)]);
        assert(text.drop_last() == Seq::<u8>::empty());
    } else if value < 0x100 {
        let a = hex_char(v / 16);
        let b = hex_char(v % 16);
        assert(text == seq![a, b]);
        assert(text.drop_last() == seq![a]);
        assert(text.drop_last().drop_last() == Seq::<u8>::empty());
    } else if value < 0x1000 {
        let a = hex_char(v / 256);
        let b = hex_char(v / 16 % 16);
        let c = hex_char(v % 16);
        assert(text == seq![a, b, c]);
        assert(text.drop_last() == seq![a, b]);
        assert(text.drop_last().drop_last() == seq![a]);
        assert(text.drop_last().drop_last().drop_last() == Seq::<u8>::empty());
    } else {
        let a = hex_char(v / 4096);
        let b = hex_char(v / 256 % 16);
        let c = hex_char(v / 16 % 16);
        let d = hex_char(v % 16);
        assert(text == seq![a, b, c, d]);
        assert(text.drop_last() == seq![a, b, c]);
        assert(text.drop_last().drop_last() == seq![a, b]);
        assert(text.drop_last().drop_last().drop_last() == seq![a]);
        assert(text.drop_last().drop_last().drop_last().drop_last() == Seq::<u8>::empty());
    }
}

/// The texts of `groups`, one for each.
pub open spec fn texts_of(groups: Seq<u16>) -> Seq<Seq<u8>> {
    Seq::new(groups.len(), |i: int| hex_text(groups[i] as nat))
}

/// A list of groups is made of hexadecimal digits and single colons, and it
/// neither begins nor ends with a colon.
pub proof fn lemma_list_shape(groups: Seq<u16>)
    ensures
        colon_hex(groups_text(groups)),
        forall|i: int| !#[trigger] gap_starts(groups_text(groups), i),
        groups.len() == 0 ==> groups_text(groups).len() == 0,
        groups.len() > 0 ==> groups_text(groups).len() > 0 && groups_text(groups)[0] != 0x3a
            && groups_text(groups).last() != 0x3a,
    decreases groups.len(),
{
    let text = groups_text(groups);
    if groups.len() == 1 {
        lemma_group_reads_back(groups[0]);
        assert forall|i: int| !#[trigger] gap_starts(text, i) by {
            if 0 <= i < text.len() {
                assert(is_lower_hex(text[i]));
            }
        }
    } else if groups.len() > 1 {
        let front = groups_text(groups.drop_last());
        let back = hex_text(groups.last() as nat);
        lemma_list_shape(groups.drop_last());
        lemma_group_reads_back(groups.last());
        assert(text == front + seq![0x3au8] + back);
        assert forall|i: int| 0 <= i < text.len() implies is_lower_hex(#[trigger] text[i])
            || text[i] == 0x3a by {
            if i < front.len() {
                assert(text[i] == front[i]);
            } else if i > front.len() {
                assert(text[i] == back[i - front.len() - 1]);
            }
        }
        assert(text[front.len() as int] == 0x3a);
        assert(text[front.len() - 1] == front.last());
        assert(text[front.len() as int + 1] == back[0]);
        assert(is_lower_hex(back[0]));
        assert(text.last() == back.last());
        assert(is_lower_hex(back.last()));
        assert(text[0] == front[0]);
        assert forall|i: int| !#[trigger] gap_starts(text, i) by {
            if 0 <= i && i + 1 < text.len() {
                if i + 1 < front.len() {
                    assert(text[i] == front[i]);
                    assert(text[i + 1] == front[i + 1]);
                    assert(!gap_starts(front, i));
                } else if i > front.len() {
                    assert(text[i] == back[i - front.len() - 1]);
                    assert(is_lower_hex(back[i - front.len() - 1]));
                }
            }
        }
    }
}

/// The fields of a list of groups are the texts of the groups.
pub proof fn lemma_list_fields(groups: Seq<u16>)
    requires
        groups.len() > 0,
    ensures
        fields(groups_text(groups), 0x3a) == texts_of(groups),
    decreases groups.len(),
{
    let colon = 0x3au8;
    if groups.len() == 1 {
        lemma_group_reads_back(groups[0]);
        let text = hex_text(groups[0] as nat);
        assert forall|i: int| 0 <= i < text.len() implies text[i] != colon by {
            assert(is_lower_hex(text[i]));
        }
        lemma_fields_single(text, colon);
        assert(texts_of(groups) == seq![text]);
    } else {
        let front = groups.drop_last();
        let back = hex_text(groups.last() as nat);
        lemma_list_fields(front);
        lemma_group_reads_back(groups.last());
        assert forall|i: int| 0 <= i < back.len() implies back[i] != colon by {
            assert(is_lower_hex(back[i]));
        }
        lemma_fields_single(back, colon);
        lemma_fields_join(groups_text(front), colon, back);
        assert(texts_of(groups) == texts_of(front) + seq![back]);
    }
}

/// The texts of groups read back as the groups.
pub proof fn lemma_texts_read_back(groups: Seq<u16>)
    ensures
        plain_groups(texts_of(groups)) == Some(groups),
{
    assert forall|i: int| 0 <= i < groups.len() implies group_of(#[trigger] texts_of(groups)[i])
        == Some(groups[i]) by {
        lemma_group_reads_back(groups[i]);
    }
    assert(plain_groups(texts_of(groups))->0 == groups);
}

/// A list of groups reads back as the groups, wherever in an address it
/// stands.
pub proof fn lemma_list_reads_back(groups: Seq<u16>, embedded: bool)
    ensures
        list_of(groups_text(groups), embedded) == Some(groups),
{
    lemma_list_shape(groups);
    if groups.len() > 0 {
        lemma_list_fields(groups);
        lemma_texts_read_back(groups);
    } else {
        assert(groups == Seq::<u16>::empty());
    }
}

/// The groups of an IPv6 address make up its number.
pub proof fn lemma_joined_groups(number: u128)
    ensures
        joined(groups_from(number)) == number,
{
    let n = number as int;
    let unit = 0x1_0000int;
    let q1 = n / unit;
    let q2 = q1 / unit;
    let q3 = q2 / unit;
    let q4 = q3 / unit;
    let q5 = q4 / unit;
    let q6 = q5 / unit;
    let q7 = q6 / unit;
    lemma_fundamental_div_mod(n, unit);
    lemma_fundamental_div_mod(q1, unit);
    lemma_fundamental_div_mod(q2, unit);
    lemma_fundamental_div_mod(q3, unit);
    lemma_fundamental_div_mod(q4, unit);
    lemma_fundamental_div_mod(q5, unit);
    lemma_fundamental_div_mod(q6, unit);
    lemma_div_denominator(n, unit, unit);
    lemma_div_denominator(n, 0x1_0000_0000, unit);
    lemma_div_denominator(n, 0x1_0000_0000_0000, unit);
    lemma_div_denominator(n, 0x1_0000_0000_0000_0000, unit);
    lemma_div_denominator(n, 0x1_0000_0000_0000_0000_0000, unit);
    lemma_div_denominator(n, 0x1_0000_0000_0000_0000_0000_0000, unit);
    let g = groups_from(number);
    assert(g[7] == n % unit);
    assert(g[6] == q1 % unit);
    assert(g[5] == q2 % unit);
    assert(g[4] == q3 % unit);
    assert(g[3] == q4 % unit);
    assert(g[2] == q5 % unit);
    assert(g[1] == q6 % unit);
    assert(g[0] == q7);
    lemma_joined_eight(g);
}

/// The number that eight groups make, written out.
pub proof fn lemma_joined_eight(g: Seq<u16>)
    requires
        g.len() == 8,
    ensures
        joined(g) == ((((((g[0] * 0x1_0000 + g[1]) * 0x1_0000 + g[2]) * 0x1_0000 + g[3]) * 0x1_0000
            + g[4]) * 0x1_0000 + g[5]) * 0x1_0000 + g[6]) * 0x1_0000 + g[7],
{
    reveal_with_fuel(joined, 9);
    let g7 = g.drop_last();
    let g6 = g7.drop_last();
    let g5 = g6.drop_last();
    let g4 = g5.drop_last();
    let g3 = g4.drop_last();
    let g2 = g3.drop_last();
    let g1 = g2.drop_last();
    assert(g1.drop_last().len() == 0);
}

/// A run of zero groups lies within the groups and holds zeros only.
pub proof fn lemma_run_holds_zeros(groups: Seq<u16>, at: int)
    requires
        0 <= at <= groups.len(),
    ensures
        at + run_len(groups, at) <= groups.len(),
        forall|i: int| at <= i < at + run_len(groups, at) ==> groups[i] == 0,
    decreases groups.len() - at,
{
    if at < groups.len() && groups[at] == 0 {
        lemma_run_holds_zeros(groups, at + 1);
    }
}

/// The longest run starts at or before the index up to which it was sought.
pub proof fn lemma_longest_run_bounds(groups: Seq<u16>, upto: int)
    requires
        0 <= upto,
    ensures
        0 <= longest_run(groups, upto) <= upto,
    decreases upto,
{
    if upto > 0 {
        lemma_longest_run_bounds(groups, upto - 1);
    }
}

/// A dotted quad is made of digits and dots, begins and ends with a digit
/// and has at least seven bytes.
pub proof fn lemma_ipv4_shape(number: u32)
    ensures
        ipv4_text(number).len() >= 7,
        forall|i: int|
            0 <= i < ipv4_text(number).len() ==> is_digit(#[trigger] ipv4_text(number)[i])
                || ipv4_text(number)[i] == 0x2e,
        is_digit(ipv4_text(number)[0]),
        is_digit(ipv4_text(number).last()),
{
    let a = decimal_text((number / 0x100_0000) as nat);
    let b = decimal_text((number / 0x1_0000 % 0x100) as nat);
    let c = decimal_text((number / 0x100 % 0x100) as nat);
    let d = decimal_text((number % 0x100) as nat);
    lemma_octet_reads_back((number / 0x100_0000) as u8);
    lemma_octet_reads_back((number / 0x1_0000 % 0x100) as u8);
    lemma_octet_reads_back((number / 0x100 % 0x100) as u8);
    lemma_octet_reads_back((number % 0x100) as u8);
    let text = ipv4_text(number);
    let dot = seq![0x2eu8];
    assert(text == a + dot + b + dot + c + dot + d);
    assert forall|i: int| 0 <= i < text.len() implies is_digit(#[trigger] text[i]) || text[i]
        == 0x2e by {
        let ab = a.len() + 1;
        let abc = ab + b.len() + 1;
        let abcd = abc + c.len() + 1;
        if i < a.len() {
            assert(text[i] == a[i]);
        } else if i == a.len() {
        } else if i < ab + b.len() {
            assert(text[i] == b[i - ab]);
        } else if i == ab + b.len() {
        } else if i < abc + c.len() {
            assert(text[i] == c[i - abc]);
        } else if i == abc + c.len() {
        } else {
            assert(text[i] == d[i - abcd]);
        }
    }
    assert(text[0] == a[0]);
    assert(text.last() == d.last());
}

/// An address that embeds an IPv4 address reads back group by group.
proof fn lemma_mapped_reads_back(groups: Seq<u16>)
    requires
        groups.len() == 8,
        mapped(groups),
    ensures
        ipv6_groups(eight_groups_text(groups)) == Some(groups),
{
    let colon = 0x3au8;
    let text = eight_groups_text(groups);
    let low = (groups[6] * 0x1_0000 + groups[7]) as u32;
    let quad_text = ipv4_text(low);
    let ffff = seq![0x66u8, 0x66u8, 0x66u8, 0x66u8];
    assert(text == seq![colon, colon, 0x66u8, 0x66u8, 0x66u8, 0x66u8, colon] + quad_text);
    assert(gap_starts(text, 0));
    lemma_gap_at(text, 0);
    assert(text.take(0) == Seq::<u8>::empty());
    assert(text.skip(2) == ffff + seq![colon] + quad_text);
    lemma_ipv4_shape(low);
    assert forall|i: int| 0 <= i < quad_text.len() implies quad_text[i] != colon by {
        assert(is_digit(quad_text[i]) || quad_text[i] == 0x2e);
    }
    lemma_fields_single(quad_text, colon);
    lemma_fields_single(ffff, colon);
    lemma_fields_join(ffff, colon, quad_text);
    let items = fields(text.skip(2), colon);
    assert(items == seq![ffff, quad_text]);
    assert(group_of(quad_text) is None);
    assert(items[1] == quad_text);
    assert(plain_groups(items) is None);
    lemma_group_reads_back(0xffff);
    assert(hex_text(0xffff) == ffff) by {
        reveal_with_fuel(hex_text, 4);
    }
    assert(items.drop_last() == seq![ffff]);
    assert(seq![ffff][0] == ffff);
    assert(plain_groups(seq![ffff]) is Some);
    assert(plain_groups(seq![ffff])->0 == seq![0xffffu16]);
    lemma_ipv4_reads_back(low);
    assert(quad_groups(low) == seq![groups[6], groups[7]]);
    let tail = seq![0xffffu16] + seq![groups[6], groups[7]];
    assert(groups_of(items, true) == Some(tail));
    assert(list_of(text.skip(2), true) == Some(tail));
    assert(list_of(text.take(0), false) == Some(Seq::<u16>::empty()));
    assert(Seq::<u16>::empty() + zero_groups(5) + tail == groups);
}

/// An address written with a double colon reads back group by group.
proof fn lemma_shortened_reads_back(groups: Seq<u16>)
    requires
        groups.len() == 8,
        !mapped(groups),
        run_len(groups, longest_run(groups, 7)) > 1,
    ensures
        ipv6_groups(eight_groups_text(groups)) == Some(groups),
{
    let colon = 0x3au8;
    let text = eight_groups_text(groups);
    lemma_longest_run_bounds(groups, 7);
    let start = longest_run(groups, 7);
    lemma_run_holds_zeros(groups, start);
    let length = run_len(groups, start) as int;
    let head = groups.take(start);
    let tail = groups.skip(start + length);
    let before = groups_text(head);
    let after = groups_text(tail);
    assert(text == before + seq![colon, colon] + after);
    lemma_list_shape(head);
    lemma_list_shape(tail);
    assert forall|i: int| 0 <= i < before.len() implies !#[trigger] gap_starts(text, i) by {
        if i + 1 < before.len() {
            assert(!gap_starts(before, i));
            assert(text[i] == before[i]);
            assert(text[i + 1] == before[i + 1]);
        } else {
            assert(text[i] == before.last());
        }
    }
    assert(text[before.len() as int] == colon);
    assert(text[before.len() as int + 1] == colon);
    lemma_gap_at(text, before.len() as int);
    assert(text.take(before.len() as int) == before);
    assert(text.skip(before.len() as int + 2) == after);
    lemma_list_reads_back(head, false);
    lemma_list_reads_back(tail, true);
    assert(head + zero_groups(8 - head.len() - tail.len()) + tail == groups);
}

/// An address written without a double colon reads back group by group.
proof fn lemma_plain_reads_back(groups: Seq<u16>)
    requires
        groups.len() == 8,
        !mapped(groups),
        run_len(groups, longest_run(groups, 7)) <= 1,
    ensures
        ipv6_groups(eight_groups_text(groups)) == Some(groups),
{
    let text = eight_groups_text(groups);
    lemma_list_shape(groups);
    lemma_gap_at(text, text.len() as int);
    lemma_list_reads_back(groups, true);
}

/// The text of eight groups reads back as those groups.
pub proof fn lemma_groups_read_back(groups: Seq<u16>)
    requires
        groups.len() == 8,
    ensures
        ipv6_groups(eight_groups_text(groups)) == Some(groups),
{
    if mapped(groups) {
        lemma_mapped_reads_back(groups);
    } else if run_len(groups, longest_run(groups, 7)) > 1 {
        lemma_shortened_reads_back(groups);
    } else {
        lemma_plain_reads_back(groups);
    }
}

/// The text of an IPv6 address reads back as the address.
pub proof fn lemma_ipv6_reads_back(number: u128)
    ensures
        ipv6_of(ipv6_text(number)) == Some(number),
{
    lemma_groups_read_back(groups_from(number));
    lemma_joined_groups(number);
}

/// The text of eight groups is no dotted quad.
pub proof fn lemma_groups_text_is_no_quad(groups: Seq<u16>)
    requires
        groups.len() == 8,
    ensures
        ipv4_of(eight_groups_text(groups)) is None,
{
    let text = eight_groups_text(groups);
    let dot = 0x2eu8;
    let colon = 0x3au8;
    if mapped(groups) {
        let low = (groups[6] * 0x1_0000 + groups[7]) as u32;
        assert(text == seq![colon, colon, 0x66u8, 0x66u8, 0x66u8, 0x66u8, colon] + ipv4_text(low));
        assert(text[0] == colon);
        lemma_first_at_found(text, dot);
        let cut = first_at(text, dot);
        if cut < text.len() {
            assert(fields(text, dot)[0] == text.take(cut));
            assert(text.take(cut)[0] == colon);
            assert(!is_digit(fields(text, dot)[0][0]));
        }
    } else {
        lemma_longest_run_bounds(groups, 7);
        let start = longest_run(groups, 7);
        lemma_run_holds_zeros(groups, start);
        let length = run_len(groups, start) as int;
        if length > 1 {
            let before = groups_text(groups.take(start));
            let after = groups_text(groups.skip(start + length));
            lemma_list_shape(groups.take(start));
            lemma_list_shape(groups.skip(start + length));
            assert(text == before + seq![colon, colon] + after);
            assert forall|i: int| 0 <= i < text.len() implies text[i] != dot by {
                if i < before.len() {
                    assert(text[i] == before[i]);
                    assert(is_lower_hex(before[i]) || before[i] == 0x3a);
                } else if i >= before.len() + 2 {
                    assert(text[i] == after[i - before.len() - 2]);
                    assert(is_lower_hex(after[i - before.len() - 2]) || after[i - before.len()
                        - 2] == 0x3a);
                }
            }
        } else {
            lemma_list_shape(groups);
            assert forall|i: int| 0 <= i < text.len() implies text[i] != dot by {
                assert(is_lower_hex(text[i]) || text[i] == 0x3a);
            }
        }
        lemma_fields_single(text, dot);
    }
}

/// What is written reads back: the text of an address is read as that
/// address.
pub proof fn lemma_address_reads_back(address: Address)
    ensures
        address_of(address_text(address)) == Some(address),
{
    match address {
        Address::V4(number) => {
            lemma_ipv4_reads_back(number);
        },
        Address::V6(number) => {
            lemma_groups_text_is_no_quad(groups_from(number));
            lemma_ipv6_reads_back(number);
        },
    }
}

/// Whether `byte` can occur in the text of an address.
pub open spec fn is_address_byte(byte: u8) -> bool {
    is_lower_hex(byte) || byte == 0x3a || byte == 0x2e
}

/// The text of an address is not empty and holds nothing but hexadecimal
/// digits, colons and dots.
pub proof fn lemma_address_text_shape(address: Address)
    ensures
        address_text(address).len() > 0,
        forall|i: int|
            0 <= i < address_text(address).len() ==> is_address_byte(
                #[trigger] address_text(address)[i],
            ),
{
    let text = address_text(address);
    let colon = 0x3au8;
    match address {
        Address::V4(number) => {
            lemma_ipv4_shape(number);
            assert forall|i: int| 0 <= i < text.len() implies is_address_byte(#[trigger] text[i]) by {
                assert(is_digit(text[i]) || text[i] == 0x2e);
            }
        },
        Address::V6(number) => {
            let groups = groups_from(number);
            if mapped(groups) {
                let low = (groups[6] * 0x1_0000 + groups[7]) as u32;
                let prefix = seq![colon, colon, 0x66u8, 0x66u8, 0x66u8, 0x66u8, colon];
                let quad_text = ipv4_text(low);
                lemma_ipv4_shape(low);
                assert(text == prefix + quad_text);
                assert forall|i: int| 0 <= i < text.len() implies is_address_byte(
                    #[trigger] text[i],
                ) by {
                    if i < 7 {
                        assert(text[i] == prefix[i]);
                    } else {
                        assert(text[i] == quad_text[i - 7]);
                        assert(is_digit(quad_text[i - 7]) || quad_text[i - 7] == 0x2e);
                    }
                }
            } else {
                lemma_longest_run_bounds(groups, 7);
                let start = longest_run(groups, 7);
                lemma_run_holds_zeros(groups, start);
                let length = run_len(groups, start) as int;
                if length > 1 {
                    let before = groups_text(groups.take(start));
                    let after = groups_text(groups.skip(start + length));
                    lemma_list_shape(groups.take(start));
                    lemma_list_shape(groups.skip(start + length));
                    assert(text == before + seq![colon, colon] + after);
                    assert forall|i: int| 0 <= i < text.len() implies is_address_byte(
                        #[trigger] text[i],
                    ) by {
                        if i < before.len() {
                            assert(text[i] == before[i]);
                            assert(is_lower_hex(before[i]) || before[i] == 0x3a);
                        } else if i >= before.len() + 2 {
                            let j = i - before.len() - 2;
                            assert(text[i] == after[j]);
                            assert(is_lower_hex(after[j]) || after[j] == 0x3a);
                        }
                    }
                } else {
                    lemma_list_shape(groups);
                    assert forall|i: int| 0 <= i < text.len() implies is_address_byte(
                        #[trigger] text[i],
                    ) by {
                        assert(is_lower_hex(text[i]) || text[i] == 0x3a);
                    }
                }
            }
        },
    }
}

/// The text of an address has no white space around it and no line feed in
/// it, so a line that holds just that text is read as the address.
pub proof fn lemma_line_reads_back(address: Address)
    ensures
        trimmed(address_text(address)) == address_text(address),
        address_of(trimmed(address_text(address))) == Some(address),
        forall|i: int| 0 <= i < address_text(address).len() ==> address_text(address)[i] != 0x0a,
{
    let text = address_text(address);
    lemma_address_text_shape(address);
    lemma_address_reads_back(address);
    let n = text.len() as int;
    assert(is_address_byte(text[0]));
    assert(is_address_byte(text[n - 1]));
    assert(leading_space(text) == 0);
    assert(trailing_space(text) == 0);
    assert(trim_start(text) == text);
    assert(trim_end(text) == text);
    assert forall|i: int| 0 <= i < text.len() implies text[i] != 0x0a by {
        assert(is_address_byte(text[i]));
    }
}

/// Reading one more line adds its address, if it writes one.
pub proof fn lemma_one_more_line(lines: Seq<Seq<u8>>, line: Seq<u8>)
    ensures
        addresses_in(lines.push(line)) == (match address_of(trimmed(line)) {
            Some(address) => addresses_in(lines).push(address),
            None => addresses_in(lines),
        }),
{
    assert(lines.push(line).drop_last() == lines);
    assert(lines.push(line).last() == line);
}

/// An empty line writes no address.
pub proof fn lemma_empty_line_is_no_address()
    ensures
        address_of(trimmed(Seq::<u8>::empty())) is None,
{
    let empty = Seq::<u8>::empty();
    assert(trim_start(empty) == empty);
    assert(trim_end(empty) == empty);
    assert(trimmed(empty) == empty);
    assert(fields(empty, 0x2e) == seq![empty]);
    assert(gap_at(empty) == 0);
    assert(list_of(empty, true) == Some(Seq::<u16>::empty()));
}

/// Appending a ban line bans one more peer: when the file is empty or ends
/// with a line feed, the file with the line for `address` appended holds the
/// addresses it held before and then `address`.
pub proof fn lemma_append_reads_back(file: Seq<u8>, address: Address)
    requires
        file.len() == 0 || file.last() == 0x0a,
    ensures
        entries_of(file + address_text(address).push(0x0a)) == entries_of(file).push(address),
{
    let feed = 0x0au8;
    let text = address_text(address);
    let empty = Seq::<u8>::empty();
    lemma_line_reads_back(address);
    lemma_empty_line_is_no_address();
    lemma_fields_single(text, feed);
    lemma_fields_single(empty, feed);
    lemma_fields_join(text, feed, empty);
    let line = text.push(feed);
    assert(line == text + seq![feed] + empty);
    assert(fields(line, feed) == seq![text, empty]);
    if file.len() == 0 {
        assert(file + line == line);
        assert(file == empty);
        assert(seq![text, empty] == seq![text].push(empty));
        assert(seq![text] == Seq::<Seq<u8>>::empty().push(text));
        lemma_one_more_line(seq![text], empty);
        lemma_one_more_line(Seq::<Seq<u8>>::empty(), text);
        lemma_one_more_line(Seq::<Seq<u8>>::empty(), empty);
        assert(seq![empty] == Seq::<Seq<u8>>::empty().push(empty));
        assert(addresses_in(Seq::<Seq<u8>>::empty()) == Seq::<Address>::empty());
    } else {
        let front = file.drop_last();
        assert(file == front + seq![feed] + empty);
        assert(file + line == front + seq![feed] + line);
        lemma_fields_join(front, feed, empty);
        lemma_fields_join(front, feed, line);
        let lines = fields(front, feed);
        assert(fields(file, feed) == lines.push(empty));
        assert(fields(file + line, feed) == lines.push(text).push(empty));
        lemma_one_more_line(lines, empty);
        lemma_one_more_line(lines, text);
        lemma_one_more_line(lines.push(text), empty);
    }
}

/// The file that bans `entries`, one after the other, starting empty.
pub open spec fn file_of(entries: Seq<Address>) -> Seq<u8>
    decreases entries.len(),
{
    if entries.len() == 0 {
        Seq::empty()
    } else {
        file_of(entries.drop_last()) + address_text(entries.last()).push(0x0a)
    }
}

/// A file written ban by ban holds exactly the banned addresses, in the
/// order of the bans.
pub proof fn lemma_file_reads_back(entries: Seq<Address>)
    ensures
        entries_of(file_of(entries)) == entries,
        file_of(entries).len() == 0 || file_of(entries).last() == 0x0a,
    decreases entries.len(),
{
    if entries.len() == 0 {
        let empty = Seq::<u8>::empty();
        lemma_empty_line_is_no_address();
        lemma_fields_single(empty, 0x0a);
        lemma_one_more_line(Seq::<Seq<u8>>::empty(), empty);
        assert(seq![empty] == Seq::<Seq<u8>>::empty().push(empty));
        assert(addresses_in(Seq::<Seq<u8>>::empty()) == Seq::<Address>::empty());
        assert(entries == Seq::<Address>::empty());
    } else {
        lemma_file_reads_back(entries.drop_last());
        lemma_append_reads_back(file_of(entries.drop_last()), entries.last());
        assert(entries.drop_last().push(entries.last()) == entries);
    }
}

/// A reload is exact: once a file that holds the set `entries` has been
/// loaded, a peer is banned if and only if it is among `entries`, whatever
/// was banned before.
pub proof fn lemma_reload_reflects_file(entries: Seq<Address>, peer: Address)
    ensures
        entries_of(file_of(entries)).to_set().contains(peer) <==> entries.contains(peer),
{
    lemma_file_reads_back(entries);
}

/// A ban shows at the next reload: with the line for `address` appended to a
/// file that is empty or ends with a line feed, the peers banned are those
/// banned before and `address`.
pub proof fn lemma_ban_shows_after_reload(file: Seq<u8>, address: Address, peer: Address)
    requires
        file.len() == 0 || file.last() == 0x0a,
    ensures
        entries_of(file + address_text(address).push(0x0a)).to_set().contains(peer) <==> (peer
            == address || entries_of(file).to_set().contains(peer)),
{
    lemma_append_reads_back(file, address);
    let before = entries_of(file);
    let after = before.push(address);
    if after.contains(peer) {
        let i = choose|i: int| 0 <= i < after.len() && after[i] == peer;
        if i < before.len() {
            assert(before[i] == peer);
        }
    }
    if before.contains(peer) {
        let i = choose|i: int| 0 <= i < before.len() && before[i] == peer;
        assert(after[i] == peer);
    }
    assert(after[before.len() as int] == address);
}

/// `file` with the ban lines for `appended` written after it, in order.
pub open spec fn file_after(file: Seq<u8>, appended: Seq<Address>) -> Seq<u8>
    decreases appended.len(),
{
    if appended.len() == 0 {
        file
    } else {
        file_after(file, appended.drop_last()) + address_text(appended.last()).push(0x0a)
    }
}

/// Bans are durable: after the ban lines for `appended` have been written to
/// a file that was empty or ended with a line feed, the file holds what it
/// held before and then `appended`, and it ends with a line feed again.
pub proof fn lemma_bans_read_back(file: Seq<u8>, appended: Seq<Address>)
    requires
        file.len() == 0 || file.last() == 0x0a,
    ensures
        entries_of(file_after(file, appended)) == entries_of(file) + appended,
        file_after(file, appended).len() == 0 || file_after(file, appended).last() == 0x0a,
    decreases appended.len(),
{
    if appended.len() == 0 {
        assert(entries_of(file) + appended == entries_of(file));
    } else {
        let front = appended.drop_last();
        lemma_bans_read_back(file, front);
        lemma_append_reads_back(file_after(file, front), appended.last());
        assert((entries_of(file) + front).push(appended.last()) == entries_of(file) + appended);
    }
}

/// The threshold bans, in the file: when a peer that is not exempt and has
/// no strikes on record is struck `MAX_STRIKES` times, and the file, which
/// is empty or ends with a line feed, can be written, then the last strike
/// and no earlier one adds the peer's address to the file, once, after all
/// that the file held; and the peer has no strikes on record any more.
pub proof fn lemma_threshold_bans_in_file(record: Penalties, file: Seq<u8>, peer: Address)
    requires
        !peer.exempt(),
        !record.counts.contains_key(peer),
        file.len() == 0 || file.last() == 0x0a,
    ensures
        entries_of(
            file_after(file, struck_times(record, peer, true, MAX_STRIKES as nat).appended),
        ) == entries_of(file_after(file, record.appended)).push(peer),
        entries_of(
            file_after(file, struck_times(record, peer, true, (MAX_STRIKES - 1) as nat).appended),
        ) == entries_of(file_after(file, record.appended)),
        !struck_times(record, peer, true, MAX_STRIKES as nat).counts.contains_key(peer),
{
    lemma_threshold_bans(record, peer);
    let after = struck_times(record, peer, true, MAX_STRIKES as nat);
    lemma_bans_read_back(file, record.appended);
    lemma_bans_read_back(file, after.appended);
    assert(entries_of(file) + record.appended.push(peer) == (entries_of(file)
        + record.appended).push(peer));
}

} // verus!
