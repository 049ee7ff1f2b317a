use mirp::address::Address;
use mirp::notation::{
    ban_line, format_address, parse_address, parse_entries, parse_group, parse_ipv4, parse_ipv6,
    parse_octet, split_fields, trim,
};

fn v4(text: &str) -> Option<u32> {
    parse_ipv4(text.as_bytes())
}

fn v6(text: &str) -> Option<u128> {
    parse_ipv6(text.as_bytes())
}

fn groups(g: [u16; 8]) -> u128 {
    g.iter().fold(0u128, |number, group| number << 16 | *group as u128)
}

fn written(address: Address) -> String {
    String::from_utf8(format_address(address)).unwrap()
}

#[test]
fn text_is_cut_at_every_mark() {
    assert_eq!(split_fields(b"a.b.c", b'.'), vec![&b"a"[..], &b"b"[..], &b"c"[..]]);
    assert_eq!(split_fields(b"", b'.'), vec![&b""[..]]);
    assert_eq!(split_fields(b".", b'.'), vec![&b""[..], &b""[..]]);
    assert_eq!(split_fields(b"a..b.", b'.'), vec![&b"a"[..], &b""[..], &b"b"[..], &b""[..]]);
    assert_eq!(split_fields(b"abc", b'.'), vec![&b"abc"[..]]);
}

#[test]
fn octets_are_plain_decimal_numbers_up_to_255() {
    assert_eq!(parse_octet(b"0"), Some(0));
    assert_eq!(parse_octet(b"7"), Some(7));
    assert_eq!(parse_octet(b"10"), Some(10));
    assert_eq!(parse_octet(b"99"), Some(99));
    assert_eq!(parse_octet(b"100"), Some(100));
    assert_eq!(parse_octet(b"255"), Some(255));
    assert_eq!(parse_octet(b"256"), None);
    assert_eq!(parse_octet(b"999"), None);
    assert_eq!(parse_octet(b"1000"), None);
    assert_eq!(parse_octet(b""), None);
    assert_eq!(parse_octet(b"00"), None);
    assert_eq!(parse_octet(b"01"), None);
    assert_eq!(parse_octet(b"007"), None);
    assert_eq!(parse_octet(b"1a"), None);
    assert_eq!(parse_octet(b"-1"), None);
    assert_eq!(parse_octet(b"+1"), None);
    assert_eq!(parse_octet(b" 1"), None);
    assert_eq!(parse_octet(b"/"), None);
    assert_eq!(parse_octet(b":"), None);
}

#[test]
fn groups_are_up_to_four_hexadecimal_digits() {
    assert_eq!(parse_group(b"0"), Some(0));
    assert_eq!(parse_group(b"0000"), Some(0));
    assert_eq!(parse_group(b"00ff"), Some(255));
    assert_eq!(parse_group(b"ffff"), Some(65535));
    assert_eq!(parse_group(b"FFFF"), Some(65535));
    assert_eq!(parse_group(b"aBcD"), Some(0xabcd));
    assert_eq!(parse_group(b"db8"), Some(0xdb8));
    assert_eq!(parse_group(b"9"), Some(9));
    assert_eq!(parse_group(b"a"), Some(10));
    assert_eq!(parse_group(b"f"), Some(15));
    assert_eq!(parse_group(b"A"), Some(10));
    assert_eq!(parse_group(b"F"), Some(15));
    assert_eq!(parse_group(b""), None);
    assert_eq!(parse_group(b"00000"), None);
    assert_eq!(parse_group(b"12345"), None);
    assert_eq!(parse_group(b"g"), None);
    assert_eq!(parse_group(b"G"), None);
    assert_eq!(parse_group(b"`"), None);
    assert_eq!(parse_group(b"@"), None);
    assert_eq!(parse_group(b"0x1"), None);
    assert_eq!(parse_group(b"1 "), None);
}

#[test]
fn dotted_quads_are_read() {
    assert_eq!(v4("0.0.0.0"), Some(0));
    assert_eq!(v4("255.255.255.255"), Some(0xffff_ffff));
    assert_eq!(v4("127.0.0.1"), Some(0x7f00_0001));
    assert_eq!(v4("192.168.1.10"), Some(0xc0a8_010a));
    assert_eq!(v4("1.2.3.4"), Some(0x0102_0304));
    assert_eq!(v4("203.0.113.7"), Some(0xcb00_7107));
}

#[test]
fn anything_but_four_plain_octets_is_no_dotted_quad() {
    for text in [
        "", ".", "...", "1", "1.2", "1.2.3", "1.2.3.", ".1.2.3", "1..2.3", "1.2.3.4.", ".1.2.3.4",
        "1.2.3.4.5", "256.0.0.1", "1.2.3.256", "1.2.3.1000", "01.2.3.4", "1.2.3.04", "00.0.0.0",
        "1.2.3.4 ", " 1.2.3.4", "1.2.3.4\n", "1.2.3.-4", "+1.2.3.4", "1.2.3.4/24", "0x7f.0.0.1",
        "1.2.3.a", "1,2,3,4", "1.2.3.4:80", "::1", "\u{661}.2.3.4",
    ] {
        assert_eq!(v4(text), None, "{text:?}");
    }
}

#[test]
fn full_ipv6_addresses_are_read() {
    assert_eq!(v6("1:2:3:4:5:6:7:8"), Some(groups([1, 2, 3, 4, 5, 6, 7, 8])));
    assert_eq!(
        v6("2001:0db8:0000:0000:0000:0000:0000:0001"),
        Some(groups([0x2001, 0xdb8, 0, 0, 0, 0, 0, 1]))
    );
    assert_eq!(
        v6("FFFF:ffff:FfFf:ffff:ffff:ffff:ffff:ffff"),
        Some(u128::MAX)
    );
    assert_eq!(v6("0:0:0:0:0:0:0:0"), Some(0));
}

#[test]
fn a_double_colon_stands_for_the_missing_zero_groups() {
    assert_eq!(v6("::"), Some(0));
    assert_eq!(v6("::1"), Some(1));
    assert_eq!(v6("1::"), Some(groups([1, 0, 0, 0, 0, 0, 0, 0])));
    assert_eq!(v6("2001:db8::1"), Some(groups([0x2001, 0xdb8, 0, 0, 0, 0, 0, 1])));
    assert_eq!(v6("2001:DB8::1"), Some(groups([0x2001, 0xdb8, 0, 0, 0, 0, 0, 1])));
    assert_eq!(v6("1:2::7:8"), Some(groups([1, 2, 0, 0, 0, 0, 7, 8])));
    assert_eq!(v6("1:2:3:4:5:6:7::"), Some(groups([1, 2, 3, 4, 5, 6, 7, 0])));
    assert_eq!(v6("::2:3:4:5:6:7:8"), Some(groups([0, 2, 3, 4, 5, 6, 7, 8])));
    assert_eq!(v6("1:2:3::5:6:7:8"), Some(groups([1, 2, 3, 0, 5, 6, 7, 8])));
    assert_eq!(v6("fe80::1ff:fe23:4567:890a"), Some(groups([0xfe80, 0, 0, 0, 0x1ff, 0xfe23, 0x4567, 0x890a])));
}

#[test]
fn an_ipv6_address_may_end_in_a_dotted_quad() {
    assert_eq!(v6("::ffff:192.168.0.1"), Some(0xffff_c0a8_0001));
    assert_eq!(v6("::192.168.0.1"), Some(0xc0a8_0001));
    assert_eq!(v6("::1.2.3.4"), Some(0x0102_0304));
    assert_eq!(
        v6("1:2:3:4:5:6:77.77.88.88"),
        Some(groups([1, 2, 3, 4, 5, 6, 0x4d4d, 0x5858]))
    );
    assert_eq!(
        v6("64:ff9b::192.0.2.33"),
        Some(groups([0x64, 0xff9b, 0, 0, 0, 0, 0xc000, 0x0221]))
    );
    assert_eq!(v6("1:2:3:4:5::1.2.3.4"), Some(groups([1, 2, 3, 4, 5, 0, 0x0102, 0x0304])));
}

#[test]
fn malformed_ipv6_text_is_rejected() {
    for text in [
        "", ":", ":::", "::::", "1", "1:", ":1", "1:2:3:4:5:6:7", "1:2:3:4:5:6:7:", ":1:2:3:4:5:6:7",
        "1:2:3:4:5:6:7:8:9", "1::2::3", "1:2::6::8", "1:::2", "::1::", "12345::", "::12345", "g::",
        "::g", "1:2:3:4::5:6:7:8", "1:2:3:4:5:6:7:8::", "::1:2:3:4:5:6:7:8", "1.2.3.4::",
        "1.2.3.4::1", "::1.2.3.4:5", "1:2:3:4:5:6:7:1.2.3.4", "1:2:3:4:5:1.2.3.4",
        "1:2:3:4:5:6::1.2.3.4", "::ffff:1.2.3", "::ffff:01.2.3.4", "::ffff:1.2.3.256",
        "::ffff:1.2.3.4.5", "fe80::1%eth0", "fe80::1%1", "[::1]", "::1 ", " ::1", "::1\n",
        "1:2:3:4:5:6:7:8 ", "0x1::", "-1::", "1.2.3.4", "::1/128", "1:2:3:4:5:6:7:8.9",
        "1:2:1.2.3.4:5:6:7", "::.1.2.3", "::1.2.3.4.",
    ] {
        assert_eq!(v6(text), None, "{text:?}");
    }
}

#[test]
fn an_address_is_a_dotted_quad_or_an_ipv6_address() {
    assert_eq!(parse_address(b"127.0.0.1"), Some(Address::V4(0x7f00_0001)));
    assert_eq!(parse_address(b"::1"), Some(Address::V6(1)));
    assert_eq!(parse_address(b"::ffff:127.0.0.1"), Some(Address::V6(0xffff_7f00_0001)));
    assert_eq!(parse_address(b"::127.0.0.1"), Some(Address::V6(0x7f00_0001)));
    assert_eq!(parse_address(b"localhost"), None);
    assert_eq!(parse_address(b"127.0.0.1:25565"), None);
    assert_eq!(parse_address(b"[::1]:25565"), None);
    assert_eq!(parse_address(b""), None);
    assert_eq!(parse_address(b" 127.0.0.1"), None);
}

#[test]
fn white_space_is_trimmed_at_both_ends() {
    assert_eq!(trim(b"  a b  "), b"a b");
    assert_eq!(trim(b"\t\n\x0b\x0c\r a\r\n"), b"a");
    assert_eq!(trim(b""), b"");
    assert_eq!(trim(b" \t "), b"");
    assert_eq!(trim(b"a"), b"a");
    assert_eq!(trim("\u{a0}a\u{85}".as_bytes()), b"a");
    assert_eq!(trim("\u{1680}\u{2000}\u{200a}a\u{2028}\u{2029}\u{202f}".as_bytes()), b"a");
    assert_eq!(trim("\u{205f}\u{3000}a\u{3000}\u{205f}".as_bytes()), b"a");
}

#[test]
fn what_is_no_white_space_stays() {
    for text in [
        "\u{200b}a", "a\u{200b}", "\u{feff}a", "\x08a", "a\x0e", "\x1fa", "\u{180e}a", "a\u{2060}",
        "\u{84}a", "a\u{86}", "\u{a1}a", "a\u{9f}", "\u{200b}", "\u{3001}a", "\u{2027}a",
        "a\u{202a}", "\u{1681}a", "\u{205e}", "\u{2060}", "\u{e000}",
    ] {
        assert_eq!(trim(text.as_bytes()), text.as_bytes(), "{text:?}");
        assert_eq!(text.trim(), text);
    }
}

#[test]
fn trimming_agrees_with_the_standard_library() {
    let pieces = [
        "", " ", "\t", "\n", "\r", "\x0b", "\x0c", "\u{85}", "\u{a0}", "\u{1680}", "\u{2000}",
        "\u{2005}", "\u{200a}", "\u{200b}", "\u{2028}", "\u{2029}", "\u{202f}", "\u{205f}",
        "\u{3000}", "a", "1.2.3.4", "\u{e9}", "\u{20ac}", "\u{10348}", "\u{c5}", "\u{2080}",
    ];
    for left in pieces {
        for middle in pieces {
            for right in pieces {
                let text = format!("{left}{middle}{right}");
                assert_eq!(trim(text.as_bytes()), text.trim().as_bytes(), "{text:?}");
            }
        }
    }
}

#[test]
fn a_file_holds_one_address_to_a_line() {
    let text = "1.2.3.4\n  5.6.7.8  \r\nnot an address\n\n::1\n\u{a0}9.9.9.9\u{3000}\n10.0.0.1";
    assert_eq!(
        parse_entries(text.as_bytes()),
        vec![
            Address::V4(0x0102_0304),
            Address::V4(0x0506_0708),
            Address::V6(1),
            Address::V4(0x0909_0909),
            Address::V4(0x0a00_0001),
        ]
    );
}

#[test]
fn lines_end_at_line_feeds_only() {
    assert_eq!(parse_entries(b"1.2.3.4\r5.6.7.8"), vec![]);
    assert_eq!(parse_entries(b"1.2.3.4 5.6.7.8"), vec![]);
    assert_eq!(parse_entries(b"1.2.3.4,5.6.7.8\n"), vec![]);
    assert_eq!(
        parse_entries(b"1.2.3.4\r\n5.6.7.8\r\n"),
        vec![Address::V4(0x0102_0304), Address::V4(0x0506_0708)]
    );
}

#[test]
fn repeated_lines_are_repeated_entries() {
    assert_eq!(
        parse_entries(b"::1\n::1\n0:0:0:0:0:0:0:1\n"),
        vec![Address::V6(1), Address::V6(1), Address::V6(1)]
    );
}

#[test]
fn an_empty_file_holds_nothing() {
    assert_eq!(parse_entries(b""), vec![]);
    assert_eq!(parse_entries(b"\n"), vec![]);
    assert_eq!(parse_entries(b"\n\n\r\n  \n"), vec![]);
}

#[test]
fn ipv4_addresses_are_written_as_dotted_quads() {
    assert_eq!(written(Address::V4(0)), "0.0.0.0");
    assert_eq!(written(Address::V4(0xffff_ffff)), "255.255.255.255");
    assert_eq!(written(Address::V4(0x7f00_0001)), "127.0.0.1");
    assert_eq!(written(Address::V4(0xc0a8_010a)), "192.168.1.10");
    assert_eq!(written(Address::V4(0x0a64_0963)), "10.100.9.99");
    assert_eq!(written(Address::V4(0xcb00_7107)), "203.0.113.7");
}

#[test]
fn ipv6_addresses_are_written_in_the_shortest_form() {
    assert_eq!(written(Address::V6(0)), "::");
    assert_eq!(written(Address::V6(1)), "::1");
    assert_eq!(written(Address::V6(groups([1, 0, 0, 0, 0, 0, 0, 0]))), "1::");
    assert_eq!(written(Address::V6(groups([0x2001, 0xdb8, 0, 0, 0, 0, 0, 1]))), "2001:db8::1");
    assert_eq!(written(Address::V6(groups([1, 2, 3, 4, 5, 6, 7, 8]))), "1:2:3:4:5:6:7:8");
    assert_eq!(written(Address::V6(u128::MAX)), "ffff:ffff:ffff:ffff:ffff:ffff:ffff:ffff");
    assert_eq!(
        written(Address::V6(groups([0xabcd, 0xef01, 0x10, 0x100, 0x1000, 0xa, 0xf0, 0xf00]))),
        "abcd:ef01:10:100:1000:a:f0:f00"
    );
}

#[test]
fn the_first_longest_run_of_zero_groups_is_shortened() {
    assert_eq!(written(Address::V6(groups([1, 0, 0, 2, 0, 0, 0, 3]))), "1:0:0:2::3");
    assert_eq!(written(Address::V6(groups([1, 0, 0, 2, 0, 0, 3, 4]))), "1::2:0:0:3:4");
    assert_eq!(written(Address::V6(groups([1, 0, 0, 0, 2, 0, 0, 3]))), "1::2:0:0:3");
    assert_eq!(written(Address::V6(groups([0, 0, 1, 2, 3, 4, 5, 6]))), "::1:2:3:4:5:6");
    assert_eq!(written(Address::V6(groups([1, 2, 3, 4, 5, 6, 0, 0]))), "1:2:3:4:5:6::");
    assert_eq!(written(Address::V6(groups([0, 0, 1, 0, 0, 0, 0, 0]))), "0:0:1::");
    assert_eq!(written(Address::V6(groups([0, 0, 0, 1, 0, 0, 0, 2]))), "::1:0:0:0:2");
    assert_eq!(written(Address::V6(groups([0, 0, 0, 1, 0, 0, 0, 0]))), "0:0:0:1::");
}

#[test]
fn a_single_zero_group_is_written_out() {
    assert_eq!(written(Address::V6(groups([1, 0, 2, 0, 3, 0, 4, 0]))), "1:0:2:0:3:0:4:0");
    assert_eq!(written(Address::V6(groups([0, 1, 2, 3, 4, 5, 6, 7]))), "0:1:2:3:4:5:6:7");
    assert_eq!(written(Address::V6(groups([1, 2, 3, 4, 5, 6, 7, 0]))), "1:2:3:4:5:6:7:0");
}

#[test]
fn an_embedded_ipv4_address_is_written_as_a_dotted_quad() {
    assert_eq!(written(Address::V6(0xffff_c0a8_0001)), "::ffff:192.168.0.1");
    assert_eq!(written(Address::V6(0xffff_0000_0000)), "::ffff:0.0.0.0");
    assert_eq!(written(Address::V6(0xffff_ffff_ffff)), "::ffff:255.255.255.255");
    assert_eq!(written(Address::V6(0xc0a8_0001)), "::c0a8:1");
    assert_eq!(written(Address::V6(0x1_0000_ffff_c0a8_0001)), "::1:0:ffff:c0a8:1");
}

#[test]
fn a_ban_line_is_the_address_and_a_line_feed() {
    assert_eq!(ban_line(Address::V4(0xcb00_7107)), b"203.0.113.7\n");
    assert_eq!(ban_line(Address::V6(1)), b"::1\n");
}

#[test]
fn what_is_written_reads_back() {
    let mut samples: Vec<Address> = vec![
        Address::V4(0),
        Address::V4(u32::MAX),
        Address::V6(0),
        Address::V6(u128::MAX),
        Address::V6(0xffff_0000_0000),
        Address::V6(0xffff_ffff_ffff),
    ];
    let mut seed: u64 = 0x9e37_79b9_7f4a_7c15;
    for round in 0..4000u32 {
        seed ^= seed << 13;
        seed ^= seed >> 7;
        seed ^= seed << 17;
        samples.push(Address::V4(seed as u32));
        let mut g = [0u16; 8];
        let mut bits = seed;
        for slot in g.iter_mut() {
            *slot = match bits & 3 {
                0 | 1 => 0,
                2 => (bits >> 8) as u16 & 0xff,
                _ => (bits >> 16) as u16,
            };
            bits = bits.rotate_right(7) ^ round as u64;
        }
        samples.push(Address::V6(groups(g)));
        samples.push(Address::V6((seed as u128) << 64 | seed.rotate_left(29) as u128));
    }
    for address in samples {
        let text = format_address(address);
        assert_eq!(parse_address(&text), Some(address), "{:?}", String::from_utf8_lossy(&text));
        let mut file = ban_line(address);
        file.extend(ban_line(address));
        assert_eq!(parse_entries(&file), vec![address, address]);
    }
}
