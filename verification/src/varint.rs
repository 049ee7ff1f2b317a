//! Variable-length integers: seven payload bits per byte, least significant
//! group first, the high bit of a byte announcing that another byte follows.

use vstd::prelude::*;

verus! {

/// Longest encoding the decoder reads: thirty-five payload bits cover an `i32`.
pub const MAX_VARINT_BYTES: usize = 5;

/// Why a byte window could not be decoded.
#[derive(Clone, Copy, Debug, PartialEq, Eq, Structural)]
pub enum DecodeError {
    /// The bytes present cannot begin a well-formed value.
    Malformed,
    /// The window ends before the value does.
    Truncated,
}

/// Whether `byte` announces another byte after it.
pub open spec fn continues(byte: u8) -> bool {
    byte >= 0x80
}

/// The seven payload bits of `byte`.
pub open spec fn payload(byte: u8) -> nat {
    (byte % 0x80) as nat
}

/// Reads an unbounded little-endian base-128 number starting at `at`, using
/// at most `budget` bytes. Yields the number and how many bytes it occupies.
///
/// Running out of budget is `Malformed`; running out of bytes first is
/// `Truncated`.
pub open spec fn scan(bytes: Seq<u8>, at: int, budget: nat) -> Result<(nat, nat), DecodeError>
    decreases budget,
{
    if budget == 0 {
        Err(DecodeError::Malformed)
    } else if at < 0 || at >= bytes.len() {
        Err(DecodeError::Truncated)
    } else if !continues(bytes[at]) {
        Ok((payload(bytes[at]), 1))
    } else {
        match scan(bytes, at + 1, (budget - 1) as nat) {
            Ok((high, used)) => Ok((payload(bytes[at]) + 0x80 * high, used + 1)),
            Err(e) => Err(e),
        }
    }
}

/// The signed 32-bit value whose two's-complement bit pattern is the low
/// thirty-two bits of `raw`.
pub open spec fn wrap_i32(raw: nat) -> i32 {
    let low = raw % 0x1_0000_0000;
    if low < 0x8000_0000 {
        low as i32
    } else {
        (low - 0x1_0000_0000) as i32
    }
}

/// The variable-length integer that starts at `at`: its value and the number
/// of bytes it occupies.
pub open spec fn varint_at(bytes: Seq<u8>, at: int) -> Result<(i32, nat), DecodeError> {
    match scan(bytes, at, MAX_VARINT_BYTES as nat) {
        Ok((raw, used)) => Ok((wrap_i32(raw), used)),
        Err(e) => Err(e),
    }
}

/// The shortest encoding of `value`.
pub open spec fn encoding(value: nat) -> Seq<u8>
    decreases value,
{
    if value < 0x80 {
        seq![value as u8]
    } else {
        seq![(0x80 + value % 0x80) as u8] + encoding(value / 0x80)
    }
}

/// The number of bytes in the shortest encoding of a value below 2^35.
pub open spec fn minimal_len(value: nat) -> nat {
    if value < 0x80 {
        1
    } else if value < 0x4000 {
        2
    } else if value < 0x20_0000 {
        3
    } else if value < 0x1000_0000 {
        4
    } else {
        5
    }
}

/// What `scan` yields from `at` on, given that it yields `rest` from `at + done`
/// on and the `done` bytes before that were continuation bytes worth `low`.
spec fn carried(rest: Result<(nat, nat), DecodeError>, low: nat, weight: nat, done: nat) -> Result<
    (nat, nat),
    DecodeError,
> {
    match rest {
        Ok((high, used)) => Ok((low + weight * high, used + done)),
        Err(e) => Err(e),
    }
}

proof fn lemma_carry_step(low: nat, weight: nat, digit: nat, high: nat)
    ensures
        low + weight * (digit + 0x80 * high) == (low + weight * digit) + (weight * 0x80) * high,
{
    assert(weight * (digit + 0x80 * high) == weight * digit + (weight * 0x80) * high)
        by (nonlinear_arith);
}

/// Decodes the variable-length integer that starts at byte `at` of `window`.
///
/// On success returns the value and the number of bytes it occupies, between
/// one and five. Fails with `Truncated` when the window ends inside the
/// value and with `Malformed` when five bytes in a row announce a successor.
pub fn decode_varint(window: &[u8], at: usize) -> (out: Result<(i32, usize), DecodeError>)
    ensures
        match (out, varint_at(window@, at as int)) {
            (Ok((value, used)), Ok((v, u))) => value == v && used == u,
            (Err(e), Err(f)) => e == f,
            _ => false,
        },
        out matches Ok((_, used)) ==> 1 <= used <= MAX_VARINT_BYTES && at + used <= window@.len(),
{
    let mut low: u64 = 0;
    let mut weight: u64 = 1;
    let mut done: usize = 0;
    proof {
        lemma_pow_values();
    }
    while done < MAX_VARINT_BYTES
        invariant
            done <= MAX_VARINT_BYTES,
            at + done <= window@.len() || done == 0,
            weight == vstd::arithmetic::power::pow(0x80, done as nat),
            low < weight,
            scan(window@, at as int, MAX_VARINT_BYTES as nat) == carried(
                scan(window@, at + done, (MAX_VARINT_BYTES - done) as nat),
                low as nat,
                weight as nat,
                done as nat,
            ),
        decreases MAX_VARINT_BYTES - done,
    {
        if at >= window.len() || done >= window.len() - at {
            return Err(DecodeError::Truncated);
        }
        let byte: u8 = window[at + done];
        let digit: u8 = byte & 0x7f;
        let more: bool = byte & 0x80 != 0;
        proof {
            assert(byte & 0x7f == byte % 0x80) by (bit_vector);
            assert((byte & 0x80 != 0) == (byte >= 0x80)) by (bit_vector);
            vstd::arithmetic::power::lemma_pow_adds(0x80, done as nat, 1);
            vstd::arithmetic::power::lemma_pow1(0x80);
            lemma_pow_values();
            assert(weight * 0x80 == vstd::arithmetic::power::pow(0x80, (done + 1) as nat));
            assert(low + weight * digit < weight * 0x80) by (nonlinear_arith)
                requires
                    low < weight,
                    digit < 0x80,
            ;
            assert(weight * 0x80 <= 0x8_0000_0000);
        }
        let total: u64 = low + weight * (digit as u64);
        if !more {
            let bits: u64 = total % 0x1_0000_0000;
            let value: i32 = if bits < 0x8000_0000 {
                bits as i32
            } else {
                ((bits - 0x8000_0000) as i32) + i32::MIN
            };
            return Ok((value, done + 1));
        }
        proof {
            let rest = scan(window@, at + done + 1, (MAX_VARINT_BYTES - done - 1) as nat);
            if let Ok((high, used)) = rest {
                lemma_carry_step(low as nat, weight as nat, digit as nat, high);
            }
        }
        low = total;
        weight = weight * 0x80;
        done = done + 1;
    }
    Err(DecodeError::Malformed)
}

proof fn lemma_pow_values()
    ensures
        vstd::arithmetic::power::pow(0x80, 0) == 1,
        vstd::arithmetic::power::pow(0x80, 1) == 0x80,
        vstd::arithmetic::power::pow(0x80, 2) == 0x4000,
        vstd::arithmetic::power::pow(0x80, 3) == 0x20_0000,
        vstd::arithmetic::power::pow(0x80, 4) == 0x1000_0000,
        vstd::arithmetic::power::pow(0x80, 5) == 0x8_0000_0000,
{
    reveal_with_fuel(vstd::arithmetic::power::pow, 6);
}

/// The low thirty-two bits of `value` read as an unsigned number: the number
/// whose shortest encoding is the wire form of `value`.
pub open spec fn bit_pattern(value: i32) -> nat {
    if value >= 0 {
        value as nat
    } else {
        (value + 0x1_0000_0000) as nat
    }
}

/// Whether the bytes of `window` from `at` on begin with `prefix`.
pub open spec fn starts_with_at(window: Seq<u8>, at: int, prefix: Seq<u8>) -> bool {
    &&& 0 <= at
    &&& at + prefix.len() <= window.len()
    &&& window.subrange(at, at + prefix.len()) == prefix
}

/// The shortest encoding of a value below 2^35 has `minimal_len` bytes, every
/// byte but the last announces a successor, and the last does not.
pub proof fn lemma_encoding_shape(value: nat)
    requires
        value < 0x8_0000_0000,
    ensures
        encoding(value).len() == minimal_len(value),
        !continues(encoding(value).last()),
        forall|i: int| 0 <= i < encoding(value).len() - 1 ==> continues(#[trigger] encoding(value)[i]),
    decreases value,
{
    if value >= 0x80 {
        lemma_encoding_shape(value / 0x80);
        let head = seq![(0x80 + value % 0x80) as u8];
        let tail = encoding(value / 0x80);
        assert(encoding(value) == head + tail);
        assert forall|i: int| 0 <= i < encoding(value).len() - 1 implies continues(
            #[trigger] encoding(value)[i],
        ) by {
            if i > 0 {
                assert(encoding(value)[i] == tail[i - 1]);
            }
        }
    }
}

proof fn lemma_scan_encoding(window: Seq<u8>, at: int, value: nat, budget: nat)
    requires
        value < 0x8_0000_0000,
        minimal_len(value) <= budget,
        starts_with_at(window, at, encoding(value)),
    ensures
        scan(window, at, budget) matches Ok(found) && found == (value, minimal_len(value)),
    decreases value,
{
    lemma_encoding_shape(value);
    let code = encoding(value);
    assert(window[at] == window.subrange(at, at + code.len())[0]);
    if value >= 0x80 {
        let tail = encoding(value / 0x80);
        lemma_encoding_shape(value / 0x80);
        assert(code == seq![(0x80 + value % 0x80) as u8] + tail);
        assert(window.subrange(at + 1, at + 1 + tail.len()) == tail) by {
            assert forall|i: int| 0 <= i < tail.len() implies window.subrange(
                at + 1,
                at + 1 + tail.len(),
            )[i] == tail[i] by {
                assert(window.subrange(at, at + code.len())[i + 1] == code[i + 1]);
            }
        }
        lemma_scan_encoding(window, at + 1, value / 0x80, (budget - 1) as nat);
    }
}

/// Decoding undoes encoding: wherever the shortest encoding of a 32-bit value
/// stands in a window, whatever follows it, the decoder yields that value and
/// occupies exactly the bytes of the encoding, which is as short as any
/// encoding of the value can be.
pub proof fn lemma_decode_inverts_encode(window: Seq<u8>, at: int, value: i32)
    requires
        starts_with_at(window, at, encoding(bit_pattern(value))),
    ensures
        varint_at(window, at) matches Ok(found) && found == (
            value,
            encoding(bit_pattern(value)).len(),
        ),
        encoding(bit_pattern(value)).len() == minimal_len(bit_pattern(value)),
{
    lemma_encoding_shape(bit_pattern(value));
    lemma_scan_encoding(window, at, bit_pattern(value), MAX_VARINT_BYTES as nat);
}

proof fn lemma_scan_bounds(window: Seq<u8>, at: int, budget: nat)
    requires
        budget <= MAX_VARINT_BYTES,
    ensures
        scan(window, at, budget) matches Ok(found) ==> 1 <= found.1 <= budget && found.0
            < vstd::arithmetic::power::pow(0x80, found.1),
    decreases budget,
{
    lemma_pow_values();
    if budget > 0 && 0 <= at < window.len() && continues(window[at]) {
        lemma_scan_bounds(window, at + 1, (budget - 1) as nat);
    }
}

/// No encoding is shorter than the shortest: whatever bytes decode to a
/// value, they are at least as many as the shortest encoding of that value.
pub proof fn lemma_no_shorter_encoding(window: Seq<u8>, at: int)
    ensures
        varint_at(window, at) matches Ok(found) ==> found.1 >= minimal_len(bit_pattern(found.0)),
{
    lemma_scan_bounds(window, at, MAX_VARINT_BYTES as nat);
    lemma_pow_values();
}

/// Five bytes in a row that each announce a successor are never a value, and
/// the failure is `Malformed` however many bytes follow.
pub proof fn lemma_five_continuations_malformed(window: Seq<u8>, at: int)
    requires
        0 <= at,
        at + MAX_VARINT_BYTES <= window.len(),
        forall|i: int| at <= i < at + MAX_VARINT_BYTES ==> continues(#[trigger] window[i]),
    ensures
        varint_at(window, at) matches Err(e) && e == DecodeError::Malformed,
{
    reveal_with_fuel(scan, 6);
    assert(continues(window[at]));
    assert(continues(window[at + 1]));
    assert(continues(window[at + 2]));
    assert(continues(window[at + 3]));
    assert(continues(window[at + 4]));
}

/// A window that ends inside a value, before a fifth byte, is `Truncated`.
pub proof fn lemma_short_window_truncated(window: Seq<u8>, at: int)
    requires
        0 <= at <= window.len(),
        window.len() - at < MAX_VARINT_BYTES,
        forall|i: int| at <= i < window.len() ==> continues(#[trigger] window[i]),
    ensures
        varint_at(window, at) matches Err(e) && e == DecodeError::Truncated,
{
    reveal_with_fuel(scan, 6);
    if at < window.len() {
        assert(continues(window[at]));
        if at + 1 < window.len() {
            assert(continues(window[at + 1]));
            if at + 2 < window.len() {
                assert(continues(window[at + 2]));
                if at + 3 < window.len() {
                    assert(continues(window[at + 3]));
                }
            }
        }
    }
}

} // verus!
