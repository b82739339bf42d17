use vstd::prelude::*;
use vstd::string::StringSliceAdditionalSpecFns;

verus! {

/// A numeric payload received from the streaming channel.
///
/// Each number is held as the bit pattern of its IEEE-754 double
/// (`f64::to_bits`), so the payload is compared exactly and never rounded.
#[derive(Debug)]
pub enum Value {
    Single(u64),
    Array(Vec<u64>),
}

/// Semantic state of a battery push button.
#[derive(Debug, Clone, Copy, PartialEq, Eq, Structural)]
pub enum BatteryState {
    Unknown,
    Auto,
    Off,
}

/// Bit pattern of the double `1.0`.
pub const ONE_BITS: u64 = 0x3FF0_0000_0000_0000;

/// Bit pattern of the double `-0.0` (equal to `0.0` as a number).
pub const NEG_ZERO_BITS: u64 = 0x8000_0000_0000_0000;

/// The state that a wire number stands for: `1.0` is `Auto`, `0.0` (of either
/// sign) is `Off`, and every other number, NaN included, is `Unknown`.
pub open spec fn battery_state_of(bits: u64) -> BatteryState {
    if bits == ONE_BITS {
        BatteryState::Auto
    } else if bits == 0 || bits == NEG_ZERO_BITS {
        BatteryState::Off
    } else {
        BatteryState::Unknown
    }
}

/// Maps the bit pattern of a wire number to a battery state.
pub fn convert_battery_state(bits: u64) -> (r: BatteryState)
    ensures
        r == battery_state_of(bits),
{
    if bits == ONE_BITS {
        BatteryState::Auto
    } else if bits == 0 || bits == NEG_ZERO_BITS {
        BatteryState::Off
    } else {
        BatteryState::Unknown
    }
}

pub open spec fn is_digit(b: u8) -> bool {
    48 <= b <= 57
}

pub open spec fn all_digits(s: Seq<u8>) -> bool {
    forall|i: int| 0 <= i < s.len() ==> is_digit(#[trigger] s[i])
}

/// The number written by a string of ASCII decimal digits.
pub open spec fn digits_value(s: Seq<u8>) -> nat
    decreases s.len(),
{
    if s.len() == 0 {
        0
    } else {
        digits_value(s.drop_last()) * 10 + (s.last() - 48) as nat
    }
}

/// The digits of an id text: what follows one optional leading `+`.
pub open spec fn id_digits(s: Seq<u8>) -> Seq<u8> {
    if s.len() > 0 && s[0] == 43 {
        s.drop_first()
    } else {
        s
    }
}

/// The id written by `s`: an optional `+`, then one or more decimal digits
/// whose value fits a `u64`.
pub open spec fn decimal_id(s: Seq<u8>) -> Option<u64> {
    let d = id_digits(s);
    if d.len() > 0 && all_digits(d) && digits_value(d) <= u64::MAX {
        Some(digits_value(d) as u64)
    } else {
        None
    }
}

/// A longer string of digits never writes a smaller number.
proof fn lemma_digits_value_prefix(s: Seq<u8>, i: int)
    requires
        0 <= i <= s.len(),
        all_digits(s),
    ensures
        digits_value(s.subrange(0, i)) <= digits_value(s),
    decreases s.len() - i,
{
    if i < s.len() {
        lemma_digits_value_prefix(s, i + 1);
        let p = s.subrange(0, i + 1);
        assert(p.drop_last() =~= s.subrange(0, i));
        assert(is_digit(s[i]));
    } else {
        assert(s.subrange(0, i) =~= s);
    }
}

/// Reads a decimal id from text, as `str::parse::<u64>` does: `None` when
/// the text, after one optional leading `+`, is empty, holds a character
/// other than an ASCII digit, or writes a number above `u64::MAX`.
pub fn parse_id(text: &str) -> (r: Option<u64>)
    ensures
        r == decimal_id(text.spec_bytes()),
{
    let bytes = text.as_bytes();
    let n: usize = bytes.len();
    let start: usize = if n > 0 && bytes[0] == 43 { 1 } else { 0 };
    let ghost d = id_digits(bytes@);
    assert(d =~= bytes@.subrange(start as int, n as int));
    if start == n {
        return None;
    }
    let mut acc: u64 = 0;
    let mut i: usize = start;
    assert(d.subrange(0, 0) =~= Seq::<u8>::empty());
    while i < n
        invariant
            n == bytes@.len(),
            bytes@ == text.spec_bytes(),
            d == id_digits(bytes@),
            d =~= bytes@.subrange(start as int, n as int),
            start <= i <= n,
            all_digits(d.subrange(0, i - start)),
            acc as nat == digits_value(d.subrange(0, i - start)),
        decreases n - i,
    {
        let b = bytes[i];
        let j: usize = i - start;
        let prefix = Ghost(d.subrange(0, j as int + 1));
        assert(prefix@.drop_last() =~= d.subrange(0, j as int));
        assert(d[j as int] == b);
        if b < 48 || b > 57 {
            assert(!is_digit(d[j as int]));
            return None;
        }
        let dg: u64 = (b - 48) as u64;
        if acc > (u64::MAX - dg) / 10 {
            assert(digits_value(prefix@) > u64::MAX) by (nonlinear_arith)
                requires
                    digits_value(prefix@) == acc * 10 + dg,
                    acc > (u64::MAX - dg) / 10,
                    dg <= 9,
            ;
            proof {
                if all_digits(d) {
                    lemma_digits_value_prefix(d, j as int + 1);
                }
            }
            return None;
        }
        assert(acc * 10 + dg <= u64::MAX) by (nonlinear_arith)
            requires
                acc <= (u64::MAX - dg) / 10,
                dg <= 9,
        ;
        acc = acc * 10 + dg;
        i = i + 1;
        assert(all_digits(d.subrange(0, i - start))) by {
            assert forall|k: int| 0 <= k < i - start implies is_digit(#[trigger] d.subrange(0, i - start)[k]) by {
                if k < i - start - 1 {
                    assert(d.subrange(0, i - start)[k] == d.subrange(0, i - start - 1)[k]);
                }
            };
        }
    }
    assert(d.subrange(0, n - start) =~= d);
    Some(acc)
}

} // verus!
