//! Human-readable byte counts in binary units.

use vstd::prelude::*;

verus! {

/// Bytes in one kilobyte.
pub const KB: u64 = 1024;

/// Bytes in one megabyte.
pub const MB: u64 = 1024 * 1024;

/// Bytes in one gigabyte.
pub const GB: u64 = 1024 * 1024 * 1024;

/// The unit a byte count is shown in.
#[derive(Clone, Copy, Debug, PartialEq, Eq, Structural)]
pub enum SizeUnit {
    B,
    KB,
    MB,
    GB,
}

impl SizeUnit {
    /// How many bytes make one of this unit.
    pub open spec fn bytes(self) -> nat {
        match self {
            SizeUnit::B => 1,
            SizeUnit::KB => 1024,
            SizeUnit::MB => 1024 * 1024,
            SizeUnit::GB => 1024 * 1024 * 1024,
        }
    }

    /// The letters that name this unit.
    pub open spec fn label(self) -> Seq<char> {
        match self {
            SizeUnit::B => seq!['B'],
            SizeUnit::KB => seq!['K', 'B'],
            SizeUnit::MB => seq!['M', 'B'],
            SizeUnit::GB => seq!['G', 'B'],
        }
    }
}

/// The largest unit that `bytes` reaches.
pub open spec fn unit_of(bytes: nat) -> SizeUnit {
    if bytes >= SizeUnit::GB.bytes() {
        SizeUnit::GB
    } else if bytes >= SizeUnit::MB.bytes() {
        SizeUnit::MB
    } else if bytes >= SizeUnit::KB.bytes() {
        SizeUnit::KB
    } else {
        SizeUnit::B
    }
}

/// The character of one decimal digit.
pub open spec fn digit_char(d: nat) -> char {
    if d == 0 {
        '0'
    } else if d == 1 {
        '1'
    } else if d == 2 {
        '2'
    } else if d == 3 {
        '3'
    } else if d == 4 {
        '4'
    } else if d == 5 {
        '5'
    } else if d == 6 {
        '6'
    } else if d == 7 {
        '7'
    } else if d == 8 {
        '8'
    } else {
        '9'
    }
}

/// The decimal numeral of `n`, without leading zeros.
pub open spec fn decimal(n: nat) -> Seq<char>
    decreases n,
{
    if n < 10 {
        seq![digit_char(n)]
    } else {
        decimal(n / 10).push(digit_char(n % 10))
    }
}

/// `bytes / unit` in hundredths, rounded to the nearest hundredth; a quotient
/// that lies exactly between two hundredths goes to the even one.
pub open spec fn hundredths(bytes: nat, unit: nat) -> nat {
    let scaled = bytes * 100;
    let floor = scaled / unit;
    let rest = scaled % unit;
    if 2 * rest > unit || (2 * rest == unit && floor % 2 == 1) {
        floor + 1
    } else {
        floor
    }
}

/// A count of hundredths written with two decimal places.
pub open spec fn two_places(h: nat) -> Seq<char> {
    decimal(h / 100) + seq!['.', digit_char(h / 10 % 10), digit_char(h % 10)]
}

/// The number shown in front of the unit.
pub open spec fn magnitude_text(bytes: nat) -> Seq<char> {
    match unit_of(bytes) {
        SizeUnit::B => decimal(bytes),
        unit => two_places(hundredths(bytes, unit.bytes())),
    }
}

/// The text of a byte count: the magnitude, a space, the unit.
pub open spec fn size_text(bytes: nat) -> Seq<char> {
    magnitude_text(bytes) + seq![' '] + unit_of(bytes).label()
}

/// The unit of a size text is the largest one whose threshold the byte count
/// meets, and the text ends in a space and that unit's label, in no other's.
pub proof fn lemma_size_text_has_one_unit(bytes: nat)
    ensures
        unit_of(bytes) != SizeUnit::B ==> unit_of(bytes).bytes() <= bytes,
        forall|u: SizeUnit|
            u != SizeUnit::B && u.bytes() <= bytes ==> #[trigger] u.bytes() <= unit_of(
                bytes,
            ).bytes(),
        forall|u: SizeUnit| #[trigger]
            (seq![' '] + u.label()).is_suffix_of(size_text(bytes)) <==> u == unit_of(bytes),
{
    let text = size_text(bytes);
    let unit = unit_of(bytes);
    let n = text.len() as int;
    let m = magnitude_text(bytes).len() as int;
    assert forall|u: SizeUnit| #[trigger]
        (seq![' '] + u.label()).is_suffix_of(text) <==> u == unit by {
        let tail = seq![' '] + u.label();
        if u == unit {
            assert(tail =~= text.subrange(n - tail.len(), n));
        } else if tail.is_suffix_of(text) {
            let cut = text.subrange(n - tail.len(), n);
            assert(cut[tail.len() - 1] == tail[tail.len() - 1]);
            assert(cut[tail.len() - 2] == tail[tail.len() - 2]);
            assert(text[n - 1] == 'B');
            if unit == SizeUnit::B {
                assert(text[n - 2] == ' ');
            } else {
                assert(text[n - 2] == unit.label()[0]);
            }
        }
    }
}

/// The one-character string of a decimal digit.
fn digit_str(d: u128) -> (s: &'static str)
    requires
        d < 10,
    ensures
        s@ == seq![digit_char(d as nat)],
{
    proof {
        reveal_strlit("0");
        reveal_strlit("1");
        reveal_strlit("2");
        reveal_strlit("3");
        reveal_strlit("4");
        reveal_strlit("5");
        reveal_strlit("6");
        reveal_strlit("7");
        reveal_strlit("8");
        reveal_strlit("9");
    }
    let s: &'static str = if d == 0 {
        "0"
    } else if d == 1 {
        "1"
    } else if d == 2 {
        "2"
    } else if d == 3 {
        "3"
    } else if d == 4 {
        "4"
    } else if d == 5 {
        "5"
    } else if d == 6 {
        "6"
    } else if d == 7 {
        "7"
    } else if d == 8 {
        "8"
    } else {
        "9"
    };
    assert(s@ =~= seq![digit_char(d as nat)]);
    s
}

/// Appends the decimal numeral of `n` to `out`.
fn append_decimal(out: &mut String, n: u128)
    ensures
        final(out)@ == old(out)@ + decimal(n as nat),
    decreases n,
{
    if n >= 10 {
        append_decimal(out, n / 10);
    }
    out.append(digit_str(n % 10));
    assert(out@ =~= old(out)@ + decimal(n as nat));
}

/// Appends `bytes / unit` with two decimal places to `out`.
fn append_scaled(out: &mut String, bytes: u64, unit: u64)
    requires
        unit > 0,
    ensures
        final(out)@ == old(out)@ + two_places(hundredths(bytes as nat, unit as nat)),
{
    let scaled: u128 = bytes as u128 * 100;
    let wide: u128 = unit as u128;
    let floor: u128 = scaled / wide;
    let rest: u128 = scaled % wide;
    assert(floor <= scaled) by (nonlinear_arith)
        requires
            floor == scaled / wide,
            wide > 0,
    ;
    let h: u128 = if 2 * rest > wide || (2 * rest == wide && floor % 2 == 1) {
        floor + 1
    } else {
        floor
    };
    append_decimal(out, h / 100);
    out.append(".");
    out.append(digit_str(h / 10 % 10));
    out.append(digit_str(h % 10));
    proof {
        reveal_strlit(".");
        assert(out@ =~= old(out)@ + two_places(h as nat));
    }
}

/// Formats a byte count with the largest of B, KB, MB and GB that it reaches:
/// whole bytes below one kilobyte, two decimal places from there on.
pub fn format_size(bytes: u64) -> (text: String)
    ensures
        text@ == size_text(bytes as nat),
{
    let mut text = String::new();
    if bytes >= GB {
        append_scaled(&mut text, bytes, GB);
        text.append(" GB");
        proof {
            reveal_strlit(" GB");
        }
    } else if bytes >= MB {
        append_scaled(&mut text, bytes, MB);
        text.append(" MB");
        proof {
            reveal_strlit(" MB");
        }
    } else if bytes >= KB {
        append_scaled(&mut text, bytes, KB);
        text.append(" KB");
        proof {
            reveal_strlit(" KB");
        }
    } else {
        append_decimal(&mut text, bytes as u128);
        text.append(" B");
        proof {
            reveal_strlit(" B");
        }
    }
    assert(text@ =~= size_text(bytes as nat));
    text
}

} // verus!
