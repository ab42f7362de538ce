//! The bytes of a region as text, for a reader who looks into a list.
//!
//! The text names the kind of region and lists every byte in decimal:
//! `List(&[ 1 0 255 ])`.
use vstd::prelude::*;
use vstd::string::*;

verus! {

/// The digit `d` as text.
pub open spec fn digit(d: u8) -> Seq<char> {
    if d == 0 {
        "0"@
    } else if d == 1 {
        "1"@
    } else if d == 2 {
        "2"@
    } else if d == 3 {
        "3"@
    } else if d == 4 {
        "4"@
    } else if d == 5 {
        "5"@
    } else if d == 6 {
        "6"@
    } else if d == 7 {
        "7"@
    } else if d == 8 {
        "8"@
    } else {
        "9"@
    }
}

/// The byte `b` in decimal, without leading zeros.
pub open spec fn decimal(b: u8) -> Seq<char> {
    if b >= 100 {
        digit(b / 100) + digit(b / 10 % 10) + digit(b % 10)
    } else if b >= 10 {
        digit(b / 10) + digit(b % 10)
    } else {
        digit(b)
    }
}

/// Every byte of `bytes` in decimal, each with a blank behind it.
pub open spec fn listed(bytes: Seq<u8>) -> Seq<char>
    decreases bytes.len(),
{
    if bytes.len() == 0 {
        Seq::empty()
    } else {
        listed(bytes.drop_last()) + decimal(bytes.last()) + " "@
    }
}

/// The text for a region of the kind `name` that holds `bytes`.
pub open spec fn region_text(name: Seq<char>, bytes: Seq<u8>) -> Seq<char> {
    name + "(&[ "@ + listed(bytes) + "])"@
}

/// The digit `d` as text.
fn digit_str(d: u8) -> (r: &'static str)
    requires
        d < 10,
    ensures
        r@ == digit(d),
{
    match d {
        0 => "0",
        1 => "1",
        2 => "2",
        3 => "3",
        4 => "4",
        5 => "5",
        6 => "6",
        7 => "7",
        8 => "8",
        _ => "9",
    }
}

/// Appends the byte `b` in decimal.
fn append_decimal(out: &mut String, b: u8)
    ensures
        final(out)@ == old(out)@ + decimal(b),
{
    if b >= 100 {
        out.append(digit_str(b / 100));
        out.append(digit_str(b / 10 % 10));
    } else if b >= 10 {
        out.append(digit_str(b / 10));
    }
    out.append(digit_str(b % 10));
    assert(out@ =~= old(out)@ + decimal(b));
}

/// Writes the text for a region of the kind `name` that holds `bytes`.
pub fn write_region(name: &str, bytes: &[u8]) -> (r: String)
    ensures
        r@ == region_text(name@, bytes@),
{
    let mut out = String::from_str(name);
    out.append("(&[ ");
    let mut i: usize = 0;
    while i < bytes.len()
        invariant
            i <= bytes@.len(),
            out@ == name@ + "(&[ "@ + listed(bytes@.subrange(0, i as int)),
        decreases bytes@.len() - i,
    {
        assert(bytes@.subrange(0, i + 1).drop_last() =~= bytes@.subrange(0, i as int));
        append_decimal(&mut out, bytes[i]);
        out.append(" ");
        i = i + 1;
        assert(out@ =~= name@ + "(&[ "@ + listed(bytes@.subrange(0, i as int)));
    }
    assert(bytes@.subrange(0, bytes@.len() as int) =~= bytes@);
    out.append("])");
    out
}

} // verus!
