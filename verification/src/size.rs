//! Sizes in words: a count of bytes as a whole number of the largest binary
//! unit that fits.

use vstd::prelude::*;
use vstd::std_specs::convert::IntoSpec;
use crate::packer::Zippy;

verus! {

pub const KIB: u128 = 0x400;

pub const MIB: u128 = 0x10_0000;

pub const GIB: u128 = 0x4000_0000;

pub const TIB: u128 = 0x100_0000_0000;

pub const PIB: u128 = 0x4_0000_0000_0000;

pub const EIB: u128 = 0x1000_0000_0000_0000;

pub const ZIB: u128 = 0x40_0000_0000_0000_0000;

pub const YIB: u128 = 0x1_0000_0000_0000_0000_0000;

/// The character of one decimal digit.
pub open spec fn digit(d: nat) -> char {
    if d == 0 {
        '0'
    } else if d == 1 {
        '1'
    } else if d == 2 {
        '2'
    } else if d == 3 {
        '3'
    } else if d == 4 {
        '4'
    } else if d == 5 {
        '5'
    } else if d == 6 {
        '6'
    } else if d == 7 {
        '7'
    } else if d == 8 {
        '8'
    } else {
        '9'
    }
}

/// `n` in decimal, without leading zeros.
pub open spec fn decimal(n: nat) -> Seq<char>
    decreases n,
{
    if n < 10 {
        seq![digit(n)]
    } else {
        decimal(n / 10).push(digit(n % 10))
    }
}

/// A count of bytes for a reader: the count divided by the largest unit not
/// above it, rounded down, then a space and the unit's name. Counts below
/// 1024 are given in bytes.
pub open spec fn humanized(n: nat) -> Seq<char> {
    if n < KIB {
        decimal(n) + " bytes"@
    } else if n < MIB {
        decimal(n / (KIB as nat)) + " KiB"@
    } else if n < GIB {
        decimal(n / (MIB as nat)) + " MiB"@
    } else if n < TIB {
        decimal(n / (GIB as nat)) + " GiB"@
    } else if n < PIB {
        decimal(n / (TIB as nat)) + " TiB"@
    } else if n < EIB {
        decimal(n / (PIB as nat)) + " PiB"@
    } else if n < ZIB {
        decimal(n / (EIB as nat)) + " EiB"@
    } else if n < YIB {
        decimal(n / (ZIB as nat)) + " ZiB"@
    } else {
        decimal(n / (YIB as nat)) + " YiB"@
    }
}

/// The character of the digit `d`.
pub fn digit_char(d: u8) -> (c: char)
    requires
        d < 10,
    ensures
        c == digit(d as nat),
{
    match d {
        0 => '0',
        1 => '1',
        2 => '2',
        3 => '3',
        4 => '4',
        5 => '5',
        6 => '6',
        7 => '7',
        8 => '8',
        _ => '9',
    }
}

/// Appends `n` in decimal to `out`.
pub fn push_decimal(out: &mut String, n: u128)
    ensures
        final(out)@ == old(out)@ + decimal(n as nat),
    decreases n,
{
    if n >= 10 {
        push_decimal(out, n / 10);
    }
    let d: u8 = (n % 10) as u8;
    out.push(digit_char(d));
    assert(out@ =~= old(out)@ + decimal(n as nat));
}

/// `amount` in decimal, a space and the unit's name.
pub fn with_unit(amount: u128, unit: &str) -> (r: String)
    ensures
        r@ == decimal(amount as nat) + seq![' '] + unit@,
{
    let mut out = String::new();
    push_decimal(&mut out, amount);
    out.push(' ');
    out.append(unit);
    assert(out@ =~= decimal(amount as nat) + seq![' '] + unit@);
    out
}

/// A count of bytes for a reader, in the largest binary unit that fits,
/// rounded down.
pub fn render(bytes: u128) -> (r: String)
    ensures
        r@ == humanized(bytes as nat),
{
    proof {
        lemma_unit_names();
    }
    let r = if bytes < KIB {
        with_unit(bytes, "bytes")
    } else if bytes < MIB {
        with_unit(bytes / KIB, "KiB")
    } else if bytes < GIB {
        with_unit(bytes / MIB, "MiB")
    } else if bytes < TIB {
        with_unit(bytes / GIB, "GiB")
    } else if bytes < PIB {
        with_unit(bytes / TIB, "TiB")
    } else if bytes < EIB {
        with_unit(bytes / PIB, "PiB")
    } else if bytes < ZIB {
        with_unit(bytes / EIB, "EiB")
    } else if bytes < YIB {
        with_unit(bytes / ZIB, "ZiB")
    } else {
        with_unit(bytes / YIB, "YiB")
    };
    assert(r@ =~= humanized(bytes as nat));
    r
}

impl Zippy {
    /// A count of bytes for a reader: what [`render`] gives for the count
    /// turned into a `u128`.
    pub fn humanize<N: Into<u128>>(bytes: N) -> (r: String)
        ensures
            exists|v: u128|
                call_ensures(<N as Into<u128>>::into, (bytes,), v) && r@ == humanized(v as nat),
            N::obeys_into_spec() ==> r@ == humanized(N::into_spec(bytes) as nat),
    {
        render(bytes.into())
    }
}

/// Each unit's name with a space before it, as one string.
proof fn lemma_unit_names()
    ensures
        " bytes"@ == seq![' '] + "bytes"@,
        " KiB"@ == seq![' '] + "KiB"@,
        " MiB"@ == seq![' '] + "MiB"@,
        " GiB"@ == seq![' '] + "GiB"@,
        " TiB"@ == seq![' '] + "TiB"@,
        " PiB"@ == seq![' '] + "PiB"@,
        " EiB"@ == seq![' '] + "EiB"@,
        " ZiB"@ == seq![' '] + "ZiB"@,
        " YiB"@ == seq![' '] + "YiB"@,
{
    reveal_strlit(" bytes");
    reveal_strlit("bytes");
    reveal_strlit(" KiB");
    reveal_strlit("KiB");
    reveal_strlit(" MiB");
    reveal_strlit("MiB");
    reveal_strlit(" GiB");
    reveal_strlit("GiB");
    reveal_strlit(" TiB");
    reveal_strlit("TiB");
    reveal_strlit(" PiB");
    reveal_strlit("PiB");
    reveal_strlit(" EiB");
    reveal_strlit("EiB");
    reveal_strlit(" ZiB");
    reveal_strlit("ZiB");
    reveal_strlit(" YiB");
    reveal_strlit("YiB");
    assert(" bytes"@ =~= seq![' '] + "bytes"@);
    assert(" KiB"@ =~= seq![' '] + "KiB"@);
    assert(" MiB"@ =~= seq![' '] + "MiB"@);
    assert(" GiB"@ =~= seq![' '] + "GiB"@);
    assert(" TiB"@ =~= seq![' '] + "TiB"@);
    assert(" PiB"@ =~= seq![' '] + "PiB"@);
    assert(" EiB"@ =~= seq![' '] + "EiB"@);
    assert(" ZiB"@ =~= seq![' '] + "ZiB"@);
    assert(" YiB"@ =~= seq![' '] + "YiB"@);
}

} // verus!
