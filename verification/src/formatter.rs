use vstd::prelude::*;

verus! {

/// Which power of 1024 a size is scaled by: the largest unit that leaves
/// a scaled value below 1024, clamped at the largest unit known.
pub open spec fn unit_index(size: u64) -> int {
    if size < 1024 {
        0
    } else if size < 1048576 {
        1
    } else if size < 1073741824 {
        2
    } else if size < 1099511627776 {
        3
    } else {
        4
    }
}

/// The divisor belonging to a unit: 1024 raised to the unit's index.
pub open spec fn unit_divisor(i: int) -> int {
    if i <= 0 {
        1
    } else if i == 1 {
        1024
    } else if i == 2 {
        1048576
    } else if i == 3 {
        1073741824
    } else {
        1099511627776
    }
}

/// The letter belonging to a unit, empty for bare bytes.
pub open spec fn unit_label_v(i: int) -> Seq<char> {
    if i <= 0 {
        Seq::empty()
    } else if i == 1 {
        seq!['K']
    } else if i == 2 {
        seq!['M']
    } else if i == 3 {
        seq!['G']
    } else {
        seq!['T']
    }
}

/// The first two decimal places of the scaled value, rounded to the
/// nearest hundredth with halves rounded up, counted in hundredths;
/// the count reaches 100 when the fraction rounds all the way up, and
/// the carry then belongs to the whole part.
pub open spec fn rounded_centi(size: u64) -> int {
    let d = unit_divisor(unit_index(size));
    ((size as int % d) * 100 + d / 2) / d
}

/// Scales a byte count into the largest unit that keeps the whole part
/// below 1024: the whole part, the first two decimal places rounded to
/// nearest (the rounding carrying into the whole part), and the unit's
/// letter. Values of a whole terabyte and beyond stay in the terabyte
/// unit however large they grow.
pub fn human_format(size: u64) -> (r: (u64, u64, &'static str))
    ensures
        r.0 == size as int / unit_divisor(unit_index(size)) + rounded_centi(size) / 100,
        r.1 == rounded_centi(size) % 100,
        r.1 < 100,
        r.2@ == unit_label_v(unit_index(size)),
{
    if size < 1024 {
        proof {
            reveal_strlit("");
            assert(("")@ =~= unit_label_v(0));
        }
        (size, 0, "")
    } else if size < 1048576 {
        proof {
            reveal_strlit("K");
            assert(("K")@ =~= unit_label_v(1));
        }
        let c: u64 = (size % 1024 * 100 + 512) / 1024;
        (size / 1024 + c / 100, c % 100, "K")
    } else if size < 1073741824 {
        proof {
            reveal_strlit("M");
            assert(("M")@ =~= unit_label_v(2));
        }
        let c: u64 = (size % 1048576 * 100 + 524288) / 1048576;
        (size / 1048576 + c / 100, c % 100, "M")
    } else if size < 1099511627776 {
        proof {
            reveal_strlit("G");
            assert(("G")@ =~= unit_label_v(3));
        }
        let c: u64 = (size % 1073741824 * 100 + 536870912) / 1073741824;
        (size / 1073741824 + c / 100, c % 100, "G")
    } else {
        proof {
            reveal_strlit("T");
            assert(("T")@ =~= unit_label_v(4));
        }
        let c: u64 = (size % 1099511627776 * 100 + 549755813888) / 1099511627776;
        (size / 1099511627776 + c / 100, c % 100, "T")
    }
}

/// Whether the size is an exact multiple of its unit's divisor, so that
/// the scaled value is a whole number and no decimal places are shown.
fn scaled_exact(size: u64) -> (r: bool)
    ensures
        r == (size as int % unit_divisor(unit_index(size)) == 0),
{
    if size < 1024 {
        true
    } else if size < 1048576 {
        size % 1024 == 0
    } else if size < 1073741824 {
        size % 1048576 == 0
    } else if size < 1099511627776 {
        size % 1073741824 == 0
    } else {
        size % 1099511627776 == 0
    }
}

/// The character of one decimal digit.
pub open spec fn digit_char(d: int) -> char {
    if d == 0 {
        '0'
    } else if d == 1 {
        '1'
    } else if d == 2 {
        '2'
    } else if d == 3 {
        '3'
    } else if d == 4 {
        '4'
    } else if d == 5 {
        '5'
    } else if d == 6 {
        '6'
    } else if d == 7 {
        '7'
    } else if d == 8 {
        '8'
    } else {
        '9'
    }
}

/// The decimal digits of a nonnegative number, most significant first.
pub open spec fn dec_rep(n: int) -> Seq<char>
    decreases n,
{
    if n < 10 {
        seq![digit_char(n)]
    } else {
        dec_rep(n / 10).push(digit_char(n % 10))
    }
}

/// One decimal digit as a string slice.
fn digit_str(d: u64) -> (r: &'static str)
    requires
        d < 10,
    ensures
        r@ == seq![digit_char(d as int)],
{
    if d == 0 {
        proof {
            reveal_strlit("0");
            assert(("0")@ =~= seq![digit_char(0)]);
        }
        "0"
    } else if d == 1 {
        proof {
            reveal_strlit("1");
            assert(("1")@ =~= seq![digit_char(1)]);
        }
        "1"
    } else if d == 2 {
        proof {
            reveal_strlit("2");
            assert(("2")@ =~= seq![digit_char(2)]);
        }
        "2"
    } else if d == 3 {
        proof {
            reveal_strlit("3");
            assert(("3")@ =~= seq![digit_char(3)]);
        }
        "3"
    } else if d == 4 {
        proof {
            reveal_strlit("4");
            assert(("4")@ =~= seq![digit_char(4)]);
        }
        "4"
    } else if d == 5 {
        proof {
            reveal_strlit("5");
            assert(("5")@ =~= seq![digit_char(5)]);
        }
        "5"
    } else if d == 6 {
        proof {
            reveal_strlit("6");
            assert(("6")@ =~= seq![digit_char(6)]);
        }
        "6"
    } else if d == 7 {
        proof {
            reveal_strlit("7");
            assert(("7")@ =~= seq![digit_char(7)]);
        }
        "7"
    } else if d == 8 {
        proof {
            reveal_strlit("8");
            assert(("8")@ =~= seq![digit_char(8)]);
        }
        "8"
    } else {
        proof {
            reveal_strlit("9");
            assert(("9")@ =~= seq![digit_char(9)]);
        }
        "9"
    }
}

/// Renders a number in decimal.
pub fn u64_to_string(n: u64) -> (s: String)
    ensures
        s@ == dec_rep(n as int),
    decreases n,
{
    if n < 10 {
        String::from_str(digit_str(n))
    } else {
        let mut s = u64_to_string(n / 10);
        s.append(digit_str(n % 10));
        proof {
            assert(s@ =~= dec_rep(n as int));
        }
        s
    }
}

/// The rendering of a size: its decimal digits when raw. When
/// human-readable, the scaled whole part alone where the size is an
/// exact multiple of its unit's divisor, and otherwise exactly two
/// decimal places, rounded to nearest with the carry taken into the
/// whole part; then the unit letter and `B`.
pub open spec fn size_display(size: u64, human_readable: bool) -> Seq<char> {
    if !human_readable {
        dec_rep(size as int)
    } else {
        let i = unit_index(size);
        let d = unit_divisor(i);
        let c = rounded_centi(size);
        if size as int % d == 0 {
            dec_rep(size as int / d) + unit_label_v(i) + seq!['B']
        } else {
            dec_rep(size as int / d + c / 100) + seq![
                '.',
                digit_char(c % 100 / 10),
                digit_char(c % 10),
            ] + unit_label_v(i) + seq!['B']
        }
    }
}

/// Renders a size, raw or scaled into a human-readable unit.
pub fn human_format_if_needed(size: u64, human_readable: bool) -> (r: String)
    ensures
        r@ == size_display(size, human_readable),
{
    if !human_readable {
        return u64_to_string(size);
    }
    let (w, c, unit) = human_format(size);
    let mut s = u64_to_string(w);
    if !scaled_exact(size) {
        proof {
            reveal_strlit(".");
            assert(c % 10 == rounded_centi(size) % 100 % 10);
        }
        s.append(".");
        s.append(digit_str(c / 10));
        s.append(digit_str(c % 10));
    }
    s.append(unit);
    s.append("B");
    proof {
        reveal_strlit(".");
        reveal_strlit("B");
        assert((".")@ =~= seq!['.']);
        assert(("B")@ =~= seq!['B']);
        if size as int % unit_divisor(unit_index(size)) == 0 {
            assert(rounded_centi(size) == 0);
        }
        assert(s@ =~= size_display(size, true));
    }
    s
}

} // verus!
