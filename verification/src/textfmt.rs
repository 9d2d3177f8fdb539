//! Verified plain-text formatting: decimal numbers, space padding, and the
//! fixed-width one-decimal rate cells of the dashboard.

use vstd::prelude::*;

verus! {

/// The decimal digit character for a value below ten.
pub open spec fn dec_digit(d: int) -> char {
    if d == 0 {
        '0'
    } else if d == 1 {
        '1'
    } else if d == 2 {
        '2'
    } else if d == 3 {
        '3'
    } else if d == 4 {
        '4'
    } else if d == 5 {
        '5'
    } else if d == 6 {
        '6'
    } else if d == 7 {
        '7'
    } else if d == 8 {
        '8'
    } else {
        '9'
    }
}

/// The decimal digits of a non-negative number, most significant first.
pub open spec fn dec_spec(n: int) -> Seq<char>
    decreases n,
{
    if n < 10 {
        seq![dec_digit(n)]
    } else {
        dec_spec(n / 10).push(dec_digit(n % 10))
    }
}

/// `n` spaces.
pub open spec fn spaces_spec(n: int) -> Seq<char> {
    if n <= 0 {
        Seq::<char>::empty()
    } else {
        Seq::<char>::new(n as nat, |i: int| ' ')
    }
}

/// Text padded with spaces on the left to at least `width` characters.
pub open spec fn pad_left_spec(s: Seq<char>, width: int) -> Seq<char> {
    spaces_spec(width - s.len()) + s
}

/// One digit as text.
fn digit_str(d: u64) -> (r: &'static str)
    requires
        d < 10,
    ensures
        r@ == seq![dec_digit(d as int)],
{
    proof {
        reveal_strlit("0");
        reveal_strlit("1");
        reveal_strlit("2");
        reveal_strlit("3");
        reveal_strlit("4");
        reveal_strlit("5");
        reveal_strlit("6");
        reveal_strlit("7");
        reveal_strlit("8");
        reveal_strlit("9");
        assert("0"@ =~= seq!['0']);
        assert("1"@ =~= seq!['1']);
        assert("2"@ =~= seq!['2']);
        assert("3"@ =~= seq!['3']);
        assert("4"@ =~= seq!['4']);
        assert("5"@ =~= seq!['5']);
        assert("6"@ =~= seq!['6']);
        assert("7"@ =~= seq!['7']);
        assert("8"@ =~= seq!['8']);
        assert("9"@ =~= seq!['9']);
    }
    if d == 0 {
        "0"
    } else if d == 1 {
        "1"
    } else if d == 2 {
        "2"
    } else if d == 3 {
        "3"
    } else if d == 4 {
        "4"
    } else if d == 5 {
        "5"
    } else if d == 6 {
        "6"
    } else if d == 7 {
        "7"
    } else if d == 8 {
        "8"
    } else {
        "9"
    }
}

/// A number in decimal.
pub fn u64_to_dec(n: u64) -> (r: String)
    ensures
        r@ == dec_spec(n as int),
    decreases n,
{
    if n < 10 {
        String::from_str(digit_str(n))
    } else {
        let mut s = u64_to_dec(n / 10);
        s.append(digit_str(n % 10));
        proof {
            assert(s@ =~= dec_spec((n / 10) as int).push(dec_digit((n % 10) as int)));
        }
        s
    }
}

/// `n` spaces as text.
pub fn spaces(n: usize) -> (r: String)
    ensures
        r@ == spaces_spec(n as int),
{
    let mut s = String::new();
    let mut i: usize = 0;
    proof {
        reveal_strlit(" ");
        assert(s@ =~= spaces_spec(0));
    }
    while i < n
        invariant
            i <= n,
            " "@ =~= seq![' '],
            s@ == spaces_spec(i as int),
        decreases n - i,
    {
        s.append(" ");
        proof {
            assert(s@ =~= spaces_spec(i + 1));
        }
        i = i + 1;
    }
    s
}

/// Pad text with spaces on the left to at least `width` characters.
pub fn pad_left(s: String, width: usize) -> (r: String)
    ensures
        r@ == pad_left_spec(s@, width as int),
{
    let l = s.as_str().unicode_len();
    if l >= width {
        proof {
            assert(spaces_spec(width - s@.len()) + s@ =~= s@);
        }
        s
    } else {
        let mut p = spaces(width - l);
        p.append(s.as_str());
        p
    }
}

/// The dashboard's rate cell: the quotient `num / den` with one decimal
/// digit (rounded half-up), right-aligned in seven columns. A zero
/// denominator renders as `inf` (or `NaN` for zero over zero), the way the
/// corresponding floating-point division would print.
pub open spec fn rate_text(num: int, den: int) -> Seq<char> {
    if den == 0 {
        if num == 0 {
            pad_left_spec(seq!['N', 'a', 'N'], 7)
        } else {
            pad_left_spec(seq!['i', 'n', 'f'], 7)
        }
    } else {
        let tenths = (10 * num + den / 2) / den;
        pad_left_spec(dec_spec(tenths / 10) + seq!['.', dec_digit(tenths % 10)], 7)
    }
}

/// Format a rate as its fixed-width text.
pub fn fmt_rate(num: u64, den: u64) -> (r: String)
    ensures
        r@ == rate_text(num as int, den as int),
{
    if den == 0 {
        if num == 0 {
            let s = "    NaN";
            proof {
                reveal_strlit("    NaN");
                assert(s@ =~= rate_text(num as int, den as int));
            }
            String::from_str(s)
        } else {
            let s = "    inf";
            proof {
                reveal_strlit("    inf");
                assert(s@ =~= rate_text(num as int, den as int));
            }
            String::from_str(s)
        }
    } else {
        let tenths: u128 = (10 * num as u128 + den as u128 / 2) / den as u128;
        proof {
            assert(tenths * 10 <= u128::MAX) by (nonlinear_arith)
                requires
                    tenths == (10 * num + den / 2) / (den as int),
                    num <= u64::MAX,
                    1 <= den <= u64::MAX,
            ;
        }
        let whole: u128 = tenths / 10;
        let frac: u128 = tenths % 10;
        proof {
            assert(whole <= u64::MAX && frac < 10) by (nonlinear_arith)
                requires
                    tenths == (10 * num + den / 2) / (den as int),
                    whole == tenths / 10,
                    frac == tenths % 10,
                    num <= u64::MAX,
                    1 <= den <= u64::MAX,
            ;
        }
        let mut body = u64_to_dec(whole as u64);
        body.append(".");
        body.append(digit_str(frac as u64));
        proof {
            reveal_strlit(".");
            assert(body@ =~= dec_spec(whole as int) + seq!['.', dec_digit(frac as int)]);
            assert(whole as int == ((10 * num + den / 2) / den as int) / 10);
            assert(frac as int == ((10 * num + den / 2) / den as int) % 10);
        }
        pad_left(body, 7)
    }
}

} // verus!
