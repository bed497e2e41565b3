use vstd::prelude::*;
use vstd::string::StringExecFns;

verus! {

/// The decimal digit `d`.
pub open spec fn digit_char(d: nat) -> char {
    if d == 0 {
        '0'
    } else if d == 1 {
        '1'
    } else if d == 2 {
        '2'
    } else if d == 3 {
        '3'
    } else if d == 4 {
        '4'
    } else if d == 5 {
        '5'
    } else if d == 6 {
        '6'
    } else if d == 7 {
        '7'
    } else if d == 8 {
        '8'
    } else {
        '9'
    }
}

/// The decimal representation of `n`, without leading zeros.
pub open spec fn dec(n: nat) -> Seq<char>
    decreases n,
{
    if n < 10 {
        seq![digit_char(n)]
    } else {
        dec(n / 10).push(digit_char(n % 10))
    }
}

/// `c` repeated `n` times.
pub open spec fn repeat(c: char, n: nat) -> Seq<char> {
    Seq::new(n, |i: int| c)
}

/// `s` with `fill` in front up to `width` characters (right-aligned).
pub open spec fn pad_left(s: Seq<char>, width: nat, fill: char) -> Seq<char> {
    if s.len() >= width {
        s
    } else {
        repeat(fill, (width - s.len()) as nat) + s
    }
}

/// `s` with spaces behind up to `width` characters (left-aligned).
pub open spec fn pad_right(s: Seq<char>, width: nat) -> Seq<char> {
    if s.len() >= width {
        s
    } else {
        s + repeat(' ', (width - s.len()) as nat)
    }
}

/// The decimal representation of a signed number, with `-` when negative.
pub open spec fn dec_int(x: int) -> Seq<char> {
    if x < 0 {
        seq!['-'] + dec((-x) as nat)
    } else {
        dec(x as nat)
    }
}

/// The decimal representation of a signed number, always with its sign.
pub open spec fn dec_signed(x: int) -> Seq<char> {
    if x < 0 {
        seq!['-'] + dec((-x) as nat)
    } else {
        seq!['+'] + dec(x as nat)
    }
}

fn digit_str(d: u128) -> (s: &'static str)
    requires
        d < 10,
    ensures
        s@ == seq![digit_char(d as nat)],
{
    if d == 0 {
        proof {
            reveal_strlit("0");
        }
        "0"
    } else if d == 1 {
        proof {
            reveal_strlit("1");
        }
        "1"
    } else if d == 2 {
        proof {
            reveal_strlit("2");
        }
        "2"
    } else if d == 3 {
        proof {
            reveal_strlit("3");
        }
        "3"
    } else if d == 4 {
        proof {
            reveal_strlit("4");
        }
        "4"
    } else if d == 5 {
        proof {
            reveal_strlit("5");
        }
        "5"
    } else if d == 6 {
        proof {
            reveal_strlit("6");
        }
        "6"
    } else if d == 7 {
        proof {
            reveal_strlit("7");
        }
        "7"
    } else if d == 8 {
        proof {
            reveal_strlit("8");
        }
        "8"
    } else {
        proof {
            reveal_strlit("9");
        }
        "9"
    }
}

/// Appends the decimal representation of `n`.
pub fn push_dec(s: &mut String, n: u128)
    ensures
        final(s)@ == old(s)@ + dec(n as nat),
    decreases n,
{
    if n >= 10 {
        push_dec(s, n / 10);
    }
    s.append(digit_str(n % 10));
    assert(final(s)@ =~= old(s)@ + dec(n as nat));
}

/// Number of decimal digits of `n`.
fn num_digits(n: u128) -> (k: u128)
    ensures
        k as nat == dec(n as nat).len(),
        k <= n + 1,
    decreases n,
{
    if n >= 10 {
        num_digits(n / 10) + 1
    } else {
        1
    }
}

/// Appends `c` (a one-character string) `n` times.
fn push_repeat(s: &mut String, c: &str, n: usize)
    requires
        c@.len() == 1,
    ensures
        final(s)@ == old(s)@ + repeat(c@[0], n as nat),
{
    let mut i: usize = 0;
    while i < n
        invariant
            i <= n,
            c@.len() == 1,
            s@ == old(s)@ + repeat(c@[0], i as nat),
        decreases n - i,
    {
        s.append(c);
        i += 1;
        assert(s@ =~= old(s)@ + repeat(c@[0], i as nat));
    }
}

/// Appends `n` in decimal, with leading zeros up to `width` digits.
pub fn push_dec_zero_padded(s: &mut String, n: u128, width: usize)
    ensures
        final(s)@ == old(s)@ + pad_left(dec(n as nat), width as nat, '0'),
{
    let k = num_digits(n);
    if k < width as u128 {
        proof {
            reveal_strlit("0");
        }
        push_repeat(s, "0", (width as u128 - k) as usize);
    }
    push_dec(s, n);
    assert(final(s)@ =~= old(s)@ + pad_left(dec(n as nat), width as nat, '0'));
}

/// Appends `n` in decimal, right-aligned in `width` columns.
pub fn push_dec_right(s: &mut String, n: u128, width: usize)
    ensures
        final(s)@ == old(s)@ + pad_left(dec(n as nat), width as nat, ' '),
{
    let k = num_digits(n);
    if k < width as u128 {
        proof {
            reveal_strlit(" ");
        }
        push_repeat(s, " ", (width as u128 - k) as usize);
    }
    push_dec(s, n);
    assert(final(s)@ =~= old(s)@ + pad_left(dec(n as nat), width as nat, ' '));
}

/// `|x|`.
fn magnitude(x: i128) -> (m: u128)
    ensures
        m as int == if x < 0 { -x } else { x as int },
{
    if x < 0 {
        if x == i128::MIN {
            0x8000_0000_0000_0000_0000_0000_0000_0000u128
        } else {
            (-x) as u128
        }
    } else {
        x as u128
    }
}

/// Appends `x` in decimal, with `-` when negative.
pub fn push_i64(s: &mut String, x: i64)
    ensures
        final(s)@ == old(s)@ + dec_int(x as int),
{
    if x < 0 {
        proof {
            reveal_strlit("-");
        }
        s.append("-");
    }
    push_dec(s, magnitude(x as i128));
    assert(final(s)@ =~= old(s)@ + dec_int(x as int));
}

/// Appends `x` in decimal, always with its sign.
pub fn push_signed(s: &mut String, x: i64)
    ensures
        final(s)@ == old(s)@ + dec_signed(x as int),
{
    if x < 0 {
        proof {
            reveal_strlit("-");
        }
        s.append("-");
    } else {
        proof {
            reveal_strlit("+");
        }
        s.append("+");
    }
    push_dec(s, magnitude(x as i128));
    assert(final(s)@ =~= old(s)@ + dec_signed(x as int));
}

/// Appends `x` in decimal (with `-` when negative), left-aligned in `width`
/// columns.
pub fn push_int_left(s: &mut String, x: i128, width: usize)
    ensures
        final(s)@ == old(s)@ + pad_right(dec_int(x as int), width as nat),
{
    let m = magnitude(x);
    let k: u128 = if x < 0 {
        num_digits(m) + 1
    } else {
        num_digits(m)
    };
    if x < 0 {
        proof {
            reveal_strlit("-");
        }
        s.append("-");
    }
    push_dec(s, m);
    if k < width as u128 {
        proof {
            reveal_strlit(" ");
        }
        push_repeat(s, " ", (width as u128 - k) as usize);
    }
    assert(final(s)@ =~= old(s)@ + pad_right(dec_int(x as int), width as nat));
}

} // verus!
