//! Text forms of byte channels: two-digit lowercase hexadecimal and plain
//! decimal, and the `#rrggbb` / `rgb(..)` strings assembled from them.

use vstd::prelude::*;

verus! {

/// The digit of a value below sixteen: `0` to `9`, then `a` to `f`.
pub open spec fn digit(n: int) -> char {
    if n == 0 {
        '0'
    } else if n == 1 {
        '1'
    } else if n == 2 {
        '2'
    } else if n == 3 {
        '3'
    } else if n == 4 {
        '4'
    } else if n == 5 {
        '5'
    } else if n == 6 {
        '6'
    } else if n == 7 {
        '7'
    } else if n == 8 {
        '8'
    } else if n == 9 {
        '9'
    } else if n == 10 {
        'a'
    } else if n == 11 {
        'b'
    } else if n == 12 {
        'c'
    } else if n == 13 {
        'd'
    } else if n == 14 {
        'e'
    } else {
        'f'
    }
}

/// A byte as exactly two hexadecimal digits, high nibble first.
pub open spec fn hex_pair(b: u8) -> Seq<char> {
    seq![digit(b as int / 16), digit(b as int % 16)]
}

/// A natural number in decimal, without sign or leading zeros.
pub open spec fn decimal(n: nat) -> Seq<char>
    decreases n,
{
    if n < 10 {
        seq![digit(n as int)]
    } else {
        decimal(n / 10).push(digit((n % 10) as int))
    }
}

/// `#rrggbb`, followed by the alpha pair when alpha is not full.
pub open spec fn hex_text(r: u8, g: u8, b: u8, a: u8) -> Seq<char> {
    let rgb = seq!['#'] + hex_pair(r) + hex_pair(g) + hex_pair(b);
    if a < 255 {
        rgb + hex_pair(a)
    } else {
        rgb
    }
}

/// `rgb(r,g,b)`, or `rgba(r,g,b,alpha)` when an alpha text is given.
pub open spec fn rgb_text(r: u8, g: u8, b: u8, alpha: Option<Seq<char>>) -> Seq<char> {
    let channels = decimal(r as nat) + seq![','] + decimal(g as nat) + seq![','] + decimal(
        b as nat,
    );
    match alpha {
        Some(a) => seq!['r', 'g', 'b', 'a', '('] + channels + seq![','] + a + seq![')'],
        None => seq!['r', 'g', 'b', '('] + channels + seq![')'],
    }
}

/// `String::push`: the string afterwards is the string before with `c`
/// appended as its last character.
#[verifier::external_body]
fn push_char(s: &mut String, c: char)
    ensures
        final(s)@ == old(s)@.push(c),
{
    s.push(c)
}

fn digit_char(n: u8) -> (c: char)
    requires
        n < 16,
    ensures
        c == digit(n as int),
{
    if n < 10 {
        (48u8 + n) as char
    } else {
        (87u8 + n) as char
    }
}

fn push_hex_pair(s: &mut String, b: u8)
    ensures
        final(s)@ == old(s)@ + hex_pair(b),
{
    push_char(s, digit_char(b / 16));
    push_char(s, digit_char(b % 16));
    assert(s@ =~= old(s)@ + hex_pair(b));
}

fn push_decimal(s: &mut String, b: u8)
    ensures
        final(s)@ == old(s)@ + decimal(b as nat),
{
    reveal_with_fuel(decimal, 3);
    if b >= 100 {
        push_char(s, digit_char(b / 100));
    }
    if b >= 10 {
        push_char(s, digit_char((b / 10) % 10));
    }
    push_char(s, digit_char(b % 10));
    assert(s@ =~= old(s)@ + decimal(b as nat));
}

/// The hexadecimal colour string of four byte channels.
pub fn hex_string(r: u8, g: u8, b: u8, a: u8) -> (s: String)
    ensures
        s@ == hex_text(r, g, b, a),
{
    let mut s = String::new();
    push_char(&mut s, '#');
    push_hex_pair(&mut s, r);
    push_hex_pair(&mut s, g);
    push_hex_pair(&mut s, b);
    if a < 255 {
        push_hex_pair(&mut s, a);
    }
    assert(s@ =~= hex_text(r, g, b, a));
    s
}

/// The functional-notation string of three byte channels. With `alpha`
/// given the `rgba(..)` form is written and `alpha` is copied in as its
/// fourth argument; without it the `rgb(..)` form.
pub fn rgb_string(r: u8, g: u8, b: u8, alpha: Option<&str>) -> (s: String)
    ensures
        s@ == rgb_text(
            r,
            g,
            b,
            match alpha {
                Some(a) => Some(a@),
                None => None,
            },
        ),
{
    let mut s = String::new();
    push_char(&mut s, 'r');
    push_char(&mut s, 'g');
    push_char(&mut s, 'b');
    if alpha.is_some() {
        push_char(&mut s, 'a');
    }
    push_char(&mut s, '(');
    push_decimal(&mut s, r);
    push_char(&mut s, ',');
    push_decimal(&mut s, g);
    push_char(&mut s, ',');
    push_decimal(&mut s, b);
    match alpha {
        Some(a) => {
            push_char(&mut s, ',');
            s.append(a);
            push_char(&mut s, ')');
            assert(s@ =~= rgb_text(r, g, b, Some(a@)));
        },
        None => {
            push_char(&mut s, ')');
            assert(s@ =~= rgb_text(r, g, b, None));
        },
    }
    s
}

} // verus!
