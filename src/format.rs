use vstd::prelude::*;

verus! {

/// The size of unit `i` of the human-readable scale, in base-1024 steps.
pub open spec fn unit_size(i: nat) -> nat {
    if i == 0 {
        1
    } else if i == 1 {
        1024
    } else if i == 2 {
        1048576
    } else if i == 3 {
        1073741824
    } else if i == 4 {
        1099511627776
    } else if i == 5 {
        1125899906842624
    } else {
        1152921504606846976
    }
}

/// The suffix of unit `i`.
pub open spec fn unit_char(i: nat) -> char {
    if i == 0 {
        'B'
    } else if i == 1 {
        'K'
    } else if i == 2 {
        'M'
    } else if i == 3 {
        'G'
    } else if i == 4 {
        'T'
    } else if i == 5 {
        'P'
    } else {
        'E'
    }
}

/// The largest unit in which `size` is at least 1 (bytes for 0).
pub open spec fn unit_of(size: nat) -> nat {
    if size >= unit_size(6) {
        6
    } else if size >= unit_size(5) {
        5
    } else if size >= unit_size(4) {
        4
    } else if size >= unit_size(3) {
        3
    } else if size >= unit_size(2) {
        2
    } else if size >= unit_size(1) {
        1
    } else {
        0
    }
}

/// `n / d` rounded to the nearest integer, ties to the even one.
pub open spec fn round_div(n: nat, d: nat) -> nat
    recommends
        d > 0,
{
    let q = n / d;
    let r = n % d;
    if 2 * r > d {
        q + 1
    } else if 2 * r < d {
        q
    } else {
        q + q % 2
    }
}

/// The decimal digits of `n`.
pub open spec fn decimal(n: nat) -> Seq<char>
    decreases n,
{
    if n < 10 {
        seq![(n + 48) as char]
    } else {
        decimal(n / 10).push(((n % 10) + 48) as char)
    }
}

/// `s` right-aligned in a field of `w` characters.
pub open spec fn pad_to(s: Seq<char>, w: nat) -> Seq<char> {
    if s.len() < w {
        Seq::new((w - s.len()) as nat, |_i: int| ' ') + s
    } else {
        s
    }
}

/// A size as four characters of number and one of unit: one decimal when
/// the scaled value is below 10, none otherwise.
pub open spec fn human_readable(size: nat) -> Seq<char> {
    let i = unit_of(size);
    let d = unit_size(i);
    if size < 10 * d {
        let t = round_div(10 * size, d);
        pad_to(decimal(t / 10) + seq!['.'] + decimal(t % 10), 4).push(unit_char(i))
    } else {
        pad_to(decimal(round_div(size, d)), 4).push(unit_char(i))
    }
}

/// Relies on `String::push`: appends one character.
#[verifier::external_body]
fn push_char(s: &mut String, c: char)
    ensures
        final(s)@ == old(s)@.push(c),
{
    s.push(c);
}

fn decimal_digits(n: u128) -> (r: Vec<char>)
    ensures
        r@ == decimal(n as nat),
    decreases n,
{
    let d: char = ((n % 10) as u8 + 48) as char;
    if n < 10 {
        let mut r: Vec<char> = Vec::new();
        r.push(d);
        assert(r@ =~= decimal(n as nat));
        r
    } else {
        let mut r = decimal_digits(n / 10);
        r.push(d);
        r
    }
}

fn push_padded(out: &mut String, s: &Vec<char>, w: usize)
    ensures
        final(out)@ == old(out)@ + pad_to(s@, w as nat),
{
    let mut k: usize = s.len();
    assert(out@ =~= old(out)@ + Seq::new(0nat, |_i: int| ' '));
    while k < w
        invariant
            s@.len() <= k,
            k <= w || k == s@.len(),
            out@ == old(out)@ + Seq::new((k - s@.len()) as nat, |_i: int| ' '),
        decreases w - k,
    {
        push_char(out, ' ');
        k = k + 1;
        assert(out@ =~= old(out)@ + Seq::new((k - s@.len()) as nat, |_i: int| ' '));
    }
    let ghost mid = out@;
    let mut j: usize = 0;
    while j < s.len()
        invariant
            j <= s@.len(),
            out@ == mid + s@.take(j as int),
        decreases s@.len() - j,
    {
        push_char(out, s[j]);
        j = j + 1;
        assert(out@ =~= mid + s@.take(j as int));
    }
    assert(s@.take(j as int) =~= s@);
    assert(out@ =~= old(out)@ + pad_to(s@, w as nat));
}

fn round_div_exec(n: u128, d: u128) -> (r: u128)
    requires
        d > 0,
        n <= 1_000_000_000_000_000_000_000,
        d <= 1152921504606846976,
    ensures
        r == round_div(n as nat, d as nat),
{
    let q = n / d;
    let r = n % d;
    if 2 * r > d {
        q + 1
    } else if 2 * r < d {
        q
    } else {
        q + q % 2
    }
}

/// Renders `size` bytes in the largest base-1024 unit in which it is at
/// least 1, as a right-aligned four-character number and a unit letter.
pub fn format_human_readable(size: u64) -> (r: String)
    ensures
        r@ == human_readable(size as nat),
{
    let n: u128 = size as u128;
    let (i, d): (u8, u128) = if n >= 1152921504606846976 {
        (6, 1152921504606846976)
    } else if n >= 1125899906842624 {
        (5, 1125899906842624)
    } else if n >= 1099511627776 {
        (4, 1099511627776)
    } else if n >= 1073741824 {
        (3, 1073741824)
    } else if n >= 1048576 {
        (2, 1048576)
    } else if n >= 1024 {
        (1, 1024)
    } else {
        (0, 1)
    };
    assert(i as nat == unit_of(size as nat) && d as nat == unit_size(i as nat));
    let unit: char = if i == 0 {
        'B'
    } else if i == 1 {
        'K'
    } else if i == 2 {
        'M'
    } else if i == 3 {
        'G'
    } else if i == 4 {
        'T'
    } else if i == 5 {
        'P'
    } else {
        'E'
    };
    let mut out = String::new();
    if n < 10 * d {
        let t = round_div_exec(10 * n, d);
        let mut digits = decimal_digits(t / 10);
        digits.push('.');
        let frac = decimal_digits(t % 10);
        let mut j: usize = 0;
        let ghost head = digits@;
        while j < frac.len()
            invariant
                j <= frac@.len(),
                digits@ == head + frac@.take(j as int),
            decreases frac@.len() - j,
        {
            digits.push(frac[j]);
            j = j + 1;
            assert(digits@ =~= head + frac@.take(j as int));
        }
        assert(frac@.take(j as int) =~= frac@);
        push_padded(&mut out, &digits, 4);
    } else {
        let q = round_div_exec(n, d);
        let digits = decimal_digits(q);
        push_padded(&mut out, &digits, 4);
    }
    push_char(&mut out, unit);
    assert(out@ =~= human_readable(size as nat));
    out
}

/// Renders the block count of `size` (512-byte blocks) right-aligned to the
/// width of the block count of `max_size`.
pub fn block_column(size: u64, max_size: u64) -> (r: String)
    ensures
        r@ == pad_to(decimal((size / 512) as nat), decimal((max_size / 512) as nat).len()),
{
    let digits = decimal_digits((size / 512) as u128);
    let width = decimal_digits((max_size / 512) as u128);
    let mut out = String::new();
    push_padded(&mut out, &digits, width.len());
    assert(out@ =~= pad_to(digits@, width@.len()));
    out
}

} // verus!
