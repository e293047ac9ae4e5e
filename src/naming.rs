use vstd::prelude::*;

verus! {

/// The decimal digit for `d`.
pub open spec fn digit_char(d: nat) -> char {
    if d == 0 { '0' } else if d == 1 { '1' } else if d == 2 { '2' } else if d == 3 { '3' } else if d == 4 {
        '4'
    } else if d == 5 { '5' } else if d == 6 { '6' } else if d == 7 { '7' } else if d == 8 { '8' } else {
        '9'
    }
}

/// `n` in decimal, with no leading zero.
pub open spec fn decimal(n: nat) -> Seq<char>
    decreases n,
{
    if n < 10 {
        seq![digit_char(n)]
    } else {
        decimal(n / 10).push(digit_char(n % 10))
    }
}

/// `c` repeated `n` times.
pub open spec fn repeat_char(c: char, n: nat) -> Seq<char> {
    Seq::new(n, |i: int| c)
}

/// `s` preceded by as many `c` as make it `width` long, where it is shorter.
pub open spec fn pad_left(s: Seq<char>, c: char, width: nat) -> Seq<char> {
    if s.len() < width {
        repeat_char(c, (width - s.len()) as nat) + s
    } else {
        s
    }
}

/// The name of the volume with the given index: the index in decimal,
/// padded with zeros to `width` digits.
pub open spec fn volume_name_of(index: nat, width: nat) -> Seq<char> {
    pad_left(decimal(index), '0', width)
}

fn digit_str(d: u64) -> (r: &'static str)
    requires
        d < 10,
    ensures
        r@ == seq![digit_char(d as nat)],
{
    if d == 0 {
        proof { reveal_strlit("0"); }
        "0"
    } else if d == 1 {
        proof { reveal_strlit("1"); }
        "1"
    } else if d == 2 {
        proof { reveal_strlit("2"); }
        "2"
    } else if d == 3 {
        proof { reveal_strlit("3"); }
        "3"
    } else if d == 4 {
        proof { reveal_strlit("4"); }
        "4"
    } else if d == 5 {
        proof { reveal_strlit("5"); }
        "5"
    } else if d == 6 {
        proof { reveal_strlit("6"); }
        "6"
    } else if d == 7 {
        proof { reveal_strlit("7"); }
        "7"
    } else if d == 8 {
        proof { reveal_strlit("8"); }
        "8"
    } else {
        proof { reveal_strlit("9"); }
        "9"
    }
}

/// Append `n` in decimal to `s`.
pub fn push_decimal(s: &mut String, n: u64)
    ensures
        final(s)@ == old(s)@ + decimal(n as nat),
    decreases n,
{
    if n >= 10 {
        push_decimal(s, n / 10);
    }
    s.append(digit_str(n % 10));
    proof {
        if n < 10 {
            assert(old(s)@ + decimal(n as nat) =~= old(s)@ + seq![digit_char(n as nat)]);
        } else {
            assert((old(s)@ + decimal((n / 10) as nat)) + seq![digit_char((n % 10) as nat)] =~= old(s)@ + decimal(
                n as nat,
            ));
        }
    }
}

/// Append `c`, given as a one-letter string, to `s` until `s` has grown
/// by `n` letters.
fn push_repeated(s: &mut String, c: &str, n: usize)
    requires
        c@.len() == 1,
    ensures
        final(s)@ == old(s)@ + repeat_char(c@[0], n as nat),
{
    let mut k: usize = 0;
    while k < n
        invariant
            k <= n,
            c@.len() == 1,
            s@ == old(s)@ + repeat_char(c@[0], k as nat),
        decreases n - k,
    {
        s.append(c);
        k = k + 1;
        assert(s@ =~= old(s)@ + repeat_char(c@[0], k as nat));
    }
}

/// Append `text` to `s`, preceded by as many `c` as make it `width` letters
/// long where it is shorter.
pub fn push_padded(s: &mut String, text: &str, c: &str, width: usize)
    requires
        c@.len() == 1,
    ensures
        final(s)@ == old(s)@ + pad_left(text@, c@[0], width as nat),
{
    let len = text.unicode_len();
    if len < width {
        push_repeated(s, c, width - len);
    }
    s.append(text);
    assert(s@ =~= old(s)@ + pad_left(text@, c@[0], width as nat));
}

/// The name of the volume with the given index: the index in decimal,
/// padded with zeros to `width` digits.
pub fn volume_name(index: u64, width: u8) -> (r: String)
    ensures
        r@ == volume_name_of(index as nat, width as nat),
{
    let mut digits = String::new();
    push_decimal(&mut digits, index);
    assert(digits@ =~= decimal(index as nat));
    let mut r = String::new();
    proof { reveal_strlit("0"); }
    push_padded(&mut r, digits.as_str(), "0", width as usize);
    assert(r@ =~= volume_name_of(index as nat, width as nat));
    r
}

/// The path of a volume: the output prefix followed by the volume's name.
pub fn target_path(prefix: &str, index: u64, width: u8) -> (r: String)
    ensures
        r@ == prefix@ + volume_name_of(index as nat, width as nat),
{
    let mut r = String::from_str(prefix);
    let name = volume_name(index, width);
    r.append(name.as_str());
    r
}

} // verus!
