use vstd::prelude::*;

verus! {

/// The character of a digit value below 16: '0'..'9', then 'a'..'f'.
pub open spec fn digit_char(d: nat) -> char {
    if d < 10 {
        (48 + d) as char
    } else {
        (87 + d) as char
    }
}

/// The decimal digits of `n`, most significant first, without leading zeros ("0" for zero).
pub open spec fn dec_text(n: nat) -> Seq<char>
    decreases n,
{
    if n < 10 {
        seq![digit_char(n)]
    } else {
        dec_text(n / 10).push(digit_char(n % 10))
    }
}

/// The lower-case hexadecimal digits of `n`, most significant first, without leading zeros
/// ("0" for zero).
pub open spec fn hex_text(n: nat) -> Seq<char>
    decreases n,
{
    if n < 16 {
        seq![digit_char(n)]
    } else {
        hex_text(n / 16).push(digit_char(n % 16))
    }
}

/// `s` preceded by as many '0' characters as make it `width` long (unchanged if it is).
pub open spec fn zero_pad(s: Seq<char>, width: nat) -> Seq<char> {
    if s.len() >= width {
        s
    } else {
        Seq::new((width - s.len()) as nat, |i: int| '0') + s
    }
}

/// The decimal digits of `n` in groups of three separated by commas ("131,072").
pub open spec fn grouped_text(n: nat) -> Seq<char>
    decreases n,
{
    if n < 1000 {
        dec_text(n)
    } else {
        grouped_text(n / 1000) + ","@ + zero_pad(dec_text(n % 1000), 3)
    }
}

fn digit(d: u64) -> (c: char)
    requires
        d < 10,
    ensures
        c == digit_char(d as nat),
{
    let b: u8 = 48 + d as u8;
    b as char
}

/// Appends the decimal digits of `n`.
fn push_decimal(n: u64, out: &mut Vec<char>)
    ensures
        final(out)@ == old(out)@ + dec_text(n as nat),
    decreases n,
{
    if n >= 10 {
        push_decimal(n / 10, out);
    }
    out.push(digit(n % 10));
    proof {
        if n >= 10 {
            assert(dec_text(n as nat) == dec_text((n / 10) as nat).push(digit_char((n % 10) as nat)));
        }
    }
}

proof fn lemma_dec_text_short(n: nat)
    requires
        n < 1000,
    ensures
        n < 10 ==> dec_text(n).len() == 1,
        10 <= n < 100 ==> dec_text(n).len() == 2,
        100 <= n ==> dec_text(n).len() == 3,
{
    if n >= 10 {
        assert(dec_text(n) == dec_text(n / 10).push(digit_char(n % 10)));
        if n >= 100 {
            assert(dec_text(n / 10) == dec_text(n / 100).push(digit_char((n / 10) % 10)));
        }
    }
}

/// Appends the digits of `n` (below 1000) padded with zeros to three.
fn push_three_digits(n: u64, out: &mut Vec<char>)
    requires
        n < 1000,
    ensures
        final(out)@ == old(out)@ + zero_pad(dec_text(n as nat), 3),
{
    proof {
        lemma_dec_text_short(n as nat);
    }
    let ghost start = out@;
    if n < 10 {
        out.push('0');
        out.push('0');
    } else if n < 100 {
        out.push('0');
    }
    let ghost zeros = out@.subrange(start.len() as int, out@.len() as int);
    push_decimal(n, out);
    proof {
        let pad = zero_pad(dec_text(n as nat), 3);
        assert(zeros =~= Seq::new((3 - dec_text(n as nat).len()) as nat, |i: int| '0'));
        assert(out@ =~= start + pad);
    }
}

/// Appends `n` in groups of three digits separated by commas.
fn push_grouped(n: u64, out: &mut Vec<char>)
    ensures
        final(out)@ == old(out)@ + grouped_text(n as nat),
    decreases n,
{
    if n < 1000 {
        push_decimal(n, out);
    } else {
        let ghost start = out@;
        push_grouped(n / 1000, out);
        out.push(',');
        push_three_digits(n % 1000, out);
        proof {
            reveal_strlit(",");
            assert(","@ =~= seq![',']);
            assert(grouped_text(n as nat) == grouped_text((n / 1000) as nat) + ","@ + zero_pad(
                dec_text((n % 1000) as nat),
                3,
            ));
        }
        assert(out@ =~= start + grouped_text(n as nat));
    }
}

/// `n` in decimal with its digits grouped by three with commas, as sizes are shown.
pub fn grouped_decimal(n: u64) -> (s: String)
    ensures
        s@ == grouped_text(n as nat),
{
    let mut chars: Vec<char> = Vec::new();
    push_grouped(n, &mut chars);
    assert(chars@ =~= grouped_text(n as nat));
    string_from_chars(&chars)
}

/// Collects characters into a `String` (`String: FromIterator<char>`), which holds exactly
/// those characters in order.
#[verifier::external_body]
pub(crate) fn string_from_chars(chars: &Vec<char>) -> (s: String)
    ensures
        s@ == chars@,
{
    chars.iter().collect()
}

} // verus!
