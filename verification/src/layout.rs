//! Widths in bytes, filling up with spaces, and numbers written out.

use vstd::prelude::*;
use vstd::utf8::encode_utf8;

verus! {

/// The number of bytes that `s` takes in UTF-8.
pub open spec fn byte_len(s: Seq<char>) -> nat {
    encode_utf8(s).len()
}

/// The bytes of a text are those of its parts.
pub proof fn lemma_byte_len_concat(a: Seq<char>, b: Seq<char>)
    ensures
        byte_len(a + b) == byte_len(a) + byte_len(b),
    decreases a.len(),
{
    if a.len() == 0 {
        assert(a + b =~= b);
    } else {
        lemma_byte_len_concat(a.drop_first(), b);
        assert((a + b).drop_first() =~= a.drop_first() + b);
    }
}

/// A text of characters below 128 takes one byte for each.
pub proof fn lemma_byte_len_plain(s: Seq<char>)
    requires
        forall|i: int| 0 <= i < s.len() ==> (#[trigger] s[i]) as u32 <= 0x7F,
    ensures
        byte_len(s) == s.len(),
    decreases s.len(),
{
    if s.len() > 0 {
        let t = s.drop_first();
        assert forall|i: int| 0 <= i < t.len() implies (#[trigger] t[i]) as u32 <= 0x7F by {
            assert(t[i] == s[i + 1]);
        }
        lemma_byte_len_plain(t);
    }
}

/// The number of bytes that `s` takes in UTF-8.
pub fn byte_length(s: &str) -> (n: usize)
    ensures
        n == byte_len(s@),
{
    s.as_bytes().len()
}

/// `n` spaces; none where `n` is not positive.
pub open spec fn spaces(n: int) -> Seq<char> {
    Seq::new(
        if n > 0 {
            n as nat
        } else {
            0
        },
        |i: int| ' ',
    )
}

/// The spaces that fill a text of `len` bytes up to `width`.
pub open spec fn padding(width: int, len: int) -> Seq<char> {
    spaces(width - len)
}

/// A text that is filled up to a width takes that many bytes, unless it
/// takes more by itself.
pub proof fn lemma_padded_width(s: Seq<char>, width: int)
    ensures
        byte_len(s + padding(width, byte_len(s) as int)) == if width > byte_len(s) {
            width
        } else {
            byte_len(s) as int
        },
{
    let fill = padding(width, byte_len(s) as int);
    lemma_byte_len_concat(s, fill);
    lemma_byte_len_plain(fill);
}

/// Appends to `out` the spaces that fill a text of `len` bytes up to
/// `width`.
pub fn pad(out: &mut String, width: usize, len: usize)
    ensures
        final(out)@ == old(out)@ + padding(width as int, len as int),
{
    let ghost before = out@;
    let mut i: usize = len;
    assert(out@ =~= before + spaces(0));
    while i < width
        invariant
            len <= i,
            i <= width || i == len,
            out@ == before + spaces(i - len),
        decreases width - i,
    {
        out.push(' ');
        i += 1;
        assert(out@ =~= before + spaces(i - len));
    }
    assert(spaces(i - len) =~= padding(width as int, len as int));
}

/// The decimal digits that write `n`.
pub open spec fn decimal(n: nat) -> Seq<char>
    decreases n,
{
    if n < 10 {
        seq![(('0' as u32) + n) as char]
    } else {
        decimal(n / 10).push((('0' as u32) + n % 10) as char)
    }
}

/// The character of one decimal digit.
fn digit_char(d: u8) -> (c: char)
    requires
        d < 10,
    ensures
        c == (('0' as u32) + d) as char,
{
    if d == 0 {
        '0'
    } else if d == 1 {
        '1'
    } else if d == 2 {
        '2'
    } else if d == 3 {
        '3'
    } else if d == 4 {
        '4'
    } else if d == 5 {
        '5'
    } else if d == 6 {
        '6'
    } else if d == 7 {
        '7'
    } else if d == 8 {
        '8'
    } else {
        '9'
    }
}

/// Appends to `out` the decimal digits that write `n`.
pub fn append_decimal(out: &mut String, n: u8)
    ensures
        final(out)@ == old(out)@ + decimal(n as nat),
{
    let ghost before = out@;
    if n >= 100 {
        out.push(digit_char(n / 100));
        out.push(digit_char((n / 10) % 10));
        out.push(digit_char(n % 10));
        assert(decimal(n as nat) =~= seq![
            (('0' as u32) + n / 100) as char,
            (('0' as u32) + (n / 10) % 10) as char,
            (('0' as u32) + n % 10) as char,
        ]) by {
            assert(decimal((n / 100) as nat) =~= seq![(('0' as u32) + n / 100) as char]);
            assert(decimal((n / 10) as nat) =~= decimal((n / 100) as nat).push(
                (('0' as u32) + (n / 10) % 10) as char,
            ));
        }
        assert(out@ =~= before + decimal(n as nat));
    } else if n >= 10 {
        out.push(digit_char(n / 10));
        out.push(digit_char(n % 10));
        assert(decimal(n as nat) =~= seq![
            (('0' as u32) + n / 10) as char,
            (('0' as u32) + n % 10) as char,
        ]) by {
            assert(decimal((n / 10) as nat) =~= seq![(('0' as u32) + n / 10) as char]);
        }
        assert(out@ =~= before + decimal(n as nat));
    } else {
        out.push(digit_char(n));
        assert(out@ =~= before + decimal(n as nat));
    }
}

/// The digit that writes `n` in hexadecimal, in lower case.
pub open spec fn hex_digit(n: int) -> char {
    if n < 10 {
        (('0' as u32) + n) as char
    } else {
        (('a' as u32) + n - 10) as char
    }
}

/// The bytes written out in hexadecimal, two digits in lower case for each.
pub open spec fn hex_of(bytes: Seq<u8>) -> Seq<char>
    decreases bytes.len(),
{
    if bytes.len() == 0 {
        Seq::empty()
    } else {
        hex_of(bytes.drop_last()).push(hex_digit(bytes.last() as int / 16)).push(
            hex_digit(bytes.last() as int % 16),
        )
    }
}

/// Each byte is written with two digits.
pub proof fn lemma_hex_length(bytes: Seq<u8>)
    ensures
        hex_of(bytes).len() == 2 * bytes.len(),
    decreases bytes.len(),
{
    if bytes.len() > 0 {
        lemma_hex_length(bytes.drop_last());
    }
}

/// The digit that writes `n` in hexadecimal.
fn hex_char(n: u8) -> (c: char)
    requires
        n < 16,
    ensures
        c == hex_digit(n as int),
{
    if n < 10 {
        digit_char(n)
    } else if n == 10 {
        'a'
    } else if n == 11 {
        'b'
    } else if n == 12 {
        'c'
    } else if n == 13 {
        'd'
    } else if n == 14 {
        'e'
    } else {
        'f'
    }
}

/// Writes the bytes out in hexadecimal.
pub fn to_hex(bytes: &Vec<u8>) -> (hex: String)
    ensures
        hex@ == hex_of(bytes@),
{
    let mut hex = String::new();
    let mut i: usize = 0;
    assert(bytes@.take(0) =~= Seq::<u8>::empty());
    while i < bytes.len()
        invariant
            i <= bytes.len(),
            hex@ == hex_of(bytes@.take(i as int)),
        decreases bytes.len() - i,
    {
        proof {
            let next = bytes@.take(i + 1);
            assert(next.drop_last() =~= bytes@.take(i as int));
            assert(next.last() == bytes@[i as int]);
        }
        hex.push(hex_char(bytes[i] / 16));
        hex.push(hex_char(bytes[i] % 16));
        i += 1;
    }
    assert(bytes@.take(i as int) =~= bytes@);
    hex
}

} // verus!
