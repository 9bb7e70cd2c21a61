//! Plain-text rendering helpers for task descriptions: decimal numbers and
//! log-safe escaping of raw key bytes. No I/O is performed here.

use vstd::prelude::*;

verus! {

/// The decimal digit character for `d`.
pub open spec fn digit_char(d: nat) -> char {
    if d == 0 {
        '0'
    } else if d == 1 {
        '1'
    } else if d == 2 {
        '2'
    } else if d == 3 {
        '3'
    } else if d == 4 {
        '4'
    } else if d == 5 {
        '5'
    } else if d == 6 {
        '6'
    } else if d == 7 {
        '7'
    } else if d == 8 {
        '8'
    } else {
        '9'
    }
}

/// The decimal rendering of `n`, most significant digit first, no leading
/// zeros except for zero itself.
pub open spec fn dec_of(n: nat) -> Seq<char>
    decreases n,
{
    if n < 10 {
        seq![digit_char(n)]
    } else {
        dec_of(n / 10).push(digit_char(n % 10))
    }
}

/// The single-character string for a decimal digit.
fn digit_str(d: u64) -> (s: String)
    requires
        d < 10,
    ensures
        s@ == seq![digit_char(d as nat)],
{
    proof {
        reveal_strlit("0");
        reveal_strlit("1");
        reveal_strlit("2");
        reveal_strlit("3");
        reveal_strlit("4");
        reveal_strlit("5");
        reveal_strlit("6");
        reveal_strlit("7");
        reveal_strlit("8");
        reveal_strlit("9");
    }
    let r = match d {
        0 => String::from_str("0"),
        1 => String::from_str("1"),
        2 => String::from_str("2"),
        3 => String::from_str("3"),
        4 => String::from_str("4"),
        5 => String::from_str("5"),
        6 => String::from_str("6"),
        7 => String::from_str("7"),
        _ => String::from_str("9"),
    };
    let r = if d == 8 {
        String::from_str("8")
    } else {
        r
    };
    proof {
        assert(r@ =~= seq![digit_char(d as nat)]);
    }
    r
}

/// Renders `n` in decimal.
pub fn u64_to_dec(n: u64) -> (s: String)
    ensures
        s@ == dec_of(n as nat),
    decreases n,
{
    if n < 10 {
        digit_str(n)
    } else {
        let q = n / 10;
        let r = n % 10;
        let head = u64_to_dec(q);
        let tail = digit_str(r);
        let out = head.concat(tail.as_str());
        proof {
            assert(out@ =~= dec_of((n / 10) as nat).push(digit_char((n % 10) as nat)));
        }
        out
    }
}

/// How one byte is shown in a description: common control characters by
/// their usual escapes, printable characters as themselves, everything else
/// as a backslash followed by three octal digits.
pub open spec fn escape_byte_of(c: u8) -> Seq<char> {
    if c == 0x0a {
        seq!['\\', 'n']
    } else if c == 0x0d {
        seq!['\\', 'r']
    } else if c == 0x09 {
        seq!['\\', 't']
    } else if c == 0x22 {
        seq!['\\', '"']
    } else if c == 0x5c {
        seq!['\\', '\\']
    } else if 0x20 <= c && c < 0x7f {
        seq![c as char]
    } else {
        seq!['\\', digit_char((c / 64) as nat), digit_char(((c / 8) % 8) as nat), digit_char(
            (c % 8) as nat,
        )]
    }
}

/// The log-safe rendering of a byte string, byte by byte.
pub open spec fn escape_of(s: Seq<u8>) -> Seq<char>
    decreases s.len(),
{
    if s.len() == 0 {
        Seq::empty()
    } else {
        escape_of(s.drop_last()) + escape_byte_of(s.last())
    }
}

/// Relies on `char::to_string` (via `ToString`): the returned string holds
/// exactly the one character it was called on.
#[verifier::external_body]
fn ascii_char_string(c: u8) -> (r: String)
    requires
        0x20 <= c < 0x7f,
    ensures
        r@ == seq![c as char],
{
    (c as char).to_string()
}

/// The rendering of one byte, as [`escape_byte_of`] says.
fn escape_byte(c: u8) -> (s: String)
    ensures
        s@ == escape_byte_of(c),
{
    proof {
        reveal_strlit("\\n");
        reveal_strlit("\\r");
        reveal_strlit("\\t");
        reveal_strlit("\\\"");
        reveal_strlit("\\\\");
        reveal_strlit("\\");
    }
    if c == 0x0a {
        let r = String::from_str("\\n");
        proof {
            assert(r@ =~= escape_byte_of(c));
        }
        r
    } else if c == 0x0d {
        let r = String::from_str("\\r");
        proof {
            assert(r@ =~= escape_byte_of(c));
        }
        r
    } else if c == 0x09 {
        let r = String::from_str("\\t");
        proof {
            assert(r@ =~= escape_byte_of(c));
        }
        r
    } else if c == 0x22 {
        let r = String::from_str("\\\"");
        proof {
            assert(r@ =~= escape_byte_of(c));
        }
        r
    } else if c == 0x5c {
        let r = String::from_str("\\\\");
        proof {
            assert(r@ =~= escape_byte_of(c));
        }
        r
    } else if 0x20 <= c && c < 0x7f {
        let r = ascii_char_string(c);
        proof {
            assert(r@ =~= escape_byte_of(c));
        }
        r
    } else {
        let d1 = digit_str((c / 64) as u64);
        let d2 = digit_str(((c / 8) % 8) as u64);
        let d3 = digit_str((c % 8) as u64);
        let mut r = String::from_str("\\");
        r.append(d1.as_str());
        r.append(d2.as_str());
        r.append(d3.as_str());
        proof {
            assert(r@ =~= escape_byte_of(c));
        }
        r
    }
}

/// Renders raw key bytes for human-readable diagnostics.
pub fn escape(data: &Vec<u8>) -> (s: String)
    ensures
        s@ == escape_of(data@),
{
    let n = data.len();
    let mut out = String::new();
    let mut i: usize = 0;
    while i < n
        invariant
            i <= n,
            n == data.len(),
            out@ == escape_of(data@.take(i as int)),
        decreases n - i,
    {
        let piece = escape_byte(data[i]);
        out.append(piece.as_str());
        proof {
            assert(data@.take(i + 1).drop_last() =~= data@.take(i as int));
            assert(data@.take(i + 1).last() == data@[i as int]);
        }
        i = i + 1;
    }
    proof {
        assert(data@.take(n as int) =~= data@);
    }
    out
}

} // verus!
