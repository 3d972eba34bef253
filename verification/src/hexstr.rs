//! Lowercase hexadecimal text for byte strings: the display form of scripts
//! and serialized transactions, and the form in which a preimage is supplied.
//! Decoding accepts both letter cases; encoding emits lowercase.

use vstd::prelude::*;

use crate::errors::Error;

verus! {

/// The lowercase hex character for one value below sixteen.
pub open spec fn spec_hex_digit_char(v: int) -> char
    recommends
        0 <= v < 16,
{
    if v == 0 {
        '0'
    } else if v == 1 {
        '1'
    } else if v == 2 {
        '2'
    } else if v == 3 {
        '3'
    } else if v == 4 {
        '4'
    } else if v == 5 {
        '5'
    } else if v == 6 {
        '6'
    } else if v == 7 {
        '7'
    } else if v == 8 {
        '8'
    } else if v == 9 {
        '9'
    } else if v == 10 {
        'a'
    } else if v == 11 {
        'b'
    } else if v == 12 {
        'c'
    } else if v == 13 {
        'd'
    } else if v == 14 {
        'e'
    } else {
        'f'
    }
}

/// The hex rendering of a byte string: two digits per byte, high nibble first.
pub open spec fn spec_to_hex(b: Seq<u8>) -> Seq<char> {
    Seq::new(
        2 * b.len(),
        |i: int|
            if i % 2 == 0 {
                spec_hex_digit_char(b[i / 2] as int / 16)
            } else {
                spec_hex_digit_char(b[i / 2] as int % 16)
            },
    )
}

/// Whether one character is a hex digit, either case.
pub open spec fn spec_is_hex_digit(c: char) -> bool {
    let v = c as int;
    (48 <= v <= 57) || (97 <= v <= 102) || (65 <= v <= 70)
}

/// The value of one hex digit character.
pub open spec fn spec_hex_val(c: char) -> int
    recommends
        spec_is_hex_digit(c),
{
    let v = c as int;
    if 48 <= v <= 57 {
        v - 48
    } else if 97 <= v <= 102 {
        v - 87
    } else if 65 <= v <= 70 {
        v - 55
    } else {
        0
    }
}

/// Whether a character string is well-formed hex: even length, digits only.
pub open spec fn spec_valid_hex(s: Seq<char>) -> bool {
    &&& s.len() % 2 == 0
    &&& forall|i: int| 0 <= i < s.len() ==> spec_is_hex_digit(#[trigger] s[i])
}

/// The bytes a well-formed hex string denotes.
pub open spec fn spec_hex_bytes(s: Seq<char>) -> Seq<u8>
    recommends
        spec_valid_hex(s),
{
    Seq::new(s.len() / 2, |i: int| (16 * spec_hex_val(s[2 * i]) + spec_hex_val(s[2 * i + 1])) as u8)
}

/// A one-character string slice holding the hex digit for `v`.
fn hex_digit_str(v: u8) -> (r: &'static str)
    requires
        v < 16,
    ensures
        r@ =~= seq![spec_hex_digit_char(v as int)],
{
    proof {
        reveal_strlit("0");
        reveal_strlit("1");
        reveal_strlit("2");
        reveal_strlit("3");
        reveal_strlit("4");
        reveal_strlit("5");
        reveal_strlit("6");
        reveal_strlit("7");
        reveal_strlit("8");
        reveal_strlit("9");
        reveal_strlit("a");
        reveal_strlit("b");
        reveal_strlit("c");
        reveal_strlit("d");
        reveal_strlit("e");
        reveal_strlit("f");
    }
    match v {
        0 => "0",
        1 => "1",
        2 => "2",
        3 => "3",
        4 => "4",
        5 => "5",
        6 => "6",
        7 => "7",
        8 => "8",
        9 => "9",
        10 => "a",
        11 => "b",
        12 => "c",
        13 => "d",
        14 => "e",
        _ => "f",
    }
}

/// Renders a byte string as lowercase hex, two digits per byte.
pub fn bytes_to_hex(b: &Vec<u8>) -> (r: String)
    ensures
        r@ == spec_to_hex(b@),
{
    let mut out = String::new();
    let mut i: usize = 0;
    while i < b.len()
        invariant
            i <= b.len(),
            out@ =~= spec_to_hex(b@).take(2 * i as int),
        decreases b.len() - i,
    {
        let hi: u8 = b[i] / 16;
        let lo: u8 = b[i] % 16;
        out.append(hex_digit_str(hi));
        out.append(hex_digit_str(lo));
        proof {
            assert(out@ =~= spec_to_hex(b@).take(2 * (i + 1) as int));
        }
        i = i + 1;
    }
    proof {
        assert(spec_to_hex(b@).take(2 * b@.len() as int) =~= spec_to_hex(b@));
    }
    out
}

/// Decodes a hex string to bytes; rejects odd lengths and non-digit
/// characters with `InvalidHexEncoding`, and accepts both letter cases.
pub fn hex_to_bytes(s: &str) -> (r: Result<Vec<u8>, Error>)
    ensures
        r matches Ok(v) ==> spec_valid_hex(s@) && v@ == spec_hex_bytes(s@),
        r matches Err(e) ==> !spec_valid_hex(s@) && e == Error::InvalidHexEncoding,
{
    if !s.is_ascii() {
        proof {
            let k = choose|k: int| !(0 <= k < s@.len() ==> '\0' <= #[trigger] s@[k] <= '\u{7f}');
            assert(!spec_is_hex_digit(s@[k]));
        }
        return Err(Error::InvalidHexEncoding);
    }
    proof {
        vstd::string::is_ascii_spec_bytes(s);
    }
    let bs: &[u8] = s.as_bytes();
    let n: usize = bs.len();
    proof {
        assert(bs@.len() == s@.len());
    }
    if n % 2 != 0 {
        return Err(Error::InvalidHexEncoding);
    }
    let mut out: Vec<u8> = Vec::new();
    let half: usize = n / 2;
    let mut i: usize = 0;
    while i < half
        invariant
            i <= half,
            half == s@.len() / 2,
            s@.len() % 2 == 0,
            2 * half == s@.len(),
            bs@.len() == s@.len(),
            bs@.len() <= usize::MAX,
            forall|j: int| 0 <= j < s@.len() ==> bs@[j] == #[trigger] s@[j] as u8,
            forall|j: int| 0 <= j < s@.len() ==> '\0' <= #[trigger] s@[j] <= '\u{7f}',
            forall|j: int| 0 <= j < 2 * i ==> spec_is_hex_digit(#[trigger] s@[j]),
            out@.len() == i,
            forall|j: int|
                0 <= j < i ==> #[trigger] out@[j] == (16 * spec_hex_val(s@[2 * j]) + spec_hex_val(
                    s@[2 * j + 1],
                )) as u8,
        decreases half - i,
    {
        let c0: u8 = bs[2 * i];
        let c1: u8 = bs[2 * i + 1];
        let v0: u8 = if 48 <= c0 && c0 <= 57 {
            c0 - 48
        } else if 97 <= c0 && c0 <= 102 {
            c0 - 87
        } else if 65 <= c0 && c0 <= 70 {
            c0 - 55
        } else {
            proof {
                assert(!spec_is_hex_digit(s@[2 * i]));
            }
            return Err(Error::InvalidHexEncoding);
        };
        let v1: u8 = if 48 <= c1 && c1 <= 57 {
            c1 - 48
        } else if 97 <= c1 && c1 <= 102 {
            c1 - 87
        } else if 65 <= c1 && c1 <= 70 {
            c1 - 55
        } else {
            proof {
                assert(!spec_is_hex_digit(s@[2 * i + 1]));
            }
            return Err(Error::InvalidHexEncoding);
        };
        out.push(16 * v0 + v1);
        i = i + 1;
    }
    proof {
        assert forall|j: int| 0 <= j < s@.len() implies spec_is_hex_digit(#[trigger] s@[j]) by {
            assert(0 <= j < 2 * half);
        }
        assert(out@ =~= spec_hex_bytes(s@));
    }
    Ok(out)
}

/// Hex rendering then decoding gives back the starting bytes: the two
/// encodings are exact inverses on every byte string.
pub proof fn lemma_hex_round_trip(b: Seq<u8>)
    ensures
        spec_valid_hex(spec_to_hex(b)),
        spec_hex_bytes(spec_to_hex(b)) =~= b,
{
    assert forall|i: int| 0 <= i < spec_to_hex(b).len() implies spec_is_hex_digit(
        #[trigger] spec_to_hex(b)[i],
    ) by {
        let v = b[i / 2] as int;
        assert(0 <= v / 16 < 16 && 0 <= v % 16 < 16);
    }
    assert forall|i: int| 0 <= i < b.len() implies spec_hex_bytes(spec_to_hex(b))[i] == b[i] by {
        let v = b[i] as int;
        assert(0 <= v / 16 < 16 && 0 <= v % 16 < 16);
        assert(spec_to_hex(b)[2 * i] == spec_hex_digit_char(v / 16));
        assert(spec_to_hex(b)[2 * i + 1] == spec_hex_digit_char(v % 16));
        assert(spec_hex_val(spec_hex_digit_char(v / 16)) == v / 16);
        assert(spec_hex_val(spec_hex_digit_char(v % 16)) == v % 16);
        assert(16 * (v / 16) + v % 16 == v) by {
            vstd::arithmetic::div_mod::lemma_fundamental_div_mod(v, 16);
        }
    }
}

} // verus!
