//! Parsing object identifiers given on the command line: 40 lowercase hex
//! digits naming a 20-byte hash.

use vstd::prelude::*;

verus! {

/// Is the byte a lowercase hexadecimal digit?
pub open spec fn is_hex_digit(b: u8) -> bool {
    (48 <= b && b <= 57) || (97 <= b && b <= 102)
}

/// The value of a lowercase hexadecimal digit.
pub open spec fn hex_val(b: u8) -> u8
    recommends
        is_hex_digit(b),
{
    if 48 <= b && b <= 57 {
        (b - 48) as u8
    } else if 97 <= b && b <= 102 {
        (b - 87) as u8
    } else {
        0
    }
}

/// A well-formed textual object identifier: 40 lowercase hex digits.
pub open spec fn is_valid_oid_hex(s: Seq<u8>) -> bool {
    s.len() == 40 && forall|i: int| 0 <= i < s.len() ==> is_hex_digit(#[trigger] s[i])
}

/// The decoded bytes: each pair of digits gives one byte, high digit first.
pub open spec fn decoded_byte(s: Seq<u8>, i: int) -> u8
    recommends
        0 <= 2 * i + 1 < s.len(),
{
    (hex_val(s[2 * i]) * 16 + hex_val(s[2 * i + 1])) as u8
}

/// Parse a textual object identifier. The answer is the 20 decoded bytes
/// exactly when the text is 40 lowercase hex digits, and nothing otherwise.
pub fn parse_oid_hex(s: &Vec<u8>) -> (r: Option<Vec<u8>>)
    ensures
        r is Some <==> is_valid_oid_hex(s@),
        r matches Some(v) ==> v@.len() == 20 && forall|i: int|
            0 <= i < 20 ==> v@[i] == decoded_byte(s@, i),
{
    if s.len() != 40 {
        return None;
    }
    let mut out: Vec<u8> = Vec::new();
    let mut i: usize = 0;
    while i < 20
        invariant
            i <= 20,
            s@.len() == 40,
            out@.len() == i,
            forall|j: int| 0 <= j < 2 * i ==> is_hex_digit(#[trigger] s@[j]),
            forall|j: int| 0 <= j < i ==> out@[j] == decoded_byte(s@, j),
        decreases 20 - i,
    {
        let hi = s[2 * i];
        let lo = s[2 * i + 1];
        let hv = if 48 <= hi && hi <= 57 {
            hi - 48
        } else if 97 <= hi && hi <= 102 {
            hi - 87
        } else {
            proof {
                assert(!is_hex_digit(s@[2 * i as int]));
            }
            return None;
        };
        let lv = if 48 <= lo && lo <= 57 {
            lo - 48
        } else if 97 <= lo && lo <= 102 {
            lo - 87
        } else {
            proof {
                assert(!is_hex_digit(s@[2 * i as int + 1]));
            }
            return None;
        };
        out.push(hv * 16 + lv);
        i += 1;
    }
    proof {
        assert forall|j: int| 0 <= j < s@.len() implies is_hex_digit(#[trigger] s@[j]) by {}
    }
    Some(out)
}

} // verus!
