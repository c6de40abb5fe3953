//! The identifier codec: converts between the wire representation of a
//! document identifier (a twenty-four-digit hexadecimal string) and the
//! store's native identifier (twelve opaque bytes), validating the format.
use vstd::prelude::*;
use vstd::arithmetic::div_mod::{lemma_fundamental_div_mod, lemma_multiply_divide_lt};
use crate::GatewayError;

verus! {

/// One character of the canonical identifier encoding: a hexadecimal digit.
pub open spec fn is_hex_digit(c: char) -> bool {
    (48 <= c as u32 && c as u32 <= 57)  // '0' through '9'
    || (97 <= c as u32 && c as u32 <= 102)  // 'a' through 'f'
    || (65 <= c as u32 && c as u32 <= 70)  // 'A' through 'F'
}

/// The numeric value of a hexadecimal digit character.
pub open spec fn hex_digit_value(c: char) -> u8 {
    if 48 <= c as u32 && c as u32 <= 57 {
        (c as u32 - 48) as u8
    } else if 97 <= c as u32 && c as u32 <= 102 {
        (c as u32 - 87) as u8
    } else if 65 <= c as u32 && c as u32 <= 70 {
        (c as u32 - 55) as u8
    } else {
        0
    }
}

/// The lowercase hexadecimal digit character for a value below sixteen.
pub open spec fn hex_char_of(n: int) -> char {
    if n == 0 {
        '0'
    } else if n == 1 {
        '1'
    } else if n == 2 {
        '2'
    } else if n == 3 {
        '3'
    } else if n == 4 {
        '4'
    } else if n == 5 {
        '5'
    } else if n == 6 {
        '6'
    } else if n == 7 {
        '7'
    } else if n == 8 {
        '8'
    } else if n == 9 {
        '9'
    } else if n == 10 {
        'a'
    } else if n == 11 {
        'b'
    } else if n == 12 {
        'c'
    } else if n == 13 {
        'd'
    } else if n == 14 {
        'e'
    } else {
        'f'
    }
}

/// The canonical encoding of identifier bytes: two lowercase digits per byte.
pub open spec fn hex_of(b: Seq<u8>) -> Seq<char> {
    Seq::new(
        (2 * b.len()) as nat,
        |i: int|
            if i % 2 == 0 {
                hex_char_of(b[i / 2] as int / 16)
            } else {
                hex_char_of(b[i / 2] as int % 16)
            },
    )
}

/// Whether a string is a well-formed identifier encoding:
/// exactly twenty-four hexadecimal digits.
pub open spec fn valid_id_hex(s: Seq<char>) -> bool {
    s.len() == 24 && forall|i: int| 0 <= i < s.len() ==> is_hex_digit(#[trigger] s[i])
}

/// The bytes denoted by a well-formed identifier encoding.
pub open spec fn bytes_of_hex(s: Seq<char>) -> Seq<u8> {
    Seq::new(
        (s.len() / 2) as nat,
        |i: int| (16 * hex_digit_value(s[2 * i]) + hex_digit_value(s[2 * i + 1])) as u8,
    )
}

/// What decoding a wire identifier string yields: the denoted bytes,
/// or nothing when the string is not a well-formed encoding.
pub open spec fn spec_decode(s: Seq<char>) -> Option<Seq<u8>> {
    if valid_id_hex(s) {
        Some(bytes_of_hex(s))
    } else {
        None
    }
}

/// A store-assigned document identifier: twelve opaque bytes with a
/// canonical hexadecimal string encoding. Equality is value equality
/// on the decoded bytes.
pub struct Identifier {
    bytes: Vec<u8>,
}

impl View for Identifier {
    type V = Seq<u8>;

    closed spec fn view(&self) -> Seq<u8> {
        self.bytes@
    }
}

/// The numeric value of a hexadecimal digit in executable form.
fn hex_val_of(c: char) -> (r: Option<u8>)
    ensures
        match r {
            Some(v) => is_hex_digit(c) && v == hex_digit_value(c) && v < 16,
            None => !is_hex_digit(c),
        },
{
    let u = c as u32;
    if 48 <= u && u <= 57 {
        Some((u - 48) as u8)
    } else if 97 <= u && u <= 102 {
        Some((u - 87) as u8)
    } else if 65 <= u && u <= 70 {
        Some((u - 55) as u8)
    } else {
        None
    }
}

/// The one-character string holding the lowercase digit for a value below sixteen.
fn nibble_str(n: u8) -> (r: &'static str)
    requires
        n < 16,
    ensures
        r@.len() == 1,
        r@[0] == hex_char_of(n as int),
{
    if n == 0 {
        proof {
            reveal_strlit("0");
        }
        "0"
    } else if n == 1 {
        proof {
            reveal_strlit("1");
        }
        "1"
    } else if n == 2 {
        proof {
            reveal_strlit("2");
        }
        "2"
    } else if n == 3 {
        proof {
            reveal_strlit("3");
        }
        "3"
    } else if n == 4 {
        proof {
            reveal_strlit("4");
        }
        "4"
    } else if n == 5 {
        proof {
            reveal_strlit("5");
        }
        "5"
    } else if n == 6 {
        proof {
            reveal_strlit("6");
        }
        "6"
    } else if n == 7 {
        proof {
            reveal_strlit("7");
        }
        "7"
    } else if n == 8 {
        proof {
            reveal_strlit("8");
        }
        "8"
    } else if n == 9 {
        proof {
            reveal_strlit("9");
        }
        "9"
    } else if n == 10 {
        proof {
            reveal_strlit("a");
        }
        "a"
    } else if n == 11 {
        proof {
            reveal_strlit("b");
        }
        "b"
    } else if n == 12 {
        proof {
            reveal_strlit("c");
        }
        "c"
    } else if n == 13 {
        proof {
            reveal_strlit("d");
        }
        "d"
    } else if n == 14 {
        proof {
            reveal_strlit("e");
        }
        "e"
    } else {
        proof {
            reveal_strlit("f");
        }
        "f"
    }
}

impl Identifier {
    /// Well-formed: exactly twelve bytes.
    pub open spec fn wf(&self) -> bool {
        self@.len() == 12
    }

    /// Parses the wire encoding of an identifier. Succeeds exactly on
    /// strings of twenty-four hexadecimal digits; anything else is an
    /// invalid identifier and must never reach the store as a delete key.
    pub fn decode(raw: &str) -> (r: Result<Identifier, GatewayError>)
        ensures
            match r {
                Ok(id) => id.wf() && spec_decode(raw@) == Some(id@),
                Err(e) => e == GatewayError::InvalidIdentifier && spec_decode(raw@) is None,
            },
    {
        let n = raw.unicode_len();
        if n != 24 {
            return Err(GatewayError::InvalidIdentifier);
        }
        let mut bytes: Vec<u8> = Vec::new();
        for i in 0..12usize
            invariant
                raw@.len() == 24,
                bytes@.len() == i,
                forall|j: int| 0 <= j < 2 * i ==> is_hex_digit(#[trigger] raw@[j]),
                bytes@ =~= bytes_of_hex(raw@).subrange(0, i as int),
        {
            let c1 = raw.get_char(2 * i);
            let c2 = raw.get_char(2 * i + 1);
            let v1 = match hex_val_of(c1) {
                Some(v) => v,
                None => {
                    return Err(GatewayError::InvalidIdentifier);
                },
            };
            let v2 = match hex_val_of(c2) {
                Some(v) => v,
                None => {
                    return Err(GatewayError::InvalidIdentifier);
                },
            };
            bytes.push(16 * v1 + v2);
            proof {
                assert(bytes@ =~= bytes_of_hex(raw@).subrange(0, i + 1));
            }
        }
        proof {
            assert(valid_id_hex(raw@));
            assert(bytes@ =~= bytes_of_hex(raw@));
        }
        Ok(Identifier { bytes })
    }

    /// The canonical string encoding: two lowercase hexadecimal digits
    /// per byte, twenty-four digits in all.
    pub fn encode(&self) -> (r: String)
        requires
            self.wf(),
        ensures
            r@ == hex_of(self@),
            valid_id_hex(r@),
    {
        let mut s = String::new();
        for i in 0..12usize
            invariant
                self.wf(),
                s@ =~= hex_of(self@).subrange(0, 2 * i as int),
        {
            let b = self.bytes[i];
            let hi = b / 16;
            let lo = b % 16;
            s.append(nibble_str(hi));
            s.append(nibble_str(lo));
            proof {
                assert(s@ =~= hex_of(self@).subrange(0, 2 * (i + 1) as int));
            }
        }
        proof {
            assert(s@ =~= hex_of(self@));
            lemma_hex_of_valid(self@);
        }
        s
    }

    /// Whether two identifiers denote the same decoded value.
    pub fn same(&self, other: &Identifier) -> (r: bool)
        ensures
            r == (self@ == other@),
    {
        if self.bytes.len() != other.bytes.len() {
            return false;
        }
        for i in 0..self.bytes.len()
            invariant
                self@.len() == other@.len(),
                forall|j: int| 0 <= j < i ==> self@[j] == other@[j],
        {
            if self.bytes[i] != other.bytes[i] {
                return false;
            }
        }
        proof {
            assert(self@ =~= other@);
        }
        true
    }

    /// The store's identifier assignment: the counter value laid out in
    /// the leading bytes, so distinct counters give distinct identifiers.
    pub(crate) fn from_counter(n: u64) -> (r: Identifier)
        ensures
            r.wf(),
            counter_of_id(r@) == n as nat,
    {
        let mut bytes: Vec<u8> = Vec::new();
        let mut m: u64 = n;
        for i in 0..8usize
            invariant
                bytes@.len() == i,
                bytes@ + le_bytes(m as nat, (8 - i) as nat) =~= le_bytes(n as nat, 8),
        {
            let ghost m0 = m as nat;
            let b = (m % 256) as u8;
            bytes.push(b);
            m = m / 256;
            proof {
                assert(le_bytes(m0, (8 - i) as nat) =~= seq![(m0 % 256) as u8] + le_bytes(
                    m0 / 256,
                    (8 - (i + 1)) as nat,
                ));
                assert(bytes@ + le_bytes(m as nat, (8 - (i + 1)) as nat) =~= le_bytes(
                    n as nat,
                    8,
                ));
            }
        }
        bytes.push(0);
        bytes.push(0);
        bytes.push(0);
        bytes.push(0);
        proof {
            assert(bytes@.subrange(0, 8) =~= le_bytes(n as nat, 8));
            assert(pow256(8) == 0x1_0000_0000_0000_0000) by {
                reveal_with_fuel(pow256, 9);
            }
            lemma_le_round_trip(n as nat, 8);
        }
        Identifier { bytes }
    }
}

/// Little-endian bytes of a counter value over a fixed width.
pub open spec fn le_bytes(n: nat, k: nat) -> Seq<u8>
    decreases k,
{
    if k == 0 {
        Seq::empty()
    } else {
        seq![(n % 256) as u8] + le_bytes(n / 256, (k - 1) as nat)
    }
}

/// The counter value denoted by little-endian bytes.
pub open spec fn le_value(b: Seq<u8>) -> nat
    decreases b.len(),
{
    if b.len() == 0 {
        0
    } else {
        (b[0] + 256 * le_value(b.drop_first())) as nat
    }
}

/// The counter a store-assigned identifier was derived from.
pub open spec fn counter_of_id(b: Seq<u8>) -> nat {
    le_value(b.subrange(0, 8))
}

/// Powers of two hundred and fifty-six.
pub open spec fn pow256(k: nat) -> nat
    decreases k,
{
    if k == 0 {
        1
    } else {
        256 * pow256((k - 1) as nat)
    }
}

/// Laying a counter out in bytes and reading it back yields the counter,
/// as long as the counter fits in the width.
proof fn lemma_le_round_trip(n: nat, k: nat)
    requires
        n < pow256(k),
    ensures
        le_value(le_bytes(n, k)) == n,
    decreases k,
{
    if k == 0 {
    } else {
        let tail = le_bytes(n / 256, (k - 1) as nat);
        assert(le_bytes(n, k).drop_first() =~= tail);
        assert(n / 256 < pow256((k - 1) as nat)) by {
            lemma_multiply_divide_lt(n as int, 256, pow256((k - 1) as nat) as int);
        }
        lemma_le_round_trip(n / 256, (k - 1) as nat);
        lemma_fundamental_div_mod(n as int, 256);
    }
}

/// Each value below sixteen encodes to a hexadecimal digit character
/// whose numeric value is that value again.
proof fn lemma_hex_digit_inverse(n: int)
    requires
        0 <= n < 16,
    ensures
        is_hex_digit(hex_char_of(n)),
        hex_digit_value(hex_char_of(n)) == n,
{
}

/// The canonical encoding of any byte sequence of identifier length is a
/// well-formed identifier string.
proof fn lemma_hex_of_valid(b: Seq<u8>)
    requires
        b.len() == 12,
    ensures
        valid_id_hex(hex_of(b)),
{
    let s = hex_of(b);
    assert forall|i: int| 0 <= i < s.len() implies is_hex_digit(#[trigger] s[i]) by {
        let k = i / 2;
        assert(0 <= k < 12);
        if i % 2 == 0 {
            lemma_hex_digit_inverse(b[k] as int / 16);
        } else {
            lemma_hex_digit_inverse(b[k] as int % 16);
        }
    }
}

/// Round trip: every identifier value the store can produce decodes from
/// its own encoding, `decode(encode(i)) == i` on the decoded bytes.
pub proof fn lemma_identifier_round_trip(b: Seq<u8>)
    requires
        b.len() == 12,
    ensures
        spec_decode(hex_of(b)) == Some(b),
{
    let s = hex_of(b);
    lemma_hex_of_valid(b);
    assert forall|i: int| 0 <= i < 12 implies bytes_of_hex(s)[i] == b[i] by {
        lemma_hex_digit_inverse(b[i] as int / 16);
        lemma_hex_digit_inverse(b[i] as int % 16);
        lemma_fundamental_div_mod(b[i] as int, 16);
    }
    assert(bytes_of_hex(s) =~= b);
}

} // verus!
