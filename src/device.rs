use vstd::prelude::*;
use vstd::string::{StrSliceExecFns, StringExecFns};

use crate::crc::{crc8, crc8_feed};

verus! {

/// Number of bytes in a ROM address.
pub const ADDRESS_BYTES: u8 = 8;

/// Number of bits in a ROM address.
pub const ADDRESS_BITS: u8 = 64;

/// Length of the text form `xx:xx:xx:xx:xx:xx:xx:xx` of an address.
pub const ADDRESS_TEXT_LEN: usize = 23;

/// A device on the bus, named by its 8-byte ROM address: the family code,
/// six bytes of serial number and the CRC-8 of those seven bytes.
#[derive(Debug, Clone, Copy, PartialEq, Eq, PartialOrd)]
pub struct Device {
    pub address: [u8; 8],
}

/// The text of an address is not eight lowercase hex pairs joined by colons.
#[derive(Debug, Clone, Copy, PartialEq, Eq)]
pub struct MalformedAddress;

/// The lowercase hex digit for `n < 16`.
pub open spec fn hex_char(n: u8) -> char {
    if n < 10 {
        (n + 48) as char
    } else {
        (n + 87) as char
    }
}

/// The value of a lowercase hex digit, if `c` is one.
pub open spec fn hex_value(c: char) -> Option<u8> {
    if '0' <= c && c <= '9' {
        Some((c as u32 - 48) as u8)
    } else if 'a' <= c && c <= 'f' {
        Some((c as u32 - 87) as u8)
    } else {
        None
    }
}

/// The canonical text of an address: two lowercase hex digits per byte,
/// most significant digit first, bytes in address order, separated by colons.
pub open spec fn address_text(a: Seq<u8>) -> Seq<char> {
    Seq::new(
        23,
        |i: int|
            if i % 3 == 2 {
                ':'
            } else if i % 3 == 0 {
                hex_char(a[i / 3] / 16)
            } else {
                hex_char(a[i / 3] % 16)
            },
    )
}

/// `s` is the canonical text of some address.
pub open spec fn is_address_text(s: Seq<char>) -> bool {
    &&& s.len() == 23
    &&& forall|i: int| 0 <= i < 23 && i % 3 == 2 ==> s[i] == ':'
    &&& forall|i: int| 0 <= i < 23 && i % 3 != 2 ==> hex_value(s[i]) is Some
}

/// The address that a canonical text names.
pub open spec fn text_address(s: Seq<char>) -> Seq<u8> {
    Seq::new(
        8,
        |g: int| (hex_value(s[3 * g])->0 * 16 + hex_value(s[3 * g + 1])->0) as u8,
    )
}

proof fn lemma_hex_char_value(n: u8)
    requires
        n < 16,
    ensures
        hex_value(hex_char(n)) == Some(n),
{
}

proof fn lemma_hex_value_char(c: char)
    requires
        hex_value(c) is Some,
    ensures
        hex_value(c)->0 < 16,
        hex_char(hex_value(c)->0) == c,
{
}

/// Formatting an address and reading the text back gives the address.
pub proof fn lemma_address_text_round_trip(a: Seq<u8>)
    requires
        a.len() == 8,
    ensures
        is_address_text(address_text(a)),
        text_address(address_text(a)) == a,
{
    let s = address_text(a);
    assert forall|i: int| 0 <= i < 23 && i % 3 != 2 implies hex_value(s[i]) is Some by {
        lemma_hex_char_value(a[i / 3] / 16);
        lemma_hex_char_value(a[i / 3] % 16);
    }
    assert forall|g: int| 0 <= g < 8 implies text_address(s)[g] == a[g] by {
        assert((3 * g) / 3 == g && (3 * g) % 3 == 0);
        assert((3 * g + 1) / 3 == g && (3 * g + 1) % 3 == 1);
        lemma_hex_char_value(a[g] / 16);
        lemma_hex_char_value(a[g] % 16);
    }
    assert(text_address(s) =~= a);
}

/// Reading a canonical text and formatting the address gives the text back.
pub proof fn lemma_text_address_round_trip(s: Seq<char>)
    requires
        is_address_text(s),
    ensures
        address_text(text_address(s)) == s,
{
    let a = text_address(s);
    assert forall|i: int| 0 <= i < 23 implies address_text(a)[i] == s[i] by {
        let g = i / 3;
        assert(0 <= g < 8);
        assert(3 * g + i % 3 == i);
        if i % 3 != 2 {
            let hi = s[3 * g];
            let lo = s[3 * g + 1];
            assert((3 * g) % 3 == 0 && (3 * g + 1) % 3 == 1);
            lemma_hex_value_char(hi);
            lemma_hex_value_char(lo);
            let h = hex_value(hi)->0;
            let l = hex_value(lo)->0;
            assert(a[g] == (h * 16 + l) as u8);
            assert((h * 16 + l) / 16 == h && (h * 16 + l) % 16 == l) by (nonlinear_arith)
                requires
                    h < 16,
                    l < 16,
            ;
        }
    }
    assert(address_text(a) =~= s);
}

/// An address whose last byte was generated as the CRC-8 of the seven
/// before it passes the address check.
pub proof fn lemma_generated_address_valid(prefix: Seq<u8>)
    requires
        prefix.len() == 7,
    ensures
        crc8(prefix.push(crc8(prefix)).take(7)) == prefix.push(crc8(prefix))[7],
{
    assert(prefix.push(crc8(prefix)).take(7) =~= prefix);
}

/// The hex digit of `n < 16` as text.
fn hex_digit_text(n: u8) -> (r: &'static str)
    requires
        n < 16,
    ensures
        r@ == seq![hex_char(n)],
{
    proof {
        reveal_strlit("0");
        reveal_strlit("1");
        reveal_strlit("2");
        reveal_strlit("3");
        reveal_strlit("4");
        reveal_strlit("5");
        reveal_strlit("6");
        reveal_strlit("7");
        reveal_strlit("8");
        reveal_strlit("9");
        reveal_strlit("a");
        reveal_strlit("b");
        reveal_strlit("c");
        reveal_strlit("d");
        reveal_strlit("e");
        reveal_strlit("f");
    }
    let r = if n == 0 {
        "0"
    } else if n == 1 {
        "1"
    } else if n == 2 {
        "2"
    } else if n == 3 {
        "3"
    } else if n == 4 {
        "4"
    } else if n == 5 {
        "5"
    } else if n == 6 {
        "6"
    } else if n == 7 {
        "7"
    } else if n == 8 {
        "8"
    } else if n == 9 {
        "9"
    } else if n == 10 {
        "a"
    } else if n == 11 {
        "b"
    } else if n == 12 {
        "c"
    } else if n == 13 {
        "d"
    } else if n == 14 {
        "e"
    } else {
        "f"
    };
    assert(r@ =~= seq![hex_char(n)]);
    r
}

/// The value of a lowercase hex digit.
fn hex_digit_value(c: char) -> (r: Option<u8>)
    ensures
        r == hex_value(c),
{
    if '0' <= c && c <= '9' {
        Some((c as u32 - 48) as u8)
    } else if 'a' <= c && c <= 'f' {
        Some((c as u32 - 87) as u8)
    } else {
        None
    }
}

impl Device {
    /// The family code, the first byte of the address.
    pub fn family_code(&self) -> (r: u8)
        ensures
            r == self.address@[0],
    {
        self.address[0]
    }

    /// The CRC-8 of the first seven address bytes, which the last byte
    /// should repeat.
    pub fn address_crc(&self) -> (r: u8)
        ensures
            r == crc8(self.address@.take(7)),
    {
        let mut acc: u8 = 0;
        let mut i: usize = 0;
        while i < 7
            invariant
                i <= 7,
                self.address@.len() == 8,
                acc == crc8(self.address@.take(i as int)),
            decreases 7 - i,
        {
            assert(self.address@.take(i + 1).drop_last() =~= self.address@.take(i as int));
            acc = crc8_feed(acc, self.address[i]);
            i = i + 1;
        }
        acc
    }

    /// Whether the last address byte is the CRC-8 of the seven before it.
    pub fn has_valid_crc(&self) -> (r: bool)
        ensures
            r == (crc8(self.address@.take(7)) == self.address@[7]),
    {
        self.address_crc() == self.address[7]
    }

    /// Reads the canonical text `xx:xx:xx:xx:xx:xx:xx:xx` of an address
    /// (lowercase hex); any other text is refused.
    pub fn parse(s: &str) -> (r: Result<Device, MalformedAddress>)
        ensures
            r is Ok <==> is_address_text(s@),
            r matches Ok(d) ==> d.address@ == text_address(s@),
    {
        let n = s.unicode_len();
        if n != ADDRESS_TEXT_LEN {
            return Err(MalformedAddress);
        }
        let mut address: [u8; 8] = [0u8; 8];
        let mut g: usize = 0;
        while g < 8
            invariant
                g <= 8,
                s@.len() == 23,
                forall|i: int| 0 <= i < 3 * g && i < 23 && i % 3 == 2 ==> s@[i] == ':',
                forall|i: int| 0 <= i < 3 * g && i < 23 && i % 3 != 2 ==> hex_value(s@[i]) is Some,
                forall|k: int| 0 <= k < g ==> address@[k] == text_address(s@)[k],
            decreases 8 - g,
        {
            let hi = match hex_digit_value(s.get_char(3 * g)) {
                Some(v) => v,
                None => return Err(MalformedAddress),
            };
            let lo = match hex_digit_value(s.get_char(3 * g + 1)) {
                Some(v) => v,
                None => return Err(MalformedAddress),
            };
            if g < 7 && s.get_char(3 * g + 2) != ':' {
                return Err(MalformedAddress);
            }
            address[g] = hi * 16 + lo;
            proof {
                assert forall|i: int| 0 <= i < 3 * (g + 1) && i < 23 && i % 3 == 2 implies s@[i] == ':' by {
                    if i >= 3 * g {
                        assert(i == 3 * g + 2);
                    }
                }
                assert forall|i: int| 0 <= i < 3 * (g + 1) && i < 23 && i % 3 != 2 implies hex_value(
                    s@[i],
                ) is Some by {
                    if i >= 3 * g {
                        assert(i == 3 * g || i == 3 * g + 1);
                    }
                }
            }
            g = g + 1;
        }
        assert(address@ =~= text_address(s@));
        Ok(Device { address })
    }

    /// The canonical text of the address: `xx:xx:xx:xx:xx:xx:xx:xx`, lowercase.
    pub fn to_string(&self) -> (r: String)
        ensures
            r@ == address_text(self.address@),
    {
        let mut r = String::new();
        let mut g: usize = 0;
        while g < 8
            invariant
                g <= 8,
                self.address@.len() == 8,
                r@.len() == if g == 0 { 0 } else { 3 * g - 1 },
                forall|i: int| 0 <= i < r@.len() ==> r@[i] == address_text(self.address@)[i],
            decreases 8 - g,
        {
            let b = self.address[g];
            let ghost before = r@;
            proof {
                reveal_strlit(":");
            }
            if g > 0 {
                r.append(":");
            }
            r.append(hex_digit_text(b / 16));
            r.append(hex_digit_text(b % 16));
            proof {
                let t = address_text(self.address@);
                let k = 3 * g as int;
                assert(k / 3 == g && k % 3 == 0);
                assert((k + 1) / 3 == g && (k + 1) % 3 == 1);
                assert(g > 0 ==> (k - 1) % 3 == 2);
                assert(r@.len() == k + 2);
                assert(r@[k] == hex_char(b / 16));
                assert(r@[k + 1] == hex_char(b % 16));
                assert(g > 0 ==> r@[k - 1] == ':');
                assert forall|i: int| 0 <= i < r@.len() implies r@[i] == t[i] by {
                    if i < before.len() {
                        assert(r@[i] == before[i]);
                    }
                }
            }
            g = g + 1;
        }
        assert(r@ =~= address_text(self.address@));
        r
    }
}

impl core::str::FromStr for Device {
    type Err = MalformedAddress;

    /// Reads the canonical text of an address (see [`Device::parse`]).
    fn from_str(s: &str) -> (r: Result<Device, MalformedAddress>)
        ensures
            r is Ok <==> is_address_text(s@),
            r matches Ok(d) ==> d.address@ == text_address(s@),
    {
        Device::parse(s)
    }
}

} // verus!
