use vstd::prelude::*;
use vstd::string::StringSliceAdditionalSpecFns;

use crate::text::push_char;

verus! {

/// A GUID held in canonical (big-endian, textual) byte order.
#[derive(Clone, Copy, Debug, PartialEq, Eq, Hash)]
pub struct GptGuid(pub [u8; 16]);

/// The text was not a canonical lowercase GUID.
#[derive(Clone, Copy, Debug, PartialEq, Eq, Structural)]
pub struct GuidParseError;

/// GPT stores the first three GUID fields little-endian: this permutation converts
/// between the on-disk order and the canonical order (it is its own inverse).
pub open spec fn gpt_byte_order(b: Seq<u8>) -> Seq<u8> {
    seq![b[3], b[2], b[1], b[0], b[5], b[4], b[7], b[6]] + b.subrange(8, 16)
}

/// Swapping twice restores every 16-byte sequence.
pub proof fn lemma_gpt_byte_order_involution(b: Seq<u8>)
    requires
        b.len() == 16,
    ensures
        gpt_byte_order(gpt_byte_order(b)) == b,
        gpt_byte_order(b).len() == 16,
{
    assert(gpt_byte_order(gpt_byte_order(b)) =~= b);
}

/// The value of a lowercase hexadecimal digit.
pub open spec fn hex_value(byte: u8) -> Option<u8> {
    if 0x30 <= byte <= 0x39 {
        Some((byte - 0x30) as u8)
    } else if 0x61 <= byte <= 0x66 {
        Some((byte - 0x61 + 10) as u8)
    } else {
        None
    }
}

/// Positions of the four hyphens of a canonical GUID.
pub open spec fn is_dash_position(i: int) -> bool {
    i == 8 || i == 13 || i == 18 || i == 23
}

/// Text position of the high nibble of the `k`-th GUID byte.
pub open spec fn text_position(k: int) -> int {
    2 * k + (if k >= 4 { 1int } else { 0 }) + (if k >= 6 { 1int } else { 0 }) + (if k >= 8 {
        1int
    } else {
        0
    }) + (if k >= 10 { 1int } else { 0 })
}

pub open spec fn nibble_pair(b: Seq<u8>, k: int) -> u8 {
    ((hex_value(b[text_position(k)])->Some_0 as int) * 16 + (hex_value(
        b[text_position(k) + 1],
    )->Some_0 as int)) as u8
}

/// Whether `b` is `xxxxxxxx-xxxx-xxxx-xxxx-xxxxxxxxxxxx` with lowercase hex digits.
pub open spec fn is_canonical_guid_text(b: Seq<u8>) -> bool {
    &&& b.len() == 36
    &&& forall|i: int| 0 <= i < 36 && is_dash_position(i) ==> b[i] == 0x2d
    &&& forall|i: int| 0 <= i < 36 && !is_dash_position(i) ==> (#[trigger] hex_value(b[i])) is Some
}

/// The GUID bytes named by canonical text.
pub open spec fn parse_guid_spec(b: Seq<u8>) -> Option<Seq<u8>> {
    if is_canonical_guid_text(b) {
        Some(Seq::new(16, |k: int| nibble_pair(b, k)))
    } else {
        None
    }
}

/// The lowercase hexadecimal digit of a nibble.
pub open spec fn hex_digit(n: u8) -> char {
    if n < 10 {
        ((n + 0x30) as u8) as char
    } else {
        ((n - 10 + 0x61) as u8) as char
    }
}

/// The canonical text of the first `n` GUID bytes of `b`.
pub open spec fn format_prefix(b: Seq<u8>, n: nat) -> Seq<char>
    decreases n,
{
    if n == 0 {
        Seq::empty()
    } else {
        let k = (n - 1) as int;
        let dash: Seq<char> = if k == 4 || k == 6 || k == 8 || k == 10 {
            seq!['-']
        } else {
            Seq::empty()
        };
        format_prefix(b, (n - 1) as nat) + dash + seq![hex_digit(b[k] / 16), hex_digit(b[k] % 16)]
    }
}

/// The canonical lowercase text of a GUID: `xxxxxxxx-xxxx-xxxx-xxxx-xxxxxxxxxxxx`.
pub open spec fn format_guid(b: Seq<u8>) -> Seq<char> {
    format_prefix(b, 16)
}

/// The bytes of an ASCII character sequence.
pub open spec fn ascii_bytes(s: Seq<char>) -> Seq<u8> {
    s.map_values(|c: char| c as u8)
}

/// Length of the canonical text of the first `n` GUID bytes.
pub open spec fn text_len(n: int) -> int {
    2 * n + (if n > 4 { 1int } else { 0 }) + (if n > 6 { 1int } else { 0 }) + (if n > 8 {
        1int
    } else {
        0
    }) + (if n > 10 { 1int } else { 0 })
}

proof fn lemma_hex_digit_value(n: u8)
    requires
        n < 16,
    ensures
        hex_value(hex_digit(n) as u8) == Some(n),
{
}

proof fn lemma_format_prefix(b: Seq<u8>, n: nat)
    requires
        b.len() == 16,
        n <= 16,
    ensures
        format_prefix(b, n).len() == text_len(n as int),
        forall|k: int|
            0 <= k < n ==> format_prefix(b, n)[#[trigger] text_position(k)] == hex_digit(b[k] / 16)
                && format_prefix(b, n)[text_position(k) + 1] == hex_digit(b[k] % 16),
        forall|i: int|
            0 <= i < text_len(n as int) && is_dash_position(i) ==> format_prefix(b, n)[i] == '-',
        forall|i: int|
            0 <= i < text_len(n as int) && !is_dash_position(i) ==> (#[trigger] hex_value(
                format_prefix(b, n)[i] as u8,
            )) is Some,
    decreases n,
{
    if n > 0 {
        let k = (n - 1) as int;
        lemma_format_prefix(b, (n - 1) as nat);
        let previous = format_prefix(b, (n - 1) as nat);
        let current = format_prefix(b, n);
        lemma_hex_digit_value(b[k] / 16);
        lemma_hex_digit_value(b[k] % 16);
        assert forall|j: int| 0 <= j < previous.len() implies current[j] == previous[j] by {}
        assert forall|i: int|
            0 <= i < text_len(n as int) && !is_dash_position(i) implies (#[trigger] hex_value(
            current[i] as u8,
        )) is Some by {
            if i < previous.len() {
                assert(current[i] == previous[i]);
            }
        }
    }
}

/// Formatting a GUID and parsing the text gives the GUID back.
pub proof fn lemma_format_then_parse(b: Seq<u8>)
    requires
        b.len() == 16,
    ensures
        parse_guid_spec(ascii_bytes(format_guid(b))) == Some(b),
{
    lemma_format_prefix(b, 16);
    let text = ascii_bytes(format_guid(b));
    assert(is_canonical_guid_text(text));
    assert forall|k: int| 0 <= k < 16 implies nibble_pair(text, k) == b[k] by {
        lemma_hex_digit_value(b[k] / 16);
        lemma_hex_digit_value(b[k] % 16);
    }
    assert(Seq::new(16, |k: int| nibble_pair(text, k)) =~= b);
}

/// The GUID byte whose digits sit at text position `i`.
spec fn byte_at_text(i: int) -> int {
    if i < 8 {
        i / 2
    } else if i < 13 {
        (i - 1) / 2
    } else if i < 18 {
        (i - 2) / 2
    } else if i < 23 {
        (i - 3) / 2
    } else {
        (i - 4) / 2
    }
}

proof fn lemma_digit_of_value(c: u8)
    requires
        hex_value(c) is Some,
    ensures
        hex_digit(hex_value(c)->Some_0) as u8 == c,
{
}

/// Parsing canonical GUID text and formatting the GUID gives the text back.
pub proof fn lemma_parse_then_format(text: Seq<u8>)
    requires
        is_canonical_guid_text(text),
    ensures
        parse_guid_spec(text) matches Some(b) && ascii_bytes(format_guid(b)) == text,
{
    let b = Seq::new(16, |k: int| nibble_pair(text, k));
    lemma_format_prefix(b, 16);
    let formatted = ascii_bytes(format_guid(b));
    assert forall|i: int| 0 <= i < 36 implies formatted[i] == text[i] by {
        if !is_dash_position(i) {
            let k = byte_at_text(i);
            let hi = hex_value(text[text_position(k)])->Some_0;
            let lo = hex_value(text[text_position(k) + 1])->Some_0;
            assert(hex_value(text[text_position(k)]) is Some);
            assert(hex_value(text[text_position(k) + 1]) is Some);
            assert(b[k] == hi * 16 + lo);
            assert(b[k] / 16 == hi);
            assert(b[k] % 16 == lo);
            lemma_digit_of_value(text[text_position(k)]);
            lemma_digit_of_value(text[text_position(k) + 1]);
            assert(format_guid(b)[text_position(k)] == hex_digit(b[k] / 16));
        }
    }
    assert(formatted =~= text);
}


/// The value of a lowercase hexadecimal digit, if `byte` is one.
pub fn hex(byte: u8) -> (r: Option<u8>)
    ensures
        r == hex_value(byte),
{
    if 0x30 <= byte && byte <= 0x39 {
        Some(byte - 0x30)
    } else if 0x61 <= byte && byte <= 0x66 {
        Some(byte - 0x61 + 10)
    } else {
        None
    }
}

fn nibble_char(n: u8) -> (c: char)
    requires
        n < 16,
    ensures
        c == hex_digit(n),
{
    if n < 10 {
        (n + 0x30) as char
    } else {
        (n - 10 + 0x61) as char
    }
}

impl GptGuid {
    /// Converts the on-disk GPT byte order into canonical order.
    pub fn from_gpt_bytes(bytes: [u8; 16]) -> (r: Self)
        ensures
            r.0@ == gpt_byte_order(bytes@),
    {
        let mut b = bytes;
        let t = b[0];
        b[0] = b[3];
        b[3] = t;
        let t = b[1];
        b[1] = b[2];
        b[2] = t;
        let t = b[4];
        b[4] = b[5];
        b[5] = t;
        let t = b[6];
        b[6] = b[7];
        b[7] = t;
        assert(b@ =~= gpt_byte_order(bytes@));
        Self(b)
    }

    /// Converts canonical order into the on-disk GPT byte order.
    pub fn to_gpt_bytes(self) -> (r: [u8; 16])
        ensures
            r@ == gpt_byte_order(self.0@),
    {
        let mut b = self.0;
        let t = b[0];
        b[0] = b[3];
        b[3] = t;
        let t = b[1];
        b[1] = b[2];
        b[2] = t;
        let t = b[4];
        b[4] = b[5];
        b[5] = t;
        let t = b[6];
        b[6] = b[7];
        b[7] = t;
        assert(b@ =~= gpt_byte_order(self.0@));
        b
    }

    /// Whether two GUIDs hold the same bytes.
    pub fn same_as(&self, other: &Self) -> (r: bool)
        ensures
            r == (self.0@ == other.0@),
    {
        let mut i: usize = 0;
        while i < 16
            invariant
                i <= 16,
                forall|j: int| 0 <= j < i ==> self.0@[j] == other.0@[j],
            decreases 16 - i,
        {
            if self.0[i] != other.0[i] {
                return false;
            }
            i += 1;
        }
        assert(self.0@ =~= other.0@);
        true
    }

    /// Whether every byte is zero (the GPT "unused entry" type).
    pub fn is_zero(&self) -> (r: bool)
        ensures
            r == (self.0@ == Seq::new(16, |i: int| 0u8)),
    {
        let mut i: usize = 0;
        while i < 16
            invariant
                i <= 16,
                forall|j: int| 0 <= j < i ==> self.0@[j] == 0,
            decreases 16 - i,
        {
            if self.0[i] != 0 {
                assert(self.0@[i as int] != Seq::new(16, |i: int| 0u8)[i as int]);
                return false;
            }
            i += 1;
        }
        assert(self.0@ =~= Seq::new(16, |i: int| 0u8));
        true
    }

    /// Parses canonical lowercase GUID text given as bytes.
    pub fn parse_bytes(bytes: &[u8]) -> (r: Result<Self, GuidParseError>)
        ensures
            match parse_guid_spec(bytes@) {
                Some(g) => r matches Ok(guid) && guid.0@ == g,
                None => r == Err::<Self, GuidParseError>(GuidParseError),
            },
    {
        if bytes.len() != 36 || bytes[8] != 0x2d || bytes[13] != 0x2d || bytes[18] != 0x2d
            || bytes[23] != 0x2d {
            proof {
                if bytes@.len() == 36 {
                    assert(is_dash_position(8) && is_dash_position(13) && is_dash_position(18)
                        && is_dash_position(23));
                }
            }
            return Err(GuidParseError);
        }
        let mut guid = [0u8; 16];
        let mut k: usize = 0;
        while k < 16
            invariant
                k <= 16,
                bytes@.len() == 36,
                forall|i: int| 0 <= i < 36 && is_dash_position(i) ==> bytes@[i] == 0x2d,
                forall|j: int|
                    0 <= j < 2 * k + (if k >= 4 { 1int } else { 0 }) + (if k >= 6 {
                        1int
                    } else {
                        0
                    }) + (if k >= 8 { 1int } else { 0 }) + (if k >= 10 { 1int } else { 0 })
                        && !is_dash_position(j) ==> (#[trigger] hex_value(bytes@[j])) is Some,
                forall|j: int| 0 <= j < k ==> guid@[j] == nibble_pair(bytes@, j),
            decreases 16 - k,
        {
            let source = 2 * k + (if k >= 4 { 1 } else { 0 }) + (if k >= 6 { 1 } else { 0 }) + (
            if k >= 8 {
                1
            } else {
                0
            }) + (if k >= 10 { 1 } else { 0 });
            assert(source == text_position(k as int));
            let high = match hex(bytes[source]) {
                Some(v) => v,
                None => {
                    assert(!is_canonical_guid_text(bytes@));
                    return Err(GuidParseError);
                },
            };
            let low = match hex(bytes[source + 1]) {
                Some(v) => v,
                None => {
                    assert(!is_dash_position(source + 1));
                    assert(!is_canonical_guid_text(bytes@));
                    return Err(GuidParseError);
                },
            };
            assert(high < 16 && low < 16);
            assert((high << 4) | low == high * 16 + low) by (bit_vector)
                requires
                    high < 16,
                    low < 16,
            ;
            guid[k] = (high << 4) | low;
            k += 1;
        }
        assert(is_canonical_guid_text(bytes@));
        assert(guid@ =~= Seq::new(16, |k: int| nibble_pair(bytes@, k)));
        Ok(Self(guid))
    }

    /// Parses canonical lowercase GUID text.
    pub fn parse(value: &str) -> (r: Result<Self, GuidParseError>)
        ensures
            match parse_guid_spec(value.spec_bytes()) {
                Some(g) => r matches Ok(guid) && guid.0@ == g,
                None => r == Err::<Self, GuidParseError>(GuidParseError),
            },
    {
        Self::parse_bytes(value.as_bytes())
    }

    /// The canonical lowercase text of this GUID.
    pub fn to_string(&self) -> (s: String)
        ensures
            s@ == format_guid(self.0@),
    {
        let mut s = String::new();
        let mut i: usize = 0;
        while i < 16
            invariant
                i <= 16,
                s@ == format_prefix(self.0@, i as nat),
            decreases 16 - i,
        {
            if i == 4 || i == 6 || i == 8 || i == 10 {
                push_char(&mut s, '-');
            }
            let byte = self.0[i];
            push_char(&mut s, nibble_char(byte / 16));
            push_char(&mut s, nibble_char(byte % 16));
            proof {
                let k = i as int;
                let dash: Seq<char> = if k == 4 || k == 6 || k == 8 || k == 10 {
                    seq!['-']
                } else {
                    Seq::empty()
                };
                assert(format_prefix(self.0@, (i + 1) as nat) == format_prefix(self.0@, i as nat)
                    + dash + seq![hex_digit(self.0@[k] / 16), hex_digit(self.0@[k] % 16)]);
                assert(s@ =~= format_prefix(self.0@, (i + 1) as nat));
            }
            i += 1;
        }
        s
    }
}

impl core::str::FromStr for GptGuid {
    type Err = GuidParseError;

    fn from_str(value: &str) -> (r: Result<Self, Self::Err>)
        ensures
            match parse_guid_spec(value.spec_bytes()) {
                Some(g) => r matches Ok(guid) && guid.0@ == g,
                None => r == Err::<Self, GuidParseError>(GuidParseError),
            },
    {
        Self::parse(value)
    }
}

} // verus!
