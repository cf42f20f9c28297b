//! Error messages, and the number formats they use.

use vstd::prelude::*;
use vstd::utf8::*;
use crate::bsp::BSPError;
use crate::encode::push_all;
use crate::kv::{Entity, pretty_bytes};
use crate::text::string_between;

verus! {

/// The ASCII digit for `n`: `0`-`9`, then `A`-`F`.
pub open spec fn digit(n: int) -> u8
    recommends
        0 <= n < 16,
{
    if n < 10 {
        (0x30 + n) as u8
    } else {
        (0x41 + n - 10) as u8
    }
}

/// `v` in decimal, without leading zeros.
pub open spec fn decimal(v: nat) -> Seq<u8>
    decreases v,
{
    if v < 10 {
        seq![digit(v as int)]
    } else {
        decimal(v / 10) + seq![digit((v % 10) as int)]
    }
}

/// `v` in upper case hexadecimal, without leading zeros.
pub open spec fn hex(v: nat) -> Seq<u8>
    decreases v,
{
    if v < 16 {
        seq![digit(v as int)]
    } else {
        hex(v / 16) + seq![digit((v % 16) as int)]
    }
}

/// `v` in upper case hexadecimal, in eight digits.
pub open spec fn hex8(v: u32) -> Seq<u8> {
    seq![
        digit((v / 0x1000_0000) as int % 16),
        digit((v / 0x100_0000) as int % 16),
        digit((v / 0x10_0000) as int % 16),
        digit((v / 0x1_0000) as int % 16),
        digit((v / 0x1000) as int % 16),
        digit((v / 0x100) as int % 16),
        digit((v / 0x10) as int % 16),
        digit(v as int % 16),
    ]
}

/// Every byte is ASCII.
pub open spec fn all_ascii(s: Seq<u8>) -> bool {
    forall|i: int| 0 <= i < s.len() ==> #[trigger] s[i] < 0x80
}

/// ASCII bytes are well-formed UTF-8.
pub proof fn lemma_ascii_is_utf8(s: Seq<u8>)
    requires
        all_ascii(s),
    ensures
        valid_utf8(s),
{
    assert(s.subrange(0, 0) =~= Seq::<u8>::empty());
    assert(partial_valid_utf8(s, 0));
    assert forall|i: int| 0 <= 0 <= i < s.len() <= s.len() implies #[trigger] is_leading_byte_width_1(
        s[i],
    ) by {
        assert(s[i] < 0x80);
    }
    partial_valid_utf8_extend_ascii_block(s, 0, s.len() as int);
    assert(s.subrange(0, s.len() as int) =~= s);
}

/// The digit for `n`.
fn digit_of(n: u32) -> (r: u8)
    requires
        n < 16,
    ensures
        r == digit(n as int),
        r < 0x80,
{
    if n < 10 {
        (0x30 + n) as u8
    } else {
        (0x41 + n - 10) as u8
    }
}

/// Appends `v` in decimal.
pub fn push_decimal(out: &mut Vec<u8>, v: u32)
    ensures
        final(out)@ == old(out)@ + decimal(v as nat),
        all_ascii(old(out)@) ==> all_ascii(final(out)@),
    decreases v,
{
    let ghost before = out@;
    if v >= 10 {
        push_decimal(out, v / 10);
    }
    let ghost mid = out@;
    out.push(digit_of(v % 10));
    assert(out@ =~= before + decimal(v as nat));
}

/// Appends `v` in upper case hexadecimal, without leading zeros.
pub fn push_hex(out: &mut Vec<u8>, v: u32)
    ensures
        final(out)@ == old(out)@ + hex(v as nat),
        all_ascii(old(out)@) ==> all_ascii(final(out)@),
    decreases v,
{
    let ghost before = out@;
    if v >= 16 {
        push_hex(out, v / 16);
    }
    out.push(digit_of(v % 16));
    assert(out@ =~= before + hex(v as nat));
}

/// Appends `v` in upper case hexadecimal, in eight digits.
pub fn push_hex8(out: &mut Vec<u8>, v: u32)
    ensures
        final(out)@ == old(out)@ + hex8(v),
        all_ascii(old(out)@) ==> all_ascii(final(out)@),
{
    let ghost before = out@;
    out.push(digit_of((v / 0x1000_0000) % 16));
    out.push(digit_of((v / 0x100_0000) % 16));
    out.push(digit_of((v / 0x10_0000) % 16));
    out.push(digit_of((v / 0x1_0000) % 16));
    out.push(digit_of((v / 0x1000) % 16));
    out.push(digit_of((v / 0x100) % 16));
    out.push(digit_of((v / 0x10) % 16));
    out.push(digit_of(v % 16));
    assert(out@ =~= before + hex8(v));
}

/// How the number in a message is written.
pub enum NumberFormat {
    Decimal,
    Hex,
    Hex8,
}

/// `v` written in the given format.
pub open spec fn number(format: NumberFormat, v: u32) -> Seq<u8> {
    match format {
        NumberFormat::Decimal => decimal(v as nat),
        NumberFormat::Hex => hex(v as nat),
        NumberFormat::Hex8 => hex8(v),
    }
}

/// What stands before the number in the message of `e`, how the number is
/// written, and what stands behind it.
pub open spec fn message_parts(e: BSPError) -> (Seq<char>, NumberFormat, Seq<char>) {
    match e {
        BSPError::InvalidHeader(_) => ("Invalid header: "@, NumberFormat::Hex8, "!"@),
        BSPError::InvalidVersion(_) => (
            "Invalid version: "@,
            NumberFormat::Decimal,
            ", must be 19 or 20!"@,
        ),
        BSPError::InvalidPakFile(_) => ("Invalid PakFile data at: "@, NumberFormat::Hex, "!"@),
        BSPError::TruncatedHeader(_) => (
            "Truncated header: only "@,
            NumberFormat::Decimal,
            " bytes!"@,
        ),
        BSPError::LumpOutOfBounds(_) => ("Lump "@, NumberFormat::Decimal, " lies outside the file!"@),
        BSPError::InvalidEntities(_) => ("Invalid entity data at: "@, NumberFormat::Hex, "!"@),
        BSPError::LumpOverflow(_) => (
            "Lump "@,
            NumberFormat::Decimal,
            " does not fit into its old place!"@,
        ),
        BSPError::EncodeFailed(_) => ("Lump "@, NumberFormat::Decimal, " could not be encoded!"@),
    }
}

impl BSPError {
    /// The number that the error carries.
    pub open spec fn value(&self) -> u32 {
        match *self {
            BSPError::InvalidHeader(v) => v,
            BSPError::InvalidVersion(v) => v,
            BSPError::InvalidPakFile(v) => v,
            BSPError::TruncatedHeader(v) => v,
            BSPError::LumpOutOfBounds(v) => v,
            BSPError::InvalidEntities(v) => v,
            BSPError::LumpOverflow(v) => v,
            BSPError::EncodeFailed(v) => v,
        }
    }

    /// The bytes of the error's message.
    pub open spec fn message_bytes(&self) -> Seq<u8> {
        let (before, format, behind) = message_parts(*self);
        encode_utf8(before) + number(format, self.value()) + encode_utf8(behind)
    }

    /// The error in words, for the user.
    pub fn message(&self) -> (r: String)
        ensures
            encode_utf8(r@) == self.message_bytes(),
    {
        broadcast use encode_utf8_valid_utf8;

        let (before, behind, v): (&str, &str, u32) = match *self {
            BSPError::InvalidHeader(v) => ("Invalid header: ", "!", v),
            BSPError::InvalidVersion(v) => ("Invalid version: ", ", must be 19 or 20!", v),
            BSPError::InvalidPakFile(v) => ("Invalid PakFile data at: ", "!", v),
            BSPError::TruncatedHeader(v) => ("Truncated header: only ", " bytes!", v),
            BSPError::LumpOutOfBounds(v) => ("Lump ", " lies outside the file!", v),
            BSPError::InvalidEntities(v) => ("Invalid entity data at: ", "!", v),
            BSPError::LumpOverflow(v) => ("Lump ", " does not fit into its old place!", v),
            BSPError::EncodeFailed(v) => ("Lump ", " could not be encoded!", v),
        };
        let mut digits: Vec<u8> = Vec::new();
        match *self {
            BSPError::InvalidHeader(_) => push_hex8(&mut digits, v),
            BSPError::InvalidPakFile(_) | BSPError::InvalidEntities(_) => push_hex(&mut digits, v),
            _ => push_decimal(&mut digits, v),
        }
        assert(digits@ =~= number(message_parts(*self).1, self.value()));
        let mut out: Vec<u8> = Vec::new();
        push_all(&mut out, before.as_bytes());
        push_all(&mut out, digits.as_slice());
        push_all(&mut out, behind.as_bytes());
        proof {
            assert(out@ =~= encode_utf8(before@) + digits@ + encode_utf8(behind@));
            lemma_ascii_is_utf8(digits@);
            valid_utf8_concat(encode_utf8(before@), digits@);
            valid_utf8_concat(encode_utf8(before@) + digits@, encode_utf8(behind@));
            assert(out@.subrange(0, out@.len() as int) =~= out@);
        }
        let n = out.len();
        string_between(out.as_slice(), 0, n)
    }
}

/// The bytes of the line that stands for record number `index` in a list:
/// the number, a colon and a blank, the display name, and a blank and a star
/// behind that where the record was edited.
pub open spec fn label_bytes(index: u32, name: Seq<u8>, dirty: bool) -> Seq<u8> {
    decimal(index as nat) + seq![0x3Au8, 0x20u8] + name + if dirty {
        seq![0x20u8, 0x2Au8]
    } else {
        Seq::<u8>::empty()
    }
}

impl Entity {
    /// The line that stands for the record in a list, given its number.
    pub fn label(&self, index: u32) -> (r: String)
        ensures
            encode_utf8(r@) == label_bytes(
                index,
                pretty_bytes(encode_utf8(self.string@)),
                self.dirty,
            ),
    {
        broadcast use encode_utf8_valid_utf8;

        let name = self.pretty_name();
        let mut out: Vec<u8> = Vec::new();
        push_decimal(&mut out, index);
        out.push(0x3A);
        out.push(0x20);
        let ghost head = out@;
        assert(head =~= decimal(index as nat) + seq![0x3Au8, 0x20u8]);
        push_all(&mut out, name.as_str().as_bytes());
        let ghost mid = out@;
        if self.dirty {
            out.push(0x20);
            out.push(0x2A);
        }
        proof {
            let tail = if self.dirty {
                seq![0x20u8, 0x2Au8]
            } else {
                Seq::<u8>::empty()
            };
            assert(out@ =~= head + encode_utf8(name@) + tail);
            lemma_ascii_is_utf8(head);
            lemma_ascii_is_utf8(tail);
            valid_utf8_concat(head, encode_utf8(name@));
            valid_utf8_concat(head + encode_utf8(name@), tail);
            assert(out@.subrange(0, out@.len() as int) =~= out@);
        }
        let n = out.len();
        string_between(out.as_slice(), 0, n)
    }
}

} // verus!
