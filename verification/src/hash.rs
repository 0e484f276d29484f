//! Forty-bit path hashes: hashing of text and concatenation of hashes.

use vstd::prelude::*;

verus! {

/// The hash that `smash_arc::hash40` gives to a text: the CRC-32 of its bytes
/// in the low 32 bits and its length in bytes above them.
pub uninterp spec fn str_hash(s: Seq<char>) -> u64;

/// The hash that `hash40::Hash40::concat` gives to two hashes: the hash of
/// the first text followed by the second.
pub uninterp spec fn concat_hash(a: u64, b: u64) -> u64;

/// The hash of the path separator.
pub open spec fn separator() -> u64 {
    str_hash("/"@)
}

/// The text that std's formatting gives to `prefix`, a number padded with
/// zeros to two decimal digits, and `suffix`, in that order.
pub open spec fn numbered_text(prefix: Seq<char>, n: nat, suffix: Seq<char>) -> Seq<char> {
    prefix + padded_decimal(n) + suffix
}

/// The character of a decimal digit.
pub open spec fn digit_char(d: nat) -> char
    recommends
        d < 10,
{
    if d == 0 {
        '0'
    } else if d == 1 {
        '1'
    } else if d == 2 {
        '2'
    } else if d == 3 {
        '3'
    } else if d == 4 {
        '4'
    } else if d == 5 {
        '5'
    } else if d == 6 {
        '6'
    } else if d == 7 {
        '7'
    } else if d == 8 {
        '8'
    } else {
        '9'
    }
}

/// The decimal digits of a number, without leading zeros.
pub open spec fn decimal(n: nat) -> Seq<char>
    decreases n,
{
    if n < 10 {
        seq![digit_char(n)]
    } else {
        decimal(n / 10).push(digit_char(n % 10))
    }
}

/// The decimal digits of a number, with a leading zero below ten.
pub open spec fn padded_decimal(n: nat) -> Seq<char> {
    if n < 10 {
        seq!['0', digit_char(n)]
    } else {
        decimal(n)
    }
}

/// A forty-bit path hash. Two hashes are equal when their raw values are.
#[derive(Clone, Copy, Debug, PartialEq, Eq, Structural)]
pub struct Hash40(pub u64);

impl Hash40 {
    /// The number of bytes of the hashed text, as the hash records it.
    pub open spec fn len_spec(self) -> u8 {
        (self.0 >> 32) as u8
    }

    /// The number of bytes of the hashed text, as the hash records it.
    pub fn len(self) -> (n: u8)
        ensures
            n == self.len_spec(),
    {
        (self.0 >> 32) as u8
    }

    /// Calls `smash_arc::hash40` on the text. The contract names the result
    /// after the text alone; nothing of the CRC is stated.
    #[verifier::external_body]
    pub(crate) fn of_str(text: &str) -> (h: Hash40)
        ensures
            h.0 == str_hash(text@),
    {
        Hash40(smash_arc::hash40(text).0)
    }

    /// Calls `hash40::Hash40::concat` on the two raw values. The contract
    /// names the result after the two values alone.
    #[verifier::external_body]
    pub(crate) fn concat_raw(self, extra: Hash40) -> (h: Hash40)
        ensures
            h.0 == concat_hash(self.0, extra.0),
    {
        Hash40(hash40::Hash40(self.0).concat(hash40::Hash40(extra.0)).0)
    }

    /// The hash of a text.
    pub fn new(text: &str) -> (h: Hash40)
        ensures
            h.0 == str_hash(text@),
    {
        Hash40::of_str(text)
    }

    /// The hash of this hash's text followed directly by that of `extra`,
    /// with nothing between the two.
    pub fn append(self, extra: Hash40) -> (h: Hash40)
        ensures
            h.0 == concat_hash(self.0, extra.0),
    {
        self.concat_raw(extra)
    }

    /// The hash of this hash's text followed directly by `text`.
    pub fn append_str(self, text: &str) -> (h: Hash40)
        ensures
            h.0 == concat_hash(self.0, str_hash(text@)),
    {
        self.concat_raw(Hash40::of_str(text))
    }
}

/// Calls std's `format!` with a text, a number at width two padded with
/// zeros, and a second text. The contract states the digits that the
/// formatting of an unsigned number produces.
#[verifier::external_body]
pub(crate) fn format_numbered(prefix: &str, n: usize, suffix: &str) -> (text: String)
    ensures
        text@ == numbered_text(prefix@, n as nat, suffix@),
{
    format!("{}{:02}{}", prefix, n, suffix)
}

/// The hash of `prefix`, then `n` in two digits or more, then `suffix`.
pub fn numbered_hash(prefix: &str, n: usize, suffix: &str) -> (h: Hash40)
    ensures
        h.0 == str_hash(numbered_text(prefix@, n as nat, suffix@)),
{
    let text = format_numbered(prefix, n, suffix);
    Hash40::of_str(text.as_str())
}

} // verus!
