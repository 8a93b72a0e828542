//! Connection identifiers.

use crate::text::is_one_line;
use vstd::prelude::*;

verus! {

/// The opaque, globally unique name of one accepted connection: 128 bits,
/// chosen by the transport when it accepts the peer. Consumers compare and
/// forward identifiers; they never take them apart.
#[derive(Clone, Copy, Debug, PartialEq, Eq, Hash, Structural)]
pub struct ConnectionId {
    bits: u128,
}

/// The sixteen hexadecimal digits in lower case.
pub open spec fn hex_digits() -> Seq<char> {
    seq!['0', '1', '2', '3', '4', '5', '6', '7', '8', '9', 'a', 'b', 'c', 'd', 'e', 'f']
}

/// The `k`-th of the 32 hexadecimal digits of `bits`, most significant first.
pub open spec fn nibble(bits: u128, k: int) -> int {
    ((bits >> ((4 * (31 - k)) as u128)) & 0xf) as int
}

/// How many hyphens stand before position `i` of the hyphenated form.
pub open spec fn hyphens_before(i: int) -> int {
    if i <= 8 {
        0
    } else if i <= 13 {
        1
    } else if i <= 18 {
        2
    } else if i <= 23 {
        3
    } else {
        4
    }
}

/// The hyphenated form of a 128-bit identifier: its 32 lower-case
/// hexadecimal digits, most significant first, in groups of 8, 4, 4, 4 and
/// 12 with a hyphen between two groups.
pub open spec fn hyphenated(bits: u128) -> Seq<char> {
    Seq::new(
        36,
        |i: int|
            if i == 8 || i == 13 || i == 18 || i == 23 {
                '-'
            } else {
                hex_digits()[nibble(bits, i - hyphens_before(i))]
            },
    )
}

/// Every one of the 32 digits is a number below sixteen.
pub proof fn lemma_nibble_in_range(bits: u128, k: int)
    ensures
        0 <= nibble(bits, k) < 16,
{
    let shifted = bits >> ((4 * (31 - k)) as u128);
    assert(shifted & 0xf < 16) by (bit_vector);
}

/// The hyphenated form holds hexadecimal digits and hyphens only, so it
/// stays on one line.
pub proof fn lemma_hyphenated_is_one_line(bits: u128)
    ensures
        is_one_line(hyphenated(bits)),
{
    assert forall|i: int| 0 <= i < hyphenated(bits).len() implies hyphenated(bits)[i] != '\n'
        && hyphenated(bits)[i] != '\r' by {
        lemma_nibble_in_range(bits, i - hyphens_before(i));
    }
}

/// Where the `k`-th digit stands in the hyphenated form.
pub open spec fn digit_position(k: int) -> int {
    if k < 8 {
        k
    } else if k < 12 {
        k + 1
    } else if k < 16 {
        k + 2
    } else if k < 20 {
        k + 3
    } else {
        k + 4
    }
}

/// The hyphenated form shows an identifier in full: two identifiers with
/// the same form are the same 128 bits.
pub proof fn lemma_hyphenated_injective(a: u128, b: u128)
    requires
        hyphenated(a) == hyphenated(b),
    ensures
        a == b,
{
    assert forall|k: int| 0 <= k < 32 implies nibble(a, k) == nibble(b, k) by {
        let i = digit_position(k);
        lemma_nibble_in_range(a, k);
        lemma_nibble_in_range(b, k);
        assert(hyphenated(a)[i] == hex_digits()[nibble(a, k)]);
        assert(hyphenated(b)[i] == hex_digits()[nibble(b, k)]);
    }
    assert(nibble(a, 0) == nibble(b, 0));
    assert(nibble(a, 1) == nibble(b, 1));
    assert(nibble(a, 2) == nibble(b, 2));
    assert(nibble(a, 3) == nibble(b, 3));
    assert(nibble(a, 4) == nibble(b, 4));
    assert(nibble(a, 5) == nibble(b, 5));
    assert(nibble(a, 6) == nibble(b, 6));
    assert(nibble(a, 7) == nibble(b, 7));
    assert(nibble(a, 8) == nibble(b, 8));
    assert(nibble(a, 9) == nibble(b, 9));
    assert(nibble(a, 10) == nibble(b, 10));
    assert(nibble(a, 11) == nibble(b, 11));
    assert(nibble(a, 12) == nibble(b, 12));
    assert(nibble(a, 13) == nibble(b, 13));
    assert(nibble(a, 14) == nibble(b, 14));
    assert(nibble(a, 15) == nibble(b, 15));
    assert(nibble(a, 16) == nibble(b, 16));
    assert(nibble(a, 17) == nibble(b, 17));
    assert(nibble(a, 18) == nibble(b, 18));
    assert(nibble(a, 19) == nibble(b, 19));
    assert(nibble(a, 20) == nibble(b, 20));
    assert(nibble(a, 21) == nibble(b, 21));
    assert(nibble(a, 22) == nibble(b, 22));
    assert(nibble(a, 23) == nibble(b, 23));
    assert(nibble(a, 24) == nibble(b, 24));
    assert(nibble(a, 25) == nibble(b, 25));
    assert(nibble(a, 26) == nibble(b, 26));
    assert(nibble(a, 27) == nibble(b, 27));
    assert(nibble(a, 28) == nibble(b, 28));
    assert(nibble(a, 29) == nibble(b, 29));
    assert(nibble(a, 30) == nibble(b, 30));
    assert(nibble(a, 31) == nibble(b, 31));
    assert(a == b) by (bit_vector)
        requires
            (a >> 124u128) & 0xf == (b >> 124u128) & 0xf,
            (a >> 120u128) & 0xf == (b >> 120u128) & 0xf,
            (a >> 116u128) & 0xf == (b >> 116u128) & 0xf,
            (a >> 112u128) & 0xf == (b >> 112u128) & 0xf,
            (a >> 108u128) & 0xf == (b >> 108u128) & 0xf,
            (a >> 104u128) & 0xf == (b >> 104u128) & 0xf,
            (a >> 100u128) & 0xf == (b >> 100u128) & 0xf,
            (a >> 96u128) & 0xf == (b >> 96u128) & 0xf,
            (a >> 92u128) & 0xf == (b >> 92u128) & 0xf,
            (a >> 88u128) & 0xf == (b >> 88u128) & 0xf,
            (a >> 84u128) & 0xf == (b >> 84u128) & 0xf,
            (a >> 80u128) & 0xf == (b >> 80u128) & 0xf,
            (a >> 76u128) & 0xf == (b >> 76u128) & 0xf,
            (a >> 72u128) & 0xf == (b >> 72u128) & 0xf,
            (a >> 68u128) & 0xf == (b >> 68u128) & 0xf,
            (a >> 64u128) & 0xf == (b >> 64u128) & 0xf,
            (a >> 60u128) & 0xf == (b >> 60u128) & 0xf,
            (a >> 56u128) & 0xf == (b >> 56u128) & 0xf,
            (a >> 52u128) & 0xf == (b >> 52u128) & 0xf,
            (a >> 48u128) & 0xf == (b >> 48u128) & 0xf,
            (a >> 44u128) & 0xf == (b >> 44u128) & 0xf,
            (a >> 40u128) & 0xf == (b >> 40u128) & 0xf,
            (a >> 36u128) & 0xf == (b >> 36u128) & 0xf,
            (a >> 32u128) & 0xf == (b >> 32u128) & 0xf,
            (a >> 28u128) & 0xf == (b >> 28u128) & 0xf,
            (a >> 24u128) & 0xf == (b >> 24u128) & 0xf,
            (a >> 20u128) & 0xf == (b >> 20u128) & 0xf,
            (a >> 16u128) & 0xf == (b >> 16u128) & 0xf,
            (a >> 12u128) & 0xf == (b >> 12u128) & 0xf,
            (a >> 8u128) & 0xf == (b >> 8u128) & 0xf,
            (a >> 4u128) & 0xf == (b >> 4u128) & 0xf,
            (a >> 0u128) & 0xf == (b >> 0u128) & 0xf,
    ;
}

/// Formats 128 bits as `uuid::Uuid::from_u128(bits)` displays them.
///
/// Trusted: the `uuid` crate builds the identifier from the big-endian bytes
/// of `bits` and displays it in its lower-case hyphenated form, which
/// `hyphenated` spells out digit by digit.
#[verifier::external_body]
fn format_hyphenated(bits: u128) -> (out: String)
    ensures
        out@ == hyphenated(bits),
{
    uuid::Uuid::from_u128(bits).to_string()
}

impl ConnectionId {
    /// The 128 bits that make up the identifier.
    pub closed spec fn value(self) -> u128 {
        self.bits
    }

    /// The identifier made of the given 128 bits.
    pub fn from_u128(bits: u128) -> (id: ConnectionId)
        ensures
            id.value() == bits,
    {
        ConnectionId { bits }
    }

    /// The 128 bits of the identifier.
    pub fn as_u128(&self) -> (bits: u128)
        ensures
            bits == self.value(),
    {
        self.bits
    }

    /// The identifier in full, in hyphenated form.
    pub fn to_text(&self) -> (out: String)
        ensures
            out@ == hyphenated(self.value()),
    {
        format_hyphenated(self.bits)
    }

    /// An identifier is shown in full: two identifiers with the same
    /// hyphenated form are the same identifier.
    pub proof fn lemma_shown_in_full(a: ConnectionId, b: ConnectionId)
        requires
            hyphenated(a.value()) == hyphenated(b.value()),
        ensures
            a == b,
    {
        lemma_hyphenated_injective(a.value(), b.value());
    }

    /// Two identifiers with the same bits are the same identifier.
    pub proof fn lemma_value_injective(a: ConnectionId, b: ConnectionId)
        requires
            a.value() == b.value(),
        ensures
            a == b,
    {
    }
}

} // verus!
