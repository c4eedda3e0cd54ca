//! Connection identities and their textual form.

use vstd::prelude::*;

verus! {

/// Number of characters in the textual form of an identity.
pub const TEXT_LEN: usize = 36;

/// Number of hexadecimal digits in the textual form of an identity.
pub const DIGITS: usize = 32;

/// The identity of one connection: a 128-bit value that is drawn at random when the
/// connection is admitted and serves as its key in the registry.
#[derive(Clone, Copy, Debug, PartialEq, Eq, Hash, Structural)]
pub struct ConnectionId {
    raw: u128,
}

impl View for ConnectionId {
    type V = u128;

    closed spec fn view(&self) -> u128 {
        self.raw
    }
}

/// The lower-case hexadecimal digit for a value below sixteen.
pub open spec fn hex_digit(n: u128) -> char {
    if n < 10 {
        (48 + n) as char
    } else {
        (87 + n) as char
    }
}

/// The `k`-th group of four bits of `raw`, counted from the most significant one.
pub open spec fn nibble(raw: u128, k: int) -> u128 {
    (raw >> (((31 - k) * 4) as u128)) & 0xf
}

/// Whether position `i` of the textual form holds a hyphen.
pub open spec fn is_hyphen_position(i: int) -> bool {
    i == 8 || i == 13 || i == 18 || i == 23
}

/// Which hexadecimal digit stands at position `i` of the textual form.
pub open spec fn digit_index(i: int) -> int {
    if i < 8 {
        i
    } else if i < 13 {
        i - 1
    } else if i < 18 {
        i - 2
    } else if i < 23 {
        i - 3
    } else {
        i - 4
    }
}

/// The canonical textual form of a 128-bit identity: its 32 lower-case hexadecimal
/// digits, most significant first, in groups of 8, 4, 4, 4 and 12 joined by hyphens.
pub open spec fn canonical_text(raw: u128) -> Seq<char> {
    Seq::new(
        TEXT_LEN as nat,
        |i: int|
            if is_hyphen_position(i) {
                '-'
            } else {
                hex_digit(nibble(raw, digit_index(i)))
            },
    )
}

/// Whether `raw` carries the marks of a randomly drawn identity: version 4 in bits
/// 76 to 79 and the variant `10` in bits 62 and 63.
pub open spec fn is_random_layout(raw: u128) -> bool {
    (raw >> 76) & 0xf == 4 && (raw >> 62) & 0x3 == 2
}

/// Draws a random identity with `uuid::Uuid::new_v4` and hands it out as a number
/// (`Uuid::as_u128`).
///
/// Trusted: the value has the version and variant bits that `new_v4` sets on whatever
/// the random source returned. Nothing is claimed about the other 122 bits. `new_v4`
/// panics if the operating system cannot supply random bytes.
#[verifier::external_body]
fn random_raw() -> (raw: u128)
    ensures
        is_random_layout(raw),
{
    uuid::Uuid::new_v4().as_u128()
}

/// Formats an identity with the `Display` impl of `uuid::Uuid`, reached through
/// `to_string`, after `Uuid::from_u128` has rebuilt the value.
///
/// Trusted: `Display` for `Uuid` writes the lower-case hyphenated form, which is
/// [`canonical_text`].
#[verifier::external_body]
fn hyphenated(raw: u128) -> (text: String)
    ensures
        text@ == canonical_text(raw),
{
    uuid::Uuid::from_u128(raw).to_string()
}

impl ConnectionId {
    /// The textual form of this identity, as a sequence of characters.
    pub open spec fn text(self) -> Seq<char> {
        canonical_text(self@)
    }

    /// Whether this identity has the layout of a randomly drawn one.
    pub open spec fn is_random(self) -> bool {
        is_random_layout(self@)
    }

    /// The identity with the given 128-bit value.
    pub fn from_u128(raw: u128) -> (id: ConnectionId)
        ensures
            id@ == raw,
    {
        ConnectionId { raw }
    }

    /// The 128-bit value of this identity.
    pub fn as_u128(&self) -> (raw: u128)
        ensures
            raw == self@,
    {
        self.raw
    }

    /// Draws a fresh identity at random. It never depends on anything a client sent.
    ///
    /// Two draws are distinct with overwhelming probability only; no contract can
    /// promise it.
    pub fn generate() -> (id: ConnectionId)
        ensures
            id.is_random(),
    {
        ConnectionId { raw: random_raw() }
    }

    /// The canonical textual form, which is sent to the client as its greeting.
    pub fn to_text(&self) -> (text: String)
        ensures
            text@ == self.text(),
    {
        hyphenated(self.raw)
    }
}

/// Where the `k`-th hexadecimal digit stands in the textual form.
pub open spec fn digit_position(k: int) -> int {
    if k < 8 {
        k
    } else if k < 12 {
        k + 1
    } else if k < 16 {
        k + 2
    } else if k < 20 {
        k + 3
    } else {
        k + 4
    }
}

/// Whether `c` is one of the sixteen lower-case hexadecimal digits.
pub open spec fn is_lower_hex(c: char) -> bool {
    ('0' <= c && c <= '9') || ('a' <= c && c <= 'f')
}

proof fn lemma_nibble_bound(raw: u128, shift: u128)
    by (bit_vector)
    ensures
        (raw >> shift) & 0xf < 16,
{
}

proof fn lemma_nibbles_determine_value(a: u128, b: u128)
    by (bit_vector)
    requires
        (a >> 124) & 0xf == (b >> 124) & 0xf,
        (a >> 120) & 0xf == (b >> 120) & 0xf,
        (a >> 116) & 0xf == (b >> 116) & 0xf,
        (a >> 112) & 0xf == (b >> 112) & 0xf,
        (a >> 108) & 0xf == (b >> 108) & 0xf,
        (a >> 104) & 0xf == (b >> 104) & 0xf,
        (a >> 100) & 0xf == (b >> 100) & 0xf,
        (a >> 96) & 0xf == (b >> 96) & 0xf,
        (a >> 92) & 0xf == (b >> 92) & 0xf,
        (a >> 88) & 0xf == (b >> 88) & 0xf,
        (a >> 84) & 0xf == (b >> 84) & 0xf,
        (a >> 80) & 0xf == (b >> 80) & 0xf,
        (a >> 76) & 0xf == (b >> 76) & 0xf,
        (a >> 72) & 0xf == (b >> 72) & 0xf,
        (a >> 68) & 0xf == (b >> 68) & 0xf,
        (a >> 64) & 0xf == (b >> 64) & 0xf,
        (a >> 60) & 0xf == (b >> 60) & 0xf,
        (a >> 56) & 0xf == (b >> 56) & 0xf,
        (a >> 52) & 0xf == (b >> 52) & 0xf,
        (a >> 48) & 0xf == (b >> 48) & 0xf,
        (a >> 44) & 0xf == (b >> 44) & 0xf,
        (a >> 40) & 0xf == (b >> 40) & 0xf,
        (a >> 36) & 0xf == (b >> 36) & 0xf,
        (a >> 32) & 0xf == (b >> 32) & 0xf,
        (a >> 28) & 0xf == (b >> 28) & 0xf,
        (a >> 24) & 0xf == (b >> 24) & 0xf,
        (a >> 20) & 0xf == (b >> 20) & 0xf,
        (a >> 16) & 0xf == (b >> 16) & 0xf,
        (a >> 12) & 0xf == (b >> 12) & 0xf,
        (a >> 8) & 0xf == (b >> 8) & 0xf,
        (a >> 4) & 0xf == (b >> 4) & 0xf,
        (a >> 0) & 0xf == (b >> 0) & 0xf,
    ensures
        a == b,
{
}

/// The textual form has 36 characters: hyphens at positions 8, 13, 18 and 23, and at
/// every other position the lower-case digit of the nibble that belongs there.
pub proof fn lemma_text_shape(raw: u128)
    ensures
        canonical_text(raw).len() == TEXT_LEN,
        forall|i: int|
            0 <= i < TEXT_LEN && is_hyphen_position(i) ==> #[trigger] canonical_text(raw)[i]
                == '-',
        forall|i: int|
            0 <= i < TEXT_LEN && !is_hyphen_position(i) ==> is_lower_hex(
                #[trigger] canonical_text(raw)[i],
            ),
        forall|k: int|
            0 <= k < DIGITS ==> canonical_text(raw)[digit_position(k)] == hex_digit(
                #[trigger] nibble(raw, k),
            ),
{
    assert forall|i: int| 0 <= i < TEXT_LEN && !is_hyphen_position(i) implies is_lower_hex(
        #[trigger] canonical_text(raw)[i],
    ) by {
        lemma_nibble_bound(raw, ((31 - digit_index(i)) * 4) as u128);
    }
    assert forall|k: int| 0 <= k < DIGITS implies canonical_text(raw)[digit_position(k)]
        == hex_digit(#[trigger] nibble(raw, k)) by {
        assert(digit_index(digit_position(k)) == k);
    }
}

/// The textual form of a randomly drawn identity shows its version, `4`, at position
/// 14, and one of `8`, `9`, `a`, `b` at position 19.
pub proof fn lemma_random_text_marks(raw: u128)
    requires
        is_random_layout(raw),
    ensures
        canonical_text(raw)[14] == '4',
        canonical_text(raw)[19] == '8' || canonical_text(raw)[19] == '9' || canonical_text(
            raw,
        )[19] == 'a' || canonical_text(raw)[19] == 'b',
{
    assert(nibble(raw, 12) == 4) by {
        assert((raw >> 76) & 0xf == 4);
    }
    assert(8 <= nibble(raw, 16) <= 11) by {
        assert(8 <= (raw >> 60) & 0xf <= 11) by (bit_vector)
            requires
                (raw >> 62) & 0x3 == 2,
        ;
    }
}

/// Distinct values have distinct textual forms: the greeting tells identities apart.
pub proof fn lemma_text_injective(a: u128, b: u128)
    requires
        canonical_text(a) == canonical_text(b),
    ensures
        a == b,
{
    lemma_text_shape(a);
    lemma_text_shape(b);
    assert forall|k: int| 0 <= k < DIGITS implies #[trigger] nibble(a, k) == nibble(b, k) by {
        lemma_nibble_bound(a, ((31 - k) * 4) as u128);
        lemma_nibble_bound(b, ((31 - k) * 4) as u128);
        assert(canonical_text(a)[digit_position(k)] == hex_digit(nibble(a, k)));
        assert(canonical_text(b)[digit_position(k)] == hex_digit(nibble(b, k)));
    }
    assert(nibble(a, 0) == nibble(b, 0));
    assert(nibble(a, 1) == nibble(b, 1));
    assert(nibble(a, 2) == nibble(b, 2));
    assert(nibble(a, 3) == nibble(b, 3));
    assert(nibble(a, 4) == nibble(b, 4));
    assert(nibble(a, 5) == nibble(b, 5));
    assert(nibble(a, 6) == nibble(b, 6));
    assert(nibble(a, 7) == nibble(b, 7));
    assert(nibble(a, 8) == nibble(b, 8));
    assert(nibble(a, 9) == nibble(b, 9));
    assert(nibble(a, 10) == nibble(b, 10));
    assert(nibble(a, 11) == nibble(b, 11));
    assert(nibble(a, 12) == nibble(b, 12));
    assert(nibble(a, 13) == nibble(b, 13));
    assert(nibble(a, 14) == nibble(b, 14));
    assert(nibble(a, 15) == nibble(b, 15));
    assert(nibble(a, 16) == nibble(b, 16));
    assert(nibble(a, 17) == nibble(b, 17));
    assert(nibble(a, 18) == nibble(b, 18));
    assert(nibble(a, 19) == nibble(b, 19));
    assert(nibble(a, 20) == nibble(b, 20));
    assert(nibble(a, 21) == nibble(b, 21));
    assert(nibble(a, 22) == nibble(b, 22));
    assert(nibble(a, 23) == nibble(b, 23));
    assert(nibble(a, 24) == nibble(b, 24));
    assert(nibble(a, 25) == nibble(b, 25));
    assert(nibble(a, 26) == nibble(b, 26));
    assert(nibble(a, 27) == nibble(b, 27));
    assert(nibble(a, 28) == nibble(b, 28));
    assert(nibble(a, 29) == nibble(b, 29));
    assert(nibble(a, 30) == nibble(b, 30));
    assert(nibble(a, 31) == nibble(b, 31));
    lemma_nibbles_determine_value(a, b);
}

/// Two identities with the same 128-bit value are the same identity.
pub proof fn lemma_value_determines_id(a: ConnectionId, b: ConnectionId)
    requires
        a@ == b@,
    ensures
        a == b,
{
}

/// Distinct identities greet their clients with distinct texts.
pub proof fn lemma_distinct_ids_distinct_texts(a: ConnectionId, b: ConnectionId)
    requires
        a != b,
    ensures
        a.text() != b.text(),
{
    if a.text() == b.text() {
        lemma_text_injective(a@, b@);
    }
}

} // verus!
