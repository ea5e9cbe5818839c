//! Opaque, kind-tagged identifiers handed to clients.
//!
//! An identifier is written as a two-letter tag naming the kind of entity,
//! followed by sixteen lowercase hexadecimal digits. The digits do not show
//! the raw key itself but its product with an odd constant modulo 2^64, so
//! that consecutive keys give unrelated tokens; multiplying by the inverse
//! constant gives the key back. Decoding checks the tag against the kind the
//! caller expects, so a key of one kind of entity can never be passed off as a
//! key of another.
use vstd::prelude::*;
use vstd::arithmetic::div_mod::lemma_breakdown;

verus! {

/// The kinds of entity that identifiers can refer to.
#[derive(PartialEq, Eq, Structural, Clone, Copy, Debug)]
pub enum Kind {
    Realm,
    Event,
}

/// Why a client-supplied identifier was not accepted.
#[derive(PartialEq, Eq, Structural, Clone, Copy, Debug)]
pub enum IdError {
    /// The token is not an identifier at all.
    Malformed,
    /// The token is an identifier, but of another kind than expected.
    KindMismatch,
}

/// Number of hexadecimal digits that carry the key.
pub const KEY_DIGITS: usize = 16;

/// Total length of an identifier token: tag plus key digits.
pub const TOKEN_LEN: usize = 18;

/// Odd multiplier that spreads consecutive keys over the whole range.
pub const KEY_SPREAD: u64 = 0x9e37_79b9_7f4a_7c15;

/// The inverse of `KEY_SPREAD` modulo 2^64.
pub const KEY_GATHER: u64 = 0xf1de_83e1_9937_733d;

/// Product modulo 2^64.
pub open spec fn mul_wrap(x: u64, y: u64) -> u64 {
    ((x as nat * y as nat) % 0x1_0000_0000_0000_0000) as u64
}

proof fn lemma_gather_spread(k: u64)
    ensures
        mul_wrap(mul_wrap(k, 0x9e37_79b9_7f4a_7c15), 0xf1de_83e1_9937_733d) == k,
{
    assert(mul_wrap(mul_wrap(k, 0x9e37_79b9_7f4a_7c15), 0xf1de_83e1_9937_733d) == k)
        by (bit_vector);
}

pub open spec fn tag_of(kind: Kind) -> Seq<char> {
    match kind {
        Kind::Realm => seq!['r', 'e'],
        Kind::Event => seq!['e', 'v'],
    }
}

pub open spec fn kind_of_tag(t: Seq<char>) -> Option<Kind> {
    if t == seq!['r', 'e'] {
        Some(Kind::Realm)
    } else if t == seq!['e', 'v'] {
        Some(Kind::Event)
    } else {
        None
    }
}

pub open spec fn hex_char(d: nat) -> char {
    if d < 10 {
        ('0' as nat + d) as char
    } else {
        ('a' as nat + (d - 10)) as char
    }
}

pub open spec fn is_hex_char(c: char) -> bool {
    ('0' <= c && c <= '9') || ('a' <= c && c <= 'f')
}

pub open spec fn hex_value_of(c: char) -> nat {
    if '0' <= c && c <= '9' {
        (c as nat - '0' as nat) as nat
    } else {
        (c as nat - 'a' as nat + 10) as nat
    }
}

/// The `len` lowest hexadecimal digits of `n`, most significant first.
pub open spec fn hex_digits(n: nat, len: nat) -> Seq<char>
    decreases len,
{
    if len == 0 {
        seq![]
    } else {
        hex_digits(n / 16, (len - 1) as nat).push(hex_char(n % 16))
    }
}

/// The number that a string of hexadecimal digits denotes.
pub open spec fn hex_value(s: Seq<char>) -> nat
    decreases s.len(),
{
    if s.len() == 0 {
        0
    } else {
        hex_value(s.drop_last()) * 16 + hex_value_of(s.last())
    }
}

pub open spec fn pow16(n: nat) -> nat
    decreases n,
{
    if n == 0 {
        1
    } else {
        16 * pow16((n - 1) as nat)
    }
}

/// The token that stands for `key` as an entity of `kind`.
pub open spec fn encoded(kind: Kind, key: u64) -> Seq<char> {
    tag_of(kind) + hex_digits(mul_wrap(key, KEY_SPREAD) as nat, KEY_DIGITS as nat)
}

/// What a token stands for, if it is an identifier at all.
pub open spec fn decoded(s: Seq<char>) -> Option<(Kind, u64)> {
    if s.len() == TOKEN_LEN && kind_of_tag(s.take(2)) is Some
        && (forall|i: int| 2 <= i < s.len() ==> is_hex_char(#[trigger] s[i])) {
        Some((kind_of_tag(s.take(2))->Some_0, mul_wrap(hex_value(s.skip(2)) as u64, KEY_GATHER)))
    } else {
        None
    }
}

/// What decoding `s` as an identifier of kind `expected` gives.
pub open spec fn decode_result(s: Seq<char>, expected: Kind) -> Result<u64, IdError> {
    match decoded(s) {
        None => Err(IdError::Malformed),
        Some((k, key)) => if k == expected {
            Ok(key)
        } else {
            Err(IdError::KindMismatch)
        },
    }
}

/// An identifier token as it travels to and from clients.
pub struct Id {
    token: String,
}

impl View for Id {
    type V = Seq<char>;

    closed spec fn view(&self) -> Seq<char> {
        self.token@
    }
}

/// Relies on String::push: the character is appended at the end.
#[verifier::external_body]
fn push_char(s: &mut String, c: char)
    ensures
        final(s)@ == old(s)@.push(c),
{
    s.push(c)
}

fn hex_digit_char(d: u64) -> (c: char)
    requires
        d < 16,
    ensures
        c == hex_char(d as nat),
{
    if d < 10 {
        ((('0' as u8) + (d as u8)) as char)
    } else {
        ((('a' as u8) + (d as u8 - 10)) as char)
    }
}

/// Appends the `len` lowest hexadecimal digits of `n`, most significant first.
fn push_hex_digits(s: &mut String, n: u64, len: usize)
    ensures
        final(s)@ == old(s)@ + hex_digits(n as nat, len as nat),
    decreases len,
{
    if len == 0 {
        assert(old(s)@ + hex_digits(n as nat, 0) =~= old(s)@);
    } else {
        push_hex_digits(s, n / 16, len - 1);
        push_char(s, hex_digit_char(n % 16));
        assert(old(s)@ + hex_digits(n as nat, len as nat) =~= old(s)@ + hex_digits(
            (n / 16) as nat,
            (len - 1) as nat,
        ) + seq![hex_char((n % 16) as nat)]);
    }
}

proof fn lemma_hex_char_roundtrip(d: nat)
    requires
        d < 16,
    ensures
        is_hex_char(hex_char(d)),
        hex_value_of(hex_char(d)) == d,
{
}

proof fn lemma_pow16_step(n: nat)
    ensures
        pow16(n + 1) == 16 * pow16(n),
        pow16(n) > 0,
    decreases n,
{
    if n > 0 {
        lemma_pow16_step((n - 1) as nat);
    }
}

proof fn lemma_pow16_mono(a: nat, b: nat)
    requires
        a <= b,
    ensures
        pow16(a) <= pow16(b),
    decreases b - a,
{
    lemma_pow16_step(a);
    if a < b {
        lemma_pow16_mono(a + 1, b);
    }
}

proof fn lemma_pow16_key_digits()
    ensures
        pow16(KEY_DIGITS as nat) == 0x1_0000_0000_0000_0000,
{
    reveal_with_fuel(pow16, 17);
}

proof fn lemma_hex_digits(n: nat, len: nat)
    ensures
        hex_digits(n, len).len() == len,
        forall|i: int| 0 <= i < len ==> is_hex_char(#[trigger] hex_digits(n, len)[i]),
        hex_value(hex_digits(n, len)) == n % pow16(len),
    decreases len,
{
    if len > 0 {
        let l1 = (len - 1) as nat;
        lemma_hex_digits(n / 16, l1);
        lemma_hex_char_roundtrip(n % 16);
        lemma_pow16_step(l1);
        let d = hex_digits(n, len);
        assert(d.drop_last() =~= hex_digits(n / 16, l1));
        assert(d.last() == hex_char(n % 16));
        lemma_breakdown(n as int, 16, pow16(l1) as int);
        assert(hex_value(d) == ((n / 16) % pow16(l1)) * 16 + n % 16);
        assert(((n / 16) % pow16(l1)) * 16 == 16 * ((n / 16) % pow16(l1))) by (nonlinear_arith);
    }
}

/// Encoding then decoding as the same kind gives the key back.
pub proof fn lemma_round_trip(kind: Kind, key: u64)
    ensures
        decoded(encoded(kind, key)) == Some((kind, key)),
        decode_result(encoded(kind, key), kind) == Ok::<u64, IdError>(key),
{
    let e = encoded(kind, key);
    let spread = mul_wrap(key, KEY_SPREAD);
    let h = hex_digits(spread as nat, KEY_DIGITS as nat);
    lemma_hex_digits(spread as nat, KEY_DIGITS as nat);
    lemma_gather_spread(key);
    lemma_pow16_key_digits();
    assert(e.take(2) =~= tag_of(kind));
    assert(e.skip(2) =~= h);
    assert forall|i: int| 2 <= i < e.len() implies is_hex_char(#[trigger] e[i]) by {
        assert(e[i] == h[i - 2]);
    }
}

/// Decoding an identifier as another kind than it was encoded with fails
/// with a kind mismatch.
pub proof fn lemma_kind_safety(kind: Kind, expected: Kind, key: u64)
    requires
        kind != expected,
    ensures
        decode_result(encoded(kind, key), expected) == Err::<u64, IdError>(IdError::KindMismatch),
{
    lemma_round_trip(kind, key);
}

impl Id {
    /// The identifier of the entity of kind `kind` whose raw key is `key`.
    pub fn encode(kind: Kind, key: u64) -> (r: Id)
        ensures
            r@ == encoded(kind, key),
    {
        let mut token = String::new();
        match kind {
            Kind::Realm => {
                push_char(&mut token, 'r');
                push_char(&mut token, 'e');
            },
            Kind::Event => {
                push_char(&mut token, 'e');
                push_char(&mut token, 'v');
            },
        }
        assert(token@ =~= tag_of(kind));
        push_hex_digits(&mut token, key.wrapping_mul(KEY_SPREAD), KEY_DIGITS);
        Id { token }
    }
}

fn hex_digit_value(c: char) -> (r: Option<u64>)
    ensures
        r is Some <==> is_hex_char(c),
        r is Some ==> r->Some_0 as nat == hex_value_of(c) && r->Some_0 < 16,
{
    if '0' <= c && c <= '9' {
        Some((c as u32 - '0' as u32) as u64)
    } else if 'a' <= c && c <= 'f' {
        Some((c as u32 - 'a' as u32 + 10) as u64)
    } else {
        None
    }
}

impl Id {
    /// Wraps a token received from a client; nothing is checked until it is
    /// decoded.
    pub fn from_token(token: String) -> (r: Id)
        ensures
            r@ == token@,
    {
        Id { token }
    }

    /// The token as it is sent to clients.
    pub fn as_str(&self) -> (r: &str)
        ensures
            r@ == self@,
    {
        self.token.as_str()
    }

    /// The raw key, if this identifier is well formed and of kind `expected`.
    pub fn decode(&self, expected: Kind) -> (r: Result<u64, IdError>)
        ensures
            r == decode_result(self@, expected),
    {
        let s = self.token.as_str();
        let ghost t = s@;
        if s.unicode_len() != TOKEN_LEN {
            return Err(IdError::Malformed);
        }
        let c0 = s.get_char(0);
        let c1 = s.get_char(1);
        assert(t.take(2) =~= seq![c0, c1]);
        let kind = if c0 == 'r' && c1 == 'e' {
            Kind::Realm
        } else if c0 == 'e' && c1 == 'v' {
            Kind::Event
        } else {
            assert(kind_of_tag(t.take(2)) is None);
            return Err(IdError::Malformed);
        };
        assert(kind_of_tag(t.take(2)) == Some(kind));
        let mut value: u64 = 0;
        let mut i: usize = 2;
        while i < TOKEN_LEN
            invariant
                2 <= i <= TOKEN_LEN,
                t == s@,
                t == self@,
                kind_of_tag(t.take(2)) == Some(kind),
                t.len() == TOKEN_LEN,
                forall|j: int| 2 <= j < i ==> is_hex_char(#[trigger] t[j]),
                value as nat == hex_value(t.subrange(2, i as int)),
                (value as nat) < pow16((i - 2) as nat),
            decreases TOKEN_LEN - i,
        {
            let c = s.get_char(i);
            match hex_digit_value(c) {
                None => {
                    assert(!is_hex_char(t[i as int]));
                    return Err(IdError::Malformed);
                },
                Some(d) => {
                    proof {
                        let p = t.subrange(2, i as int + 1);
                        assert(p.drop_last() =~= t.subrange(2, i as int));
                        lemma_pow16_step((i - 2) as nat);
                        lemma_pow16_mono((i - 1) as nat, KEY_DIGITS as nat);
                        lemma_pow16_key_digits();
                        assert(value * 16 + d < pow16((i - 2) as nat) * 16) by (nonlinear_arith)
                            requires
                                value < pow16((i - 2) as nat),
                                d < 16,
                        ;
                    }
                    value = value * 16 + d;
                    i = i + 1;
                },
            }
        }
        assert(t.subrange(2, TOKEN_LEN as int) =~= t.skip(2));
        if kind == expected {
            Ok(value.wrapping_mul(KEY_GATHER))
        } else {
            Err(IdError::KindMismatch)
        }
    }
}

} // verus!
