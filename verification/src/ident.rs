//! Record identifiers.
//!
//! Every stored record instance is named by a 128-bit identifier.  The
//! backing engine sees identifiers rendered as unhyphenated 32-character
//! lowercase hex; callers may also hand in the conventional hyphenated
//! 36-character form.  The all-zero identifier is the reserved sentinel
//! meaning "no such entry".

use vstd::prelude::*;
use vstd::arithmetic::power::pow;
use vstd::arithmetic::power::lemma_pow_adds;
use vstd::arithmetic::div_mod::lemma_div_denominator;
use vstd::arithmetic::div_mod::lemma_fundamental_div_mod;
use crate::GlassError;

verus! {

/// A 128-bit identifier for one stored record instance.
#[derive(Clone, Copy, Debug, PartialEq, Eq, Structural)]
pub struct Id {
    pub value: u128,
}

/// The lowercase hex digit for a nibble value.
pub open spec fn nibble_char(d: int) -> char {
    if d == 0 { '0' } else if d == 1 { '1' } else if d == 2 { '2' } else if d == 3 { '3' }
    else if d == 4 { '4' } else if d == 5 { '5' } else if d == 6 { '6' } else if d == 7 { '7' }
    else if d == 8 { '8' } else if d == 9 { '9' } else if d == 10 { 'a' } else if d == 11 { 'b' }
    else if d == 12 { 'c' } else if d == 13 { 'd' } else if d == 14 { 'e' } else { 'f' }
}

/// The value of a hex digit, or -1 for any other character.  Both cases are
/// accepted on input; output is always lowercase.
pub open spec fn hex_val(c: char) -> int {
    if c == '0' { 0 } else if c == '1' { 1 } else if c == '2' { 2 } else if c == '3' { 3 }
    else if c == '4' { 4 } else if c == '5' { 5 } else if c == '6' { 6 } else if c == '7' { 7 }
    else if c == '8' { 8 } else if c == '9' { 9 }
    else if c == 'a' || c == 'A' { 10 } else if c == 'b' || c == 'B' { 11 }
    else if c == 'c' || c == 'C' { 12 } else if c == 'd' || c == 'D' { 13 }
    else if c == 'e' || c == 'E' { 14 } else if c == 'f' || c == 'F' { 15 }
    else { -1 }
}

pub open spec fn is_hex_digit(c: char) -> bool {
    hex_val(c) >= 0
}

pub open spec fn all_hex_digits(s: Seq<char>) -> bool {
    forall|i: int| 0 <= i < s.len() ==> is_hex_digit(#[trigger] s[i])
}

/// The numeric value of a big-endian sequence of hex digits.
pub open spec fn hex_seq_value(s: Seq<char>) -> int
    decreases s.len(),
{
    if s.len() == 0 {
        0
    } else {
        16 * hex_seq_value(s.drop_last()) + hex_val(s.last())
    }
}

/// The unhyphenated 32-character lowercase hex rendering of a value.
pub open spec fn spec_simple_of(v: u128) -> Seq<char> {
    Seq::new(32, |i: int| nibble_char((v as int / pow(16, (31 - i) as nat)) % 16))
}

/// Positions of the four hyphens in the 36-character rendering.
pub open spec fn is_hyphen_pos(i: int) -> bool {
    i == 8 || i == 13 || i == 18 || i == 23
}

/// How many hyphens precede position `i` of the hyphenated form.
pub open spec fn hyphens_before(i: int) -> int {
    if i <= 8 { 0 } else if i <= 13 { 1 } else if i <= 18 { 2 } else if i <= 23 { 3 } else { 4 }
}

/// The conventional hyphenated 36-character rendering of a value.
pub open spec fn spec_hyphenated_of(v: u128) -> Seq<char> {
    Seq::new(36, |i: int| if is_hyphen_pos(i) { '-' } else { spec_simple_of(v)[i - hyphens_before(i)] })
}

/// The first `i` characters of `s` with the characters at hyphen positions
/// dropped.
pub open spec fn stripped_prefix(s: Seq<char>, i: int) -> Seq<char>
    decreases i,
{
    if i <= 0 {
        Seq::empty()
    } else if is_hyphen_pos(i - 1) {
        stripped_prefix(s, i - 1)
    } else {
        stripped_prefix(s, i - 1).push(s[i - 1])
    }
}

/// Parse of the unhyphenated 32-character form.
pub open spec fn spec_parse_simple(s: Seq<char>) -> Option<Id> {
    if s.len() == 32 && all_hex_digits(s) {
        Some(Id { value: hex_seq_value(s) as u128 })
    } else {
        None
    }
}

/// Parse of the hyphenated 36-character form.
pub open spec fn spec_parse_hyphenated(s: Seq<char>) -> Option<Id> {
    if s.len() == 36 && s[8] == '-' && s[13] == '-' && s[18] == '-' && s[23] == '-' {
        spec_parse_simple(stripped_prefix(s, 36))
    } else {
        None
    }
}

/// Parse of either accepted identifier rendering.
pub open spec fn spec_parse_id(s: Seq<char>) -> Option<Id> {
    if s.len() == 32 {
        spec_parse_simple(s)
    } else {
        spec_parse_hyphenated(s)
    }
}

/// A sequence of hex digits of length `n` has a value below `16^n`.
pub proof fn lemma_hex_seq_value_bound(s: Seq<char>)
    requires
        all_hex_digits(s),
    ensures
        0 <= hex_seq_value(s) < pow(16, s.len()),
    decreases s.len(),
{
    lemma_pow16_facts();
    if s.len() == 0 {
    } else {
        assert(is_hex_digit(s[s.len() - 1]));
        assert(0 <= hex_val(s.last()) < 16);
        assert(all_hex_digits(s.drop_last())) by {
            assert(forall|i: int| 0 <= i < s.len() - 1 ==> s.drop_last()[i] == s[i]);
        }
        lemma_hex_seq_value_bound(s.drop_last());
        let p: int = pow(16, (s.len() - 1) as nat);
        assert(pow(16, s.len()) == 16 * p) by {
            lemma_pow_adds(16, (s.len() - 1) as nat, 1);
            lemma_pow16_facts();
        }
        assert(0 <= hex_val(s.last()) < 16);
        assert(16 * hex_seq_value(s.drop_last()) + hex_val(s.last()) < 16 * p) by (nonlinear_arith)
            requires
                hex_seq_value(s.drop_last()) < p,
                hex_val(s.last()) < 16,
        ;
        assert(0 <= 16 * hex_seq_value(s.drop_last())) by (nonlinear_arith)
            requires
                0 <= hex_seq_value(s.drop_last()),
        ;
    }
}

/// Reading the digit written for a nibble gives the nibble back.
pub proof fn lemma_hex_val_nibble(d: int)
    requires
        0 <= d < 16,
    ensures
        hex_val(nibble_char(d)) == d,
        is_hex_digit(nibble_char(d)),
{
}

/// The handful of powers of 16 that the renderings and parses lean on.
proof fn lemma_pow16_facts()
    ensures
        pow(16, 0) == 1,
        pow(16, 1) == 16,
        pow(16, 31) == 0x1000_0000_0000_0000_0000_0000_0000_0000,
        pow(16, 32) == 0x1_0000_0000_0000_0000_0000_0000_0000_0000,
{
    reveal_with_fuel(vstd::arithmetic::power::pow, 5);
    assert(pow(16, 4) == 0x10000);
    lemma_pow_adds(16, 4, 4);
    assert(pow(16, 8) == 0x1_0000_0000);
    lemma_pow_adds(16, 8, 8);
    assert(pow(16, 16) == 0x1_0000_0000_0000_0000);
    lemma_pow_adds(16, 16, 8);
    assert(pow(16, 24) == 0x1_0000_0000_0000_0000_0000_0000);
    lemma_pow_adds(16, 24, 4);
    assert(pow(16, 28) == 0x1_0000_0000_0000_0000_0000_0000_0000);
    lemma_pow_adds(16, 28, 2);
    assert(pow(16, 2) == 0x100);
    assert(pow(16, 30) == 0x100_0000_0000_0000_0000_0000_0000_0000);
    lemma_pow_adds(16, 30, 1);
    lemma_pow_adds(16, 16, 16);
}

/// The hex value of a prefix of the simple rendering is the corresponding
/// high part of the value.
proof fn lemma_simple_prefix_value(v: u128, n: int)
    requires
        0 <= n <= 32,
    ensures
        hex_seq_value(spec_simple_of(v).subrange(0, n)) == v as int / pow(16, (32 - n) as nat),
    decreases n,
{
    vstd::arithmetic::power::lemma_pow_positive(16, (32 - n) as nat);
    if n == 0 {
        lemma_pow16_facts();
        assert(v as int / pow(16, 32) == 0) by {
            vstd::arithmetic::div_mod::lemma_basic_div(v as int, pow(16, 32));
        }
    } else {
        lemma_simple_prefix_value(v, n - 1);
        let s = spec_simple_of(v).subrange(0, n);
        assert(s.drop_last() =~= spec_simple_of(v).subrange(0, n - 1));
        let q: int = v as int / pow(16, (32 - n) as nat);
        assert(s.last() == nibble_char(q % 16));
        assert(0 <= q % 16 < 16) by {
            vstd::arithmetic::div_mod::lemma_mod_bound(q, 16);
        }
        lemma_hex_val_nibble(q % 16);
        // v / 16^(33-n) == (v / 16^(32-n)) / 16
        assert(pow(16, (33 - n) as nat) == pow(16, (32 - n) as nat) * 16) by {
            lemma_pow_adds(16, (32 - n) as nat, 1);
            lemma_pow16_facts();
        }
        lemma_div_denominator(v as int, pow(16, (32 - n) as nat), 16);
        lemma_fundamental_div_mod(q, 16);
        assert(hex_seq_value(s) == 16 * (q / 16) + q % 16);
        assert(16 * (q / 16) + q % 16 == q);
    }
}

/// Every character of the simple rendering is a hex digit.
pub proof fn lemma_simple_of_is_hex(v: u128)
    ensures
        all_hex_digits(spec_simple_of(v)),
        spec_simple_of(v).len() == 32,
{
    assert forall|i: int| 0 <= i < 32 implies is_hex_digit(#[trigger] spec_simple_of(v)[i]) by {
        let q: int = v as int / pow(16, (31 - i) as nat);
        assert(0 <= q % 16 < 16) by {
            vstd::arithmetic::power::lemma_pow_positive(16, (31 - i) as nat);
            vstd::arithmetic::div_mod::lemma_mod_bound(q, 16);
        }
        lemma_hex_val_nibble(q % 16);
    }
}

/// Rendering a value and parsing the result gives the value back.
pub proof fn lemma_simple_round_trip(v: u128)
    ensures
        spec_parse_simple(spec_simple_of(v)) == Some(Id { value: v }),
{
    lemma_simple_of_is_hex(v);
    lemma_simple_prefix_value(v, 32);
    assert(spec_simple_of(v).subrange(0, 32) =~= spec_simple_of(v));
    lemma_pow16_facts();
    assert(v as int / 1 == v as int) by {
        vstd::arithmetic::div_mod::lemma_div_basics(v as int);
    }
}

/// `stripped_prefix` over a stretch with no hyphen positions appends that
/// stretch unchanged.
proof fn lemma_stripped_segment(s: Seq<char>, a: int, b: int)
    requires
        0 <= a <= b <= s.len(),
        forall|j: int| a <= j < b ==> !is_hyphen_pos(j),
    ensures
        stripped_prefix(s, b) =~= stripped_prefix(s, a) + s.subrange(a, b),
    decreases b - a,
{
    if a == b {
    } else {
        lemma_stripped_segment(s, a, b - 1);
        assert(s.subrange(a, b) =~= s.subrange(a, b - 1).push(s[b - 1]));
    }
}

/// Stripping the hyphenated rendering gives the simple rendering.
pub proof fn lemma_strip_hyphenated(v: u128)
    ensures
        stripped_prefix(spec_hyphenated_of(v), 36) =~= spec_simple_of(v),
{
    let h = spec_hyphenated_of(v);
    lemma_stripped_segment(h, 0, 8);
    assert(stripped_prefix(h, 9) == stripped_prefix(h, 8));
    lemma_stripped_segment(h, 9, 13);
    assert(stripped_prefix(h, 14) == stripped_prefix(h, 13));
    lemma_stripped_segment(h, 14, 18);
    assert(stripped_prefix(h, 19) == stripped_prefix(h, 18));
    lemma_stripped_segment(h, 19, 23);
    assert(stripped_prefix(h, 24) == stripped_prefix(h, 23));
    lemma_stripped_segment(h, 24, 36);
    assert(stripped_prefix(h, 0) =~= Seq::<char>::empty());
}

/// Rendering hyphenated and parsing gives the value back.
pub proof fn lemma_hyphenated_round_trip(v: u128)
    ensures
        spec_parse_hyphenated(spec_hyphenated_of(v)) == Some(Id { value: v }),
{
    lemma_strip_hyphenated(v);
    lemma_simple_round_trip(v);
}

impl Id {
    /// The reserved all-zero sentinel identifier.
    pub open spec fn spec_nil() -> Id {
        Id { value: 0 }
    }

    /// The reserved all-zero sentinel identifier.
    pub fn nil() -> (r: Id)
        ensures
            r == Id::spec_nil(),
    {
        Id { value: 0 }
    }

    pub open spec fn is_nil(self) -> bool {
        self.value == 0
    }

    /// A freshly generated random identifier.
    ///
    /// Relies on `uuid::Uuid::new_v4`, which returns a random version-4
    /// UUID; the version nibble (bits 76..80 of the 128-bit value) is
    /// documented to be 4, so the result is never the nil sentinel.  The
    /// call inherits uuid's abort if the operating system's random source
    /// fails — an environmental failure, like running out of memory, that
    /// no precondition can exclude.
    #[verifier::external_body]
    pub fn fresh() -> (r: Id)
        ensures
            (r.value >> 76) & 0xf == 4,
    {
        Id { value: uuid::Uuid::new_v4().as_u128() }
    }

    /// A generated identifier is never the sentinel.
    pub proof fn lemma_fresh_not_nil(r: Id)
        requires
            (r.value >> 76) & 0xf == 4,
        ensures
            !r.is_nil(),
    {
        assert(((0u128 >> 76) & 0xf) == 0) by (bit_vector);
    }

    /// Render as 32 lowercase hex characters, no hyphens.
    pub fn to_simple(&self) -> (r: String)
        ensures
            r@ == spec_simple_of(self.value),
    {
        let digits: Vec<u8> = nibbles_of(self.value);
        let mut out: String = String::new();
        let mut j: usize = 0;
        while j < 32
            invariant
                digits@.len() == 32,
                forall|k: int| 0 <= k < 32 ==> #[trigger] digits@[k] as int
                    == (self.value as int / pow(16, k as nat)) % 16,
                0 <= j <= 32,
                out@ =~= spec_simple_of(self.value).subrange(0, j as int),
            decreases 32 - j,
        {
            let d: u8 = digits[31 - j];
            out.append(nibble_str(d));
            proof {
                assert(spec_simple_of(self.value).subrange(0, j + 1)
                    =~= spec_simple_of(self.value).subrange(0, j as int).push(nibble_char(d as int)));
            }
            j += 1;
        }
        proof {
            assert(spec_simple_of(self.value).subrange(0, 32) =~= spec_simple_of(self.value));
        }
        out
    }

    /// Render as the conventional 36-character hyphenated form.
    pub fn to_hyphenated(&self) -> (r: String)
        ensures
            r@ == spec_hyphenated_of(self.value),
    {
        let digits: Vec<u8> = nibbles_of(self.value);
        let mut out: String = String::new();
        let mut j: usize = 0;
        while j < 36
            invariant
                digits@.len() == 32,
                forall|k: int| 0 <= k < 32 ==> #[trigger] digits@[k] as int
                    == (self.value as int / pow(16, k as nat)) % 16,
                0 <= j <= 36,
                out@ =~= spec_hyphenated_of(self.value).subrange(0, j as int),
            decreases 36 - j,
        {
            let ghost target = spec_hyphenated_of(self.value);
            if j == 8 || j == 13 || j == 18 || j == 23 {
                out.append("-");
                proof {
                    reveal_strlit("-");
                    assert(target.subrange(0, j + 1) =~= target.subrange(0, j as int).push('-'));
                    assert(out@ =~= target.subrange(0, j + 1));
                }
            } else {
                let p: usize = if j < 8 { j } else if j < 13 { j - 1 } else if j < 18 { j - 2 }
                    else if j < 23 { j - 3 } else { j - 4 };
                let d: u8 = digits[31 - p];
                out.append(nibble_str(d));
                proof {
                    assert(target[j as int] == nibble_char(d as int));
                    assert(target.subrange(0, j + 1)
                        =~= target.subrange(0, j as int).push(nibble_char(d as int)));
                    assert(out@ =~= target.subrange(0, j + 1));
                }
            }
            j += 1;
        }
        proof {
            assert(spec_hyphenated_of(self.value).subrange(0, 36) =~= spec_hyphenated_of(self.value));
        }
        out
    }

    /// Parse an identifier from either accepted rendering.  Returns
    /// `MalformedIdentifier` exactly when the string is neither a
    /// 32-character hex string nor a hyphenated 36-character hex string.
    pub fn parse(s: &str) -> (r: Result<Id, GlassError>)
        ensures
            match r {
                Ok(id) => spec_parse_id(s@) == Some(id),
                Err(e) => spec_parse_id(s@) is None && e == GlassError::MalformedIdentifier,
            },
    {
        let n: usize = s.unicode_len();
        if n == 32 {
            match parse_simple_chars(s) {
                Some(id) => Ok(id),
                None => Err(GlassError::MalformedIdentifier),
            }
        } else if n == 36 {
            match parse_hyphenated_chars(s) {
                Some(id) => Ok(id),
                None => Err(GlassError::MalformedIdentifier),
            }
        } else {
            Err(GlassError::MalformedIdentifier)
        }
    }
}

/// The 32 nibbles of a value, least significant first.
fn nibbles_of(v: u128) -> (r: Vec<u8>)
    ensures
        r@.len() == 32,
        forall|k: int| 0 <= k < 32 ==> #[trigger] r@[k] as int == (v as int / pow(16, k as nat)) % 16,
{
    let mut digits: Vec<u8> = Vec::new();
    let mut x: u128 = v;
    let mut k: usize = 0;
    proof {
        lemma_pow16_facts();
        vstd::arithmetic::div_mod::lemma_div_basics(v as int);
    }
    while k < 32
        invariant
            0 <= k <= 32,
            digits@.len() == k,
            x as int == v as int / pow(16, k as nat),
            forall|i: int| 0 <= i < k ==> #[trigger] digits@[i] as int
                == (v as int / pow(16, i as nat)) % 16,
        decreases 32 - k,
    {
        proof {
            vstd::arithmetic::power::lemma_pow_positive(16, k as nat);
        }
        let d: u8 = (x % 16) as u8;
        digits.push(d);
        x = x / 16;
        proof {
            assert(pow(16, (k + 1) as nat) == pow(16, k as nat) * 16) by {
                lemma_pow_adds(16, k as nat, 1);
                lemma_pow16_facts();
            }
            lemma_div_denominator(v as int, pow(16, k as nat), 16);
        }
        k += 1;
    }
    digits
}

/// The one-character string for a nibble value.
fn nibble_str(d: u8) -> (r: &'static str)
    ensures
        r@.len() == 1,
        r@[0] == nibble_char(d as int % 16),
{
    proof {
        reveal_strlit("0");
        reveal_strlit("1");
        reveal_strlit("2");
        reveal_strlit("3");
        reveal_strlit("4");
        reveal_strlit("5");
        reveal_strlit("6");
        reveal_strlit("7");
        reveal_strlit("8");
        reveal_strlit("9");
        reveal_strlit("a");
        reveal_strlit("b");
        reveal_strlit("c");
        reveal_strlit("d");
        reveal_strlit("e");
        reveal_strlit("f");
    }
    match d % 16 {
        0 => "0",
        1 => "1",
        2 => "2",
        3 => "3",
        4 => "4",
        5 => "5",
        6 => "6",
        7 => "7",
        8 => "8",
        9 => "9",
        10 => "a",
        11 => "b",
        12 => "c",
        13 => "d",
        14 => "e",
        _ => "f",
    }
}

/// The value of a hex digit character, or `None` for any other character.
fn hex_digit_val(c: char) -> (r: Option<u8>)
    ensures
        match r {
            Some(d) => is_hex_digit(c) && d as int == hex_val(c),
            None => !is_hex_digit(c),
        },
{
    if c == '0' { Some(0) } else if c == '1' { Some(1) } else if c == '2' { Some(2) }
    else if c == '3' { Some(3) } else if c == '4' { Some(4) } else if c == '5' { Some(5) }
    else if c == '6' { Some(6) } else if c == '7' { Some(7) } else if c == '8' { Some(8) }
    else if c == '9' { Some(9) } else if c == 'a' || c == 'A' { Some(10) }
    else if c == 'b' || c == 'B' { Some(11) } else if c == 'c' || c == 'C' { Some(12) }
    else if c == 'd' || c == 'D' { Some(13) } else if c == 'e' || c == 'E' { Some(14) }
    else if c == 'f' || c == 'F' { Some(15) } else { None }
}

/// Parse a 32-character string of hex digits.
fn parse_simple_chars(s: &str) -> (r: Option<Id>)
    requires
        s@.len() == 32,
    ensures
        r == spec_parse_simple(s@),
{
    let mut v: u128 = 0;
    let mut i: usize = 0;
    while i < 32
        invariant
            s@.len() == 32,
            0 <= i <= 32,
            all_hex_digits(s@.subrange(0, i as int)),
            v as int == hex_seq_value(s@.subrange(0, i as int)),
        decreases 32 - i,
    {
        let c: char = s.get_char(i);
        match hex_digit_val(c) {
            None => {
                proof {
                    assert(s@[i as int] == c);
                    assert(!is_hex_digit(s@[i as int]));
                    assert(!all_hex_digits(s@));
                }
                return None;
            }
            Some(d) => {
                proof {
                    let pre = s@.subrange(0, i as int);
                    lemma_hex_seq_value_bound(pre);
                    assert(pow(16, i as nat) <= pow(16, 31nat)) by {
                        if i < 31 {
                            vstd::arithmetic::power::lemma_pow_increases(16, i as nat, 31nat);
                        }
                    }
                    lemma_pow16_facts();
                    assert(s@.subrange(0, i + 1).drop_last() =~= pre);
                }
                v = v * 16 + (d as u128);
                proof {
                    assert(all_hex_digits(s@.subrange(0, i + 1))) by {
                        let ext = s@.subrange(0, i + 1);
                        assert(forall|j: int| 0 <= j < i ==> ext[j] == s@.subrange(0, i as int)[j]);
                        assert(ext[i as int] == c);
                    }
                }
                i += 1;
            }
        }
    }
    proof {
        assert(s@.subrange(0, 32) =~= s@);
        lemma_hex_seq_value_bound(s@);
        lemma_pow16_facts();
    }
    Some(Id { value: v })
}

/// Parse the hyphenated 36-character form.
fn parse_hyphenated_chars(s: &str) -> (r: Option<Id>)
    requires
        s@.len() == 36,
    ensures
        r == spec_parse_hyphenated(s@),
{
    let d8: char = s.get_char(8);
    let d13: char = s.get_char(13);
    let d18: char = s.get_char(18);
    let d23: char = s.get_char(23);
    if !(d8 == '-' && d13 == '-' && d18 == '-' && d23 == '-') {
        return None;
    }
    let mut v: u128 = 0;
    let mut i: usize = 0;
    while i < 36
        invariant
            s@.len() == 36,
            0 <= i <= 36,
            all_hex_digits(stripped_prefix(s@, i as int)),
            v as int == hex_seq_value(stripped_prefix(s@, i as int)),
            stripped_prefix(s@, i as int).len() == i - hyphens_before(i as int),
        decreases 36 - i,
    {
        if i == 8 || i == 13 || i == 18 || i == 23 {
            proof {
                assert(stripped_prefix(s@, i + 1) == stripped_prefix(s@, i as int));
            }
            i += 1;
        } else {
            let c: char = s.get_char(i);
            match hex_digit_val(c) {
                None => {
                    proof {
                        let full = stripped_prefix(s@, 36);
                        let pre = stripped_prefix(s@, i + 1);
                        assert(pre == stripped_prefix(s@, i as int).push(s@[i as int]));
                        let k: int = pre.len() - 1;
                        assert(pre[k] == c);
                        lemma_stripped_extends(s@, i + 1, 36);
                        assert(full.subrange(0, pre.len() as int)[k] == full[k]);
                        assert(full[k] == c);
                        assert(!is_hex_digit(full[k]));
                        assert(!all_hex_digits(full));
                    }
                    return None;
                }
                Some(d) => {
                    proof {
                        let pre = stripped_prefix(s@, i as int);
                        lemma_hex_seq_value_bound(pre);
                        assert(pre.len() <= 31);
                        assert(pow(16, pre.len()) <= pow(16, 31nat)) by {
                            if pre.len() < 31 {
                                vstd::arithmetic::power::lemma_pow_increases(16, pre.len(), 31nat);
                            }
                        }
                        lemma_pow16_facts();
                        assert(stripped_prefix(s@, i + 1) == pre.push(s@[i as int]));
                        assert(pre.push(s@[i as int]).drop_last() =~= pre);
                        assert(pre.push(s@[i as int]).last() == c);
                        assert(forall|j: int| 0 <= j < pre.len()
                            ==> #[trigger] pre.push(s@[i as int])[j] == pre[j]);
                    }
                    v = v * 16 + (d as u128);
                    i += 1;
                }
            }
        }
    }
    proof {
        lemma_hex_seq_value_bound(stripped_prefix(s@, 36));
        lemma_pow16_facts();
        assert(stripped_prefix(s@, 36).len() == 32);
    }
    Some(Id { value: v })
}

/// A prefix of the stripped sequence is a prefix of the full stripped
/// sequence.
proof fn lemma_stripped_extends(s: Seq<char>, a: int, b: int)
    requires
        0 <= a <= b,
    ensures
        stripped_prefix(s, a) =~= stripped_prefix(s, b).subrange(0, stripped_prefix(s, a).len() as int),
        stripped_prefix(s, a).len() <= stripped_prefix(s, b).len(),
    decreases b - a,
{
    if a == b {
    } else {
        lemma_stripped_extends(s, a, b - 1);
    }
}

} // verus!
