//! Field elements of the BN254 scalar field and their canonical hex codec.
//!
//! A field element is held as exactly 32 big-endian bytes whose value is below
//! the field modulus, so equal values always have equal bytes and equal
//! canonical hex strings, which is what the pool uses as map keys.

use ark_ff::BigInteger;
use ark_ff::PrimeField;
use vstd::prelude::*;

verus! {

use vstd::arithmetic::div_mod::lemma_fundamental_div_mod_converse;
use vstd::arithmetic::div_mod::lemma_small_mod;
use vstd::string::StrSliceExecFns;
use vstd::string::StringExecFns;

broadcast use vstd::string::group_string_axioms;

/// The BN254 scalar-field modulus (about 2^254), written as
/// high half * 2^128 + low half.
pub open spec fn fe_modulus() -> nat {
    (0x30644e72e131a029b85045b68181585d * 0x10000000000000000 * 0x10000000000000000
        + 0x2833e84879b9709143e1f593f0000001) as nat
}

/// Value of a big-endian byte string as an unsigned integer.
pub open spec fn be_nat(s: Seq<u8>) -> nat
    decreases s.len(),
{
    if s.len() == 0 {
        0
    } else {
        (be_nat(s.drop_last()) * 256 + s.last()) as nat
    }
}

/// An element of the BN254 scalar field in canonical form.
pub struct Fe {
    pub bytes: Vec<u8>,
}

impl Fe {
    /// Canonical form: exactly 32 big-endian bytes, value below the modulus.
    pub open spec fn wf(&self) -> bool {
        self.bytes@.len() == 32 && be_nat(self.bytes@) < fe_modulus()
    }

    /// The integer value this element stands for.
    pub open spec fn val(&self) -> nat {
        be_nat(self.bytes@)
    }

    /// An exact copy.
    pub fn dup(&self) -> (r: Fe)
        ensures
            r.bytes@ == self.bytes@,
    {
        let mut out: Vec<u8> = Vec::new();
        let mut i: usize = 0;
        while i < self.bytes.len()
            invariant
                i <= self.bytes@.len(),
                out@ == self.bytes@.subrange(0, i as int),
            decreases self.bytes@.len() - i,
        {
            out.push(self.bytes[i]);
            i = i + 1;
        }
        proof {
            assert(out@ =~= self.bytes@);
        }
        Fe { bytes: out }
    }

    /// The all-zero element.
    pub fn zero() -> (r: Fe)
        ensures
            r.wf(),
            r.val() == 0,
    {
        let mut out: Vec<u8> = Vec::new();
        let mut i: usize = 0;
        while i < 32
            invariant
                i <= 32,
                out@.len() == i,
                forall|j: int| 0 <= j < i ==> out@[j] == 0u8,
                be_nat(out@) == 0,
            decreases 32 - i,
        {
            let ghost prev = out@;
            out.push(0u8);
            proof {
                assert(out@.drop_last() =~= prev);
            }
            i = i + 1;
        }
        Fe { bytes: out }
    }

    /// Whether this element is zero, decided on the canonical bytes.
    pub fn is_zero(&self) -> (r: bool)
        requires
            self.wf(),
        ensures
            r == (self.val() == 0),
    {
        let mut i: usize = 0;
        let mut all_zero: bool = true;
        while i < self.bytes.len()
            invariant
                self.wf(),
                i <= self.bytes@.len(),
                all_zero == forall|j: int| 0 <= j < i ==> self.bytes@[j] == 0u8,
            decreases self.bytes@.len() - i,
        {
            if self.bytes[i] != 0u8 {
                all_zero = false;
            }
            i = i + 1;
        }
        proof {
            lemma_be_nat_zero(self.bytes@);
        }
        all_zero
    }

    /// Whether two elements are equal, decided on the canonical bytes.
    pub fn same(&self, other: &Fe) -> (r: bool)
        requires
            self.wf(),
            other.wf(),
        ensures
            r == (self.bytes@ == other.bytes@),
    {
        let mut i: usize = 0;
        let mut eq: bool = true;
        while i < 32
            invariant
                self.wf(),
                other.wf(),
                i <= 32,
                eq == forall|j: int| 0 <= j < i ==> self.bytes@[j] == other.bytes@[j],
            decreases 32 - i,
        {
            if self.bytes[i] != other.bytes[i] {
                eq = false;
            }
            i = i + 1;
        }
        proof {
            if eq {
                assert(self.bytes@ =~= other.bytes@);
            }
        }
        eq
    }
}

/// A byte string is zero as an integer exactly when every byte is zero.
pub proof fn lemma_be_nat_zero(s: Seq<u8>)
    ensures
        (be_nat(s) == 0) == (forall|j: int| 0 <= j < s.len() ==> s[j] == 0u8),
    decreases s.len(),
{
    if s.len() > 0 {
        lemma_be_nat_zero(s.drop_last());
        if be_nat(s) == 0 {
            assert(forall|j: int| 0 <= j < s.len() - 1 ==> s[j] == s.drop_last()[j]);
        } else {
            if forall|j: int| 0 <= j < s.len() ==> s[j] == 0u8 {
                assert(forall|j: int| 0 <= j < s.len() - 1 ==> s.drop_last()[j] == s[j]);
                assert(be_nat(s.drop_last()) == 0);
                assert(s.last() == 0u8);
            }
        }
    }
}

/// Lowercase hex digit for a nibble value.
pub open spec fn hex_char_of_nibble(n: nat) -> char {
    if n == 0 { '0' } else if n == 1 { '1' } else if n == 2 { '2' } else if n == 3 { '3' }
    else if n == 4 { '4' } else if n == 5 { '5' } else if n == 6 { '6' } else if n == 7 { '7' }
    else if n == 8 { '8' } else if n == 9 { '9' } else if n == 10 { 'a' } else if n == 11 { 'b' }
    else if n == 12 { 'c' } else if n == 13 { 'd' } else if n == 14 { 'e' } else { 'f' }
}

/// Value of a hex digit character, both cases accepted; `None` for any other character.
pub open spec fn hex_digit_val(c: char) -> Option<u8> {
    if c == '0' { Some(0u8) } else if c == '1' { Some(1u8) } else if c == '2' { Some(2u8) }
    else if c == '3' { Some(3u8) } else if c == '4' { Some(4u8) } else if c == '5' { Some(5u8) }
    else if c == '6' { Some(6u8) } else if c == '7' { Some(7u8) } else if c == '8' { Some(8u8) }
    else if c == '9' { Some(9u8) } else if c == 'a' || c == 'A' { Some(10u8) }
    else if c == 'b' || c == 'B' { Some(11u8) } else if c == 'c' || c == 'C' { Some(12u8) }
    else if c == 'd' || c == 'D' { Some(13u8) } else if c == 'e' || c == 'E' { Some(14u8) }
    else if c == 'f' || c == 'F' { Some(15u8) } else { None }
}

pub open spec fn is_hex_digit(c: char) -> bool {
    hex_digit_val(c) is Some
}

/// Value of a string of hex digits as an unsigned integer.
pub open spec fn hex_nat(s: Seq<char>) -> nat
    decreases s.len(),
{
    if s.len() == 0 {
        0
    } else {
        (hex_nat(s.drop_last()) * 16 + (match hex_digit_val(s.last()) {
            Some(v) => v as nat,
            None => 0,
        })) as nat
    }
}

/// The hex digits of a byte string, two lowercase digits per byte.
pub open spec fn hex_chars_of_bytes(b: Seq<u8>) -> Seq<char>
    decreases b.len(),
{
    if b.len() == 0 {
        Seq::empty()
    } else {
        hex_chars_of_bytes(b.drop_last())
            + seq![hex_char_of_nibble((b.last() / 16) as nat), hex_char_of_nibble((b.last() % 16) as nat)]
    }
}

/// A string with one optional `0x` prefix removed.
pub open spec fn strip_hex_prefix(s: Seq<char>) -> Seq<char> {
    if s.len() >= 2 && s[0] == '0' && s[1] == 'x' {
        s.skip(2)
    } else {
        s
    }
}

/// A string the codec accepts: after stripping the prefix, one or more
/// hex digits and nothing else.
pub open spec fn valid_hex(s: Seq<char>) -> bool {
    &&& strip_hex_prefix(s).len() > 0
    &&& forall|k: int| 0 <= k < strip_hex_prefix(s).len() ==> is_hex_digit(strip_hex_prefix(s)[k])
}

/// Count of leading `'0'` characters.
pub open spec fn leading_zeros(s: Seq<char>) -> nat
    decreases s.len(),
{
    if s.len() == 0 {
        0
    } else if s[0] != '0' {
        0
    } else {
        1 + leading_zeros(s.drop_first())
    }
}

/// `0x`-prefixed hex of a byte string with leading zero digits removed,
/// but never fewer than `min_digits` digits kept.
pub open spec fn trimmed_hex_chars(b: Seq<u8>, min_digits: nat) -> Seq<char> {
    let full = hex_chars_of_bytes(b);
    let bound = (full.len() - min_digits) as nat;
    let cut: nat = if leading_zeros(full) <= bound { leading_zeros(full) } else { bound };
    seq!['0', 'x'] + full.skip(cut as int)
}

/// The canonical textual form of a field element's bytes: `0x` followed by
/// all 64 digits, leading zeros kept.
pub open spec fn canonical_hex_chars(b: Seq<u8>) -> Seq<char> {
    seq!['0', 'x'] + hex_chars_of_bytes(b)
}

/// Malformed hex input.
#[derive(Debug, PartialEq, Eq, Structural, Clone, Copy)]
pub struct ParseError;

/// Relies on `ark_ff::PrimeField::from_be_bytes_mod_order` for `ark_bn254::Fr`:
/// it interprets the bytes as a big-endian unsigned integer and reduces it
/// modulo the BN254 scalar-field modulus; `into_bigint().to_bytes_be()` then
/// yields the canonical 32 big-endian bytes of the reduced value.
#[verifier::external_body]
pub fn reduce_be_bytes(bytes: &Vec<u8>) -> (r: Fe)
    ensures
        r.wf(),
        r.val() == be_nat(bytes@) % fe_modulus(),
{
    let fr = ark_bn254::Fr::from_be_bytes_mod_order(bytes.as_slice());
    Fe { bytes: fr.into_bigint().to_bytes_be() }
}

/// One-character string for a nibble value.
fn hex_char_str(n: u8) -> (r: &'static str)
    requires
        n < 16,
    ensures
        r@ == seq![hex_char_of_nibble(n as nat)],
{
    if n == 0 { proof { reveal_strlit("0"); assert("0"@ =~= seq!['0']); } "0" }
    else if n == 1 { proof { reveal_strlit("1"); assert("1"@ =~= seq!['1']); } "1" }
    else if n == 2 { proof { reveal_strlit("2"); assert("2"@ =~= seq!['2']); } "2" }
    else if n == 3 { proof { reveal_strlit("3"); assert("3"@ =~= seq!['3']); } "3" }
    else if n == 4 { proof { reveal_strlit("4"); assert("4"@ =~= seq!['4']); } "4" }
    else if n == 5 { proof { reveal_strlit("5"); assert("5"@ =~= seq!['5']); } "5" }
    else if n == 6 { proof { reveal_strlit("6"); assert("6"@ =~= seq!['6']); } "6" }
    else if n == 7 { proof { reveal_strlit("7"); assert("7"@ =~= seq!['7']); } "7" }
    else if n == 8 { proof { reveal_strlit("8"); assert("8"@ =~= seq!['8']); } "8" }
    else if n == 9 { proof { reveal_strlit("9"); assert("9"@ =~= seq!['9']); } "9" }
    else if n == 10 { proof { reveal_strlit("a"); assert("a"@ =~= seq!['a']); } "a" }
    else if n == 11 { proof { reveal_strlit("b"); assert("b"@ =~= seq!['b']); } "b" }
    else if n == 12 { proof { reveal_strlit("c"); assert("c"@ =~= seq!['c']); } "c" }
    else if n == 13 { proof { reveal_strlit("d"); assert("d"@ =~= seq!['d']); } "d" }
    else if n == 14 { proof { reveal_strlit("e"); assert("e"@ =~= seq!['e']); } "e" }
    else { proof { reveal_strlit("f"); assert("f"@ =~= seq!['f']); } "f" }
}

/// Value of a hex digit character.
fn hex_char_val(c: char) -> (r: Option<u8>)
    ensures
        r == hex_digit_val(c),
{
    if c == '0' { Some(0u8) } else if c == '1' { Some(1u8) } else if c == '2' { Some(2u8) }
    else if c == '3' { Some(3u8) } else if c == '4' { Some(4u8) } else if c == '5' { Some(5u8) }
    else if c == '6' { Some(6u8) } else if c == '7' { Some(7u8) } else if c == '8' { Some(8u8) }
    else if c == '9' { Some(9u8) } else if c == 'a' || c == 'A' { Some(10u8) }
    else if c == 'b' || c == 'B' { Some(11u8) } else if c == 'c' || c == 'C' { Some(12u8) }
    else if c == 'd' || c == 'D' { Some(13u8) } else if c == 'e' || c == 'E' { Some(14u8) }
    else if c == 'f' || c == 'F' { Some(15u8) } else { None }
}

/// Shape of the hex digits of a byte string: two digits per byte, every
/// character a hex digit, and the whole string worth the same integer.
pub proof fn lemma_hcb_props(b: Seq<u8>)
    ensures
        hex_chars_of_bytes(b).len() == 2 * b.len(),
        forall|i: int| 0 <= i < b.len() ==> hex_chars_of_bytes(b)[2 * i]
            == hex_char_of_nibble((b[i] / 16) as nat),
        forall|i: int| 0 <= i < b.len() ==> hex_chars_of_bytes(b)[2 * i + 1]
            == hex_char_of_nibble((b[i] % 16) as nat),
        forall|k: int| 0 <= k < 2 * b.len() ==> is_hex_digit(hex_chars_of_bytes(b)[k]),
        hex_nat(hex_chars_of_bytes(b)) == be_nat(b),
    decreases b.len(),
{
    if b.len() > 0 {
        let b2 = b.drop_last();
        lemma_hcb_props(b2);
        let full = hex_chars_of_bytes(b);
        let part = hex_chars_of_bytes(b2);
        assert(forall|i: int| 0 <= i < b2.len() ==> b2[i] == b[i]);
        assert(full =~= part + seq![
            hex_char_of_nibble((b.last() / 16) as nat),
            hex_char_of_nibble((b.last() % 16) as nat),
        ]);
        let hi = (b.last() / 16) as nat;
        let lo = (b.last() % 16) as nat;
        assert(hex_digit_val(hex_char_of_nibble(hi)) == Some(hi as u8));
        assert(hex_digit_val(hex_char_of_nibble(lo)) == Some(lo as u8));
        assert(full.drop_last() =~= part + seq![hex_char_of_nibble(hi)]);
        assert(full.drop_last().drop_last() =~= part);
        assert(hex_nat(full.drop_last()) == hex_nat(part) * 16 + hi);
        assert(hex_nat(full) == (hex_nat(part) * 16 + hi) * 16 + lo);
        assert(b.last() == hi * 16 + lo);
        assert(hex_nat(full) == hex_nat(part) * 256 + b.last());
    }
}

/// A run of zero digits followed by the end or a nonzero digit pins
/// `leading_zeros` down.
proof fn lemma_leading_zeros_from(s: Seq<char>, k: nat)
    requires
        k <= s.len(),
        forall|j: int| 0 <= j < k ==> s[j] == '0',
        k == s.len() || s[k as int] != '0',
    ensures
        leading_zeros(s) == k,
    decreases s.len(),
{
    if s.len() == 0 {
    } else if s[0] != '0' {
        assert(k == 0);
    } else {
        assert(k >= 1);
        let s2 = s.drop_first();
        assert(forall|j: int| 0 <= j < k - 1 ==> s2[j] == s[j + 1]);
        lemma_leading_zeros_from(s2, (k - 1) as nat);
    }
}

/// The nibble a hex digit position of a byte string holds.
fn nibble_at(b: &Vec<u8>, k: usize) -> (r: u8)
    requires
        k < 2 * b@.len(),
        b@.len() <= 1000,
    ensures
        r < 16,
        hex_chars_of_bytes(b@)[k as int] == hex_char_of_nibble(r as nat),
{
    proof {
        lemma_hcb_props(b@);
    }
    let byte = b[k / 2];
    if k % 2 == 0 {
        proof {
            assert(k as int == 2 * (k as int / 2));
        }
        byte / 16
    } else {
        proof {
            assert(k as int == 2 * (k as int / 2) + 1);
        }
        byte % 16
    }
}

/// `0x`-prefixed hex of a byte string, leading zero digits removed but at
/// least `min_digits` digits kept; `min_digits` of 1 gives the minimal form,
/// `min_digits` equal to twice the byte count keeps every digit.
pub fn trimmed_hex(b: &Vec<u8>, min_digits: usize) -> (r: String)
    requires
        1 <= min_digits,
        min_digits <= 2 * b@.len(),
        b@.len() <= 1000,
    ensures
        r@ == trimmed_hex_chars(b@, min_digits as nat),
{
    proof {
        lemma_hcb_props(b@);
    }
    let ghost full = hex_chars_of_bytes(b@);
    let total: usize = 2 * b.len();
    let mut lz: usize = 0;
    let mut stop: bool = false;
    while !stop
        invariant
            b@.len() <= 1000,
            total == 2 * b@.len(),
            full == hex_chars_of_bytes(b@),
            full.len() == total,
            lz <= total,
            forall|j: int| 0 <= j < lz ==> full[j] == '0',
            stop ==> (lz == total || full[lz as int] != '0'),
        decreases 2 * (total - lz) + (if stop { 0int } else { 1int }),
    {
        if lz >= total {
            stop = true;
        } else {
            let nib = nibble_at(b, lz);
            if nib == 0 {
                lz = lz + 1;
            } else {
                proof {
                    assert(full[lz as int] == hex_char_of_nibble(0nat) ==> nib == 0);
                }
                stop = true;
            }
        }
    }
    proof {
        lemma_leading_zeros_from(full, lz as nat);
    }
    let bound: usize = total - min_digits;
    let cut: usize = if lz <= bound { lz } else { bound };
    let mut out = String::from_str("0x");
    proof {
        reveal_strlit("0x");
        assert("0x"@ =~= seq!['0', 'x']);
    }
    let mut k: usize = cut;
    while k < total
        invariant
            b@.len() <= 1000,
            total == 2 * b@.len(),
            full == hex_chars_of_bytes(b@),
            full.len() == total,
            cut <= k <= total,
            out@ == seq!['0', 'x'] + full.subrange(cut as int, k as int),
        decreases total - k,
    {
        let nib = nibble_at(b, k);
        out.append(hex_char_str(nib));
        proof {
            assert(full.subrange(cut as int, k + 1) =~= full.subrange(cut as int, k as int)
                + seq![full[k as int]]);
        }
        k = k + 1;
    }
    proof {
        assert(full.skip(cut as int) =~= full.subrange(cut as int, total as int));
        assert(out@ =~= trimmed_hex_chars(b@, min_digits as nat));
    }
    out
}

/// Canonical textual form of a field element: big-endian bytes, hex-encoded,
/// left-zero-padded to 64 digits, prefixed `0x` -- 66 characters in all.
pub fn to_canonical_hex(x: &Fe) -> (r: String)
    requires
        x.wf(),
    ensures
        r@ == canonical_hex_chars(x.bytes@),
        r@.len() == 66,
{
    proof {
        lemma_hcb_props(x.bytes@);
    }
    let r = trimmed_hex(&x.bytes, 64);
    proof {
        let full = hex_chars_of_bytes(x.bytes@);
        assert(full.skip(0) =~= full);
        assert(r@ =~= canonical_hex_chars(x.bytes@));
    }
    r
}

/// Parse a hex string into a field element: strip one optional `0x` prefix,
/// read the rest as a big-endian hex integer, and reduce it modulo the field
/// modulus.  Rejects empty digit strings and any non-hex character; an
/// out-of-range value is wrapped into the field, not rejected.
pub fn from_hex(s: &str) -> (r: Result<Fe, ParseError>)
    ensures
        r is Ok <==> valid_hex(s@),
        r matches Ok(fe) ==> fe.wf() && fe.val() == hex_nat(strip_hex_prefix(s@)) % fe_modulus(),
{
    let n = s.unicode_len();
    let mut start: usize = 0;
    if n >= 2 && s.get_char(0) == '0' && s.get_char(1) == 'x' {
        start = 2;
    }
    let ghost digits = strip_hex_prefix(s@);
    proof {
        assert(digits =~= s@.subrange(start as int, n as int));
    }
    if start >= n {
        return Err(ParseError);
    }
    let mut bytes: Vec<u8> = Vec::new();
    let mut i: usize = start;
    if (n - start) % 2 == 1 {
        let c = s.get_char(i);
        match hex_char_val(c) {
            None => {
                proof {
                    assert(digits[i - start] == s@[i as int]);
                    assert(!valid_hex(s@));
                }
                return Err(ParseError);
            },
            Some(v) => {
                bytes.push(v);
                proof {
                    assert(bytes@.drop_last() =~= Seq::<u8>::empty());
                    assert(s@.subrange(start as int, i + 1).drop_last()
                        =~= Seq::<char>::empty());
                    assert(s@.subrange(start as int, i + 1).last() == c);
                    assert(be_nat(Seq::<u8>::empty()) == 0);
                    assert(hex_nat(Seq::<char>::empty()) == 0);
                    assert(be_nat(bytes@) == v);
                    assert(hex_nat(s@.subrange(start as int, i + 1)) == v);
                }
                i = i + 1;
            },
        }
    }
    proof {
        if i == start {
            assert(s@.subrange(start as int, i as int) =~= Seq::<char>::empty());
        }
    }
    while i < n
        invariant
            start <= i <= n,
            n == s@.len(),
            (n - i) % 2 == 0,
            digits == strip_hex_prefix(s@),
            digits =~= s@.subrange(start as int, n as int),
            forall|j: int| start <= j < i ==> is_hex_digit(s@[j]),
            be_nat(bytes@) == hex_nat(s@.subrange(start as int, i as int)),
        decreases n - i,
    {
        let c1 = s.get_char(i);
        let c2 = s.get_char(i + 1);
        let v1 = match hex_char_val(c1) {
            None => {
                proof {
                    assert(digits[i - start] == s@[i as int]);
                    assert(!valid_hex(s@));
                }
                return Err(ParseError);
            },
            Some(v) => v,
        };
        let v2 = match hex_char_val(c2) {
            None => {
                proof {
                    assert(digits[i + 1 - start] == s@[i + 1]);
                    assert(!valid_hex(s@));
                }
                return Err(ParseError);
            },
            Some(v) => v,
        };
        let ghost old_bytes = bytes@;
        bytes.push(v1 * 16 + v2);
        proof {
            assert(bytes@.drop_last() =~= old_bytes);
            let p2 = s@.subrange(start as int, i + 2);
            let p1 = s@.subrange(start as int, i + 1);
            let p0 = s@.subrange(start as int, i as int);
            assert(p2.drop_last() =~= p1);
            assert(p1.drop_last() =~= p0);
            assert(p2.last() == c2);
            assert(p1.last() == c1);
            assert(be_nat(bytes@) == be_nat(old_bytes) * 256 + (v1 * 16 + v2));
            assert(hex_nat(p1) == hex_nat(p0) * 16 + v1);
            assert(hex_nat(p2) == hex_nat(p1) * 16 + v2);
            assert(be_nat(bytes@) == hex_nat(p2));
        }
        i = i + 2;
    }
    proof {
        assert(s@.subrange(start as int, n as int) =~= digits);
    }
    Ok(reduce_be_bytes(&bytes))
}

/// Equal-length byte strings worth the same integer are the same bytes.
pub proof fn lemma_be_nat_injective(a: Seq<u8>, b: Seq<u8>)
    requires
        a.len() == b.len(),
        be_nat(a) == be_nat(b),
    ensures
        a == b,
    decreases a.len(),
{
    if a.len() > 0 {
        lemma_fundamental_div_mod_converse(
            be_nat(a) as int, 256, be_nat(a.drop_last()) as int, a.last() as int);
        lemma_fundamental_div_mod_converse(
            be_nat(b) as int, 256, be_nat(b.drop_last()) as int, b.last() as int);
        assert(a.last() == b.last());
        lemma_be_nat_injective(a.drop_last(), b.drop_last());
        assert(a =~= a.drop_last() + seq![a.last()]);
        assert(b =~= b.drop_last() + seq![b.last()]);
        assert(a =~= b);
    } else {
        assert(a =~= b);
    }
}

/// Round trip: parsing the canonical hex of a field element yields exactly
/// the element back, its value untouched by the modular reduction.
pub proof fn lemma_hex_round_trip(x: Fe)
    requires
        x.wf(),
    ensures
        valid_hex(canonical_hex_chars(x.bytes@)),
        hex_nat(strip_hex_prefix(canonical_hex_chars(x.bytes@))) % fe_modulus() == x.val(),
{
    lemma_hcb_props(x.bytes@);
    let h = canonical_hex_chars(x.bytes@);
    let full = hex_chars_of_bytes(x.bytes@);
    assert(h.len() == 66);
    assert(h[0] == '0' && h[1] == 'x');
    assert(strip_hex_prefix(h) =~= full);
    assert(forall|k: int| 0 <= k < full.len() ==> is_hex_digit(full[k]));
    assert(hex_nat(full) == be_nat(x.bytes@));
    lemma_small_mod(x.val(), fe_modulus());
}

} // verus!
