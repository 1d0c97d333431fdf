//! Byte-level building blocks for the bencode grammar: ASCII decimal
//! rendering and parsing, and byte-lexicographic ordering of raw keys.

use vstd::prelude::*;

verus! {

// ASCII bytes used by the bencode grammar.
pub const DIGIT_ZERO: u8 = 48;
pub const DIGIT_NINE: u8 = 57;
pub const COLON_BYTE: u8 = 58;
pub const MINUS_BYTE: u8 = 45;
pub const INT_MARK: u8 = 105;
pub const LIST_MARK: u8 = 108;
pub const DICT_MARK: u8 = 100;
pub const END_MARK: u8 = 101;
pub const PLUS_BYTE: u8 = 43;

/// Whether `b` is an ASCII decimal digit.
pub open spec fn is_digit_byte(b: u8) -> bool {
    DIGIT_ZERO <= b <= DIGIT_NINE
}

/// The numeric value of an ASCII digit byte.
pub open spec fn digit_value(b: u8) -> int {
    b - DIGIT_ZERO
}

/// The ASCII digit byte for `n % 10`.
pub open spec fn digit_byte(n: nat) -> u8 {
    (DIGIT_ZERO + n % 10) as u8
}

/// The shortest ASCII decimal rendering of `n`, most significant digit first.
pub open spec fn spec_dec_nat(n: nat) -> Seq<u8>
    decreases n,
{
    if n < 10 {
        seq![digit_byte(n)]
    } else {
        spec_dec_nat(n / 10).push(digit_byte(n % 10))
    }
}

/// The ASCII decimal rendering of a signed integer: a minus sign for a
/// negative value, then the digits of its magnitude.
pub open spec fn spec_dec_int(i: int) -> Seq<u8> {
    if i < 0 {
        seq![MINUS_BYTE] + spec_dec_nat((-i) as nat)
    } else {
        spec_dec_nat(i as nat)
    }
}

/// Whether every byte of `s` is an ASCII digit.
pub open spec fn all_digits(s: Seq<u8>) -> bool {
    forall|i: int| 0 <= i < s.len() ==> is_digit_byte(s[i])
}

/// The value of a sequence of ASCII digit bytes, most significant first.
/// An empty sequence counts as zero; callers demand at least one digit.
pub open spec fn parse_digits(s: Seq<u8>) -> int
    decreases s.len(),
{
    if s.len() == 0 {
        0
    } else {
        parse_digits(s.drop_last()) * 10 + digit_value(s.last())
    }
}

/// How many leading bytes of `s` are ASCII digits.
pub open spec fn digits_prefix_len(s: Seq<u8>) -> int
    decreases s.len(),
{
    if s.len() == 0 || !is_digit_byte(s[0]) {
        0
    } else {
        1 + digits_prefix_len(s.drop_first())
    }
}

/// Strict byte-lexicographic order on raw byte sequences: a proper prefix
/// comes first, otherwise the first differing byte decides.
pub open spec fn lex_lt(a: Seq<u8>, b: Seq<u8>) -> bool
    decreases a.len(),
{
    if b.len() == 0 {
        false
    } else if a.len() == 0 {
        true
    } else if a[0] < b[0] {
        true
    } else if a[0] > b[0] {
        false
    } else {
        lex_lt(a.drop_first(), b.drop_first())
    }
}

/// The decimal rendering of `n` is at least one digit, consists of digits
/// only, and parses back to `n`.
pub proof fn lemma_spec_dec_nat_props(n: nat)
    ensures
        spec_dec_nat(n).len() >= 1,
        all_digits(spec_dec_nat(n)),
        parse_digits(spec_dec_nat(n)) == n,
    decreases n,
{
    if n < 10 {
        let s = spec_dec_nat(n);
        assert(s =~= seq![digit_byte(n)]);
        assert(parse_digits(s.drop_last()) == 0) by {
            assert(s.drop_last() =~= Seq::<u8>::empty());
        }
        assert(digit_value(digit_byte(n)) == n);
    } else {
        lemma_spec_dec_nat_props(n / 10);
        let s0 = spec_dec_nat(n / 10);
        let s = spec_dec_nat(n);
        assert(s == s0.push(digit_byte(n % 10)));
        assert(s.drop_last() =~= s0);
        assert(s.last() == digit_byte(n % 10));
        assert(forall|i: int| 0 <= i < s.len() ==> is_digit_byte(s[i])) by {
            assert(forall|i: int| 0 <= i < s0.len() ==> s[i] == s0[i]);
        }
        assert(parse_digits(s) == (n / 10) * 10 + n % 10);
        assert((n / 10) * 10 + n % 10 == n) by (nonlinear_arith);
    }
}

/// The value of an all-digit sequence is non-negative.
pub proof fn lemma_parse_digits_nonneg(s: Seq<u8>)
    requires
        all_digits(s),
    ensures
        parse_digits(s) >= 0,
    decreases s.len(),
{
    if s.len() > 0 {
        assert(all_digits(s.drop_last())) by {
            assert(forall|i: int| 0 <= i < s.len() - 1 ==> s.drop_last()[i] == s[i]);
        }
        lemma_parse_digits_nonneg(s.drop_last());
        assert(parse_digits(s.drop_last()) * 10 >= 0);
    }
}

/// Reading only a prefix of an all-digit sequence never yields a larger
/// value than reading the whole of it.
pub proof fn lemma_parse_digits_take_le(s: Seq<u8>, j: int)
    requires
        all_digits(s),
        0 <= j <= s.len(),
    ensures
        parse_digits(s.take(j)) <= parse_digits(s),
    decreases s.len() - j,
{
    if j == s.len() {
        assert(s.take(j) =~= s);
    } else {
        let t = s.take(j + 1);
        assert(t.drop_last() =~= s.take(j));
        assert(t.last() == s[j]);
        assert(all_digits(s.take(j))) by {
            assert(forall|i: int| 0 <= i < j ==> s.take(j)[i] == s[i]);
        }
        lemma_parse_digits_nonneg(s.take(j));
        assert(parse_digits(s.take(j)) * 10 >= parse_digits(s.take(j))) by (nonlinear_arith)
            requires parse_digits(s.take(j)) >= 0;
        assert(parse_digits(t) >= parse_digits(s.take(j)));
        lemma_parse_digits_take_le(s, j + 1);
    }
}

/// If the first `k` bytes are digits and the byte after them (if any) is
/// not, then `k` is exactly the digit prefix length.
pub proof fn lemma_digits_prefix_len_is(s: Seq<u8>, k: int)
    requires
        0 <= k <= s.len(),
        forall|i: int| 0 <= i < k ==> is_digit_byte(s[i]),
        k == s.len() || !is_digit_byte(s[k]),
    ensures
        digits_prefix_len(s) == k,
    decreases k,
{
    if k == 0 {
    } else {
        let t = s.drop_first();
        assert(forall|i: int| 0 <= i < k - 1 ==> t[i] == s[i + 1]);
        lemma_digits_prefix_len_is(t, k - 1);
    }
}

/// Basic facts about the digit prefix: it lies within the sequence and
/// consists of digits.
pub proof fn lemma_digits_prefix_len_props(s: Seq<u8>)
    ensures
        0 <= digits_prefix_len(s) <= s.len(),
        forall|i: int| 0 <= i < digits_prefix_len(s) ==> is_digit_byte(s[i]),
    decreases s.len(),
{
    if s.len() > 0 && is_digit_byte(s[0]) {
        lemma_digits_prefix_len_props(s.drop_first());
        let k = digits_prefix_len(s);
        assert forall|i: int| 0 <= i < k implies is_digit_byte(s[i]) by {
            if i >= 1 {
                assert(s[i] == s.drop_first()[i - 1]);
            }
        }
    }
}

/// The lexicographic order is irreflexive.
pub proof fn lemma_lex_lt_irrefl(a: Seq<u8>)
    ensures
        !lex_lt(a, a),
    decreases a.len(),
{
    if a.len() > 0 {
        lemma_lex_lt_irrefl(a.drop_first());
    }
}

/// Two byte sequences are lexicographically comparable: one is smaller,
/// or they are equal.
pub proof fn lemma_lex_lt_connected(a: Seq<u8>, b: Seq<u8>)
    ensures
        lex_lt(a, b) || lex_lt(b, a) || a == b,
    decreases a.len(),
{
    if b.len() == 0 {
        if a.len() == 0 {
            assert(a =~= b);
        }
    } else if a.len() == 0 {
    } else if a[0] == b[0] {
        lemma_lex_lt_connected(a.drop_first(), b.drop_first());
        if !lex_lt(a, b) && !lex_lt(b, a) {
            assert(a.drop_first() == b.drop_first());
            assert(a =~= b) by {
                assert(forall|i: int| 1 <= i < a.len() ==> a[i] == a.drop_first()[i - 1]
                    && b[i] == b.drop_first()[i - 1]);
            }
        }
    }
}

/// The lexicographic order is transitive.
pub proof fn lemma_lex_lt_trans(a: Seq<u8>, b: Seq<u8>, c: Seq<u8>)
    requires
        lex_lt(a, b),
        lex_lt(b, c),
    ensures
        lex_lt(a, c),
    decreases a.len(),
{
    if a.len() == 0 {
    } else {
        // b and c are non-empty because something is below them.
        if a[0] == b[0] && b[0] == c[0] {
            lemma_lex_lt_trans(a.drop_first(), b.drop_first(), c.drop_first());
        }
    }
}

/// Renders `n` as its shortest ASCII decimal form.
pub fn u64_to_decimal(n: u64) -> (r: Vec<u8>)
    ensures
        r@ == spec_dec_nat(n as nat),
    decreases n,
{
    if n < 10 {
        let mut v: Vec<u8> = Vec::new();
        v.push(DIGIT_ZERO + (n as u8));
        proof {
            assert(v@ =~= seq![digit_byte(n as nat)]);
        }
        v
    } else {
        let mut v = u64_to_decimal(n / 10);
        v.push(DIGIT_ZERO + ((n % 10) as u8));
        proof {
            assert(v@ =~= spec_dec_nat((n as nat) / 10).push(digit_byte((n as nat) % 10)));
        }
        v
    }
}

/// Renders a signed integer: minus sign and magnitude for a negative value.
pub fn i64_to_decimal(n: i64) -> (r: Vec<u8>)
    ensures
        r@ == spec_dec_int(n as int),
{
    if n >= 0 {
        u64_to_decimal(n as u64)
    } else {
        let mag: u64 = ((-(n + 1)) as u64) + 1;
        proof {
            assert(mag as int == -(n as int));
        }
        let mut v: Vec<u8> = Vec::new();
        v.push(MINUS_BYTE);
        let mut d = u64_to_decimal(mag);
        v.append(&mut d);
        proof {
            assert(v@ =~= seq![MINUS_BYTE] + spec_dec_nat((-(n as int)) as nat));
        }
        v
    }
}

/// Whether two byte slices hold the same bytes.
pub fn bytes_eq(a: &[u8], b: &[u8]) -> (r: bool)
    ensures
        r == (a@ == b@),
{
    if a.len() != b.len() {
        return false;
    }
    let mut i: usize = 0;
    while i < a.len()
        invariant
            0 <= i <= a.len(),
            a@.len() == b@.len(),
            forall|j: int| 0 <= j < i ==> a@[j] == b@[j],
        decreases a.len() - i,
    {
        if a[i] != b[i] {
            return false;
        }
        i += 1;
    }
    proof {
        assert(a@ =~= b@);
    }
    true
}

/// Decides the strict byte-lexicographic order on two byte slices.
pub fn lex_lt_bytes(a: &[u8], b: &[u8]) -> (r: bool)
    ensures
        r == lex_lt(a@, b@),
{
    let mut i: usize = 0;
    proof {
        assert(a@.skip(0) =~= a@);
        assert(b@.skip(0) =~= b@);
    }
    loop
        invariant
            0 <= i <= a@.len(),
            i <= b@.len(),
            forall|j: int| 0 <= j < i ==> a@[j] == b@[j],
            lex_lt(a@, b@) == lex_lt(a@.skip(i as int), b@.skip(i as int)),
        decreases a@.len() - i,
    {
        if i >= b.len() {
            return false;
        }
        if i >= a.len() {
            return true;
        }
        let x = a[i];
        let y = b[i];
        if x < y {
            return true;
        }
        if x > y {
            return false;
        }
        proof {
            let sa = a@.skip(i as int);
            let sb = b@.skip(i as int);
            assert(sa.drop_first() =~= a@.skip(i + 1));
            assert(sb.drop_first() =~= b@.skip(i + 1));
        }
        i += 1;
    }
}

} // verus!
