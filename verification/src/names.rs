//! Byte-level helpers for file names: classifying decimal digits, reading
//! and writing decimal numbers, and locating the separator characters that
//! the collector and the normalizer split names at.

use vstd::prelude::*;

verus! {

/// The separator between a name's prefix and the rest of the name.
pub const SEP: u8 = 45;

/// The dot that separates a name's stem from its extension.
pub const DOT: u8 = 46;

/// The underscore inserted before a collision counter.
pub const UNDERSCORE: u8 = 95;

/// The zero character, used both as a digit and for padding.
pub const ZERO: u8 = 48;

/// The plus sign that may precede a decimal number.
pub const PLUS: u8 = 43;

pub open spec fn is_digit(b: u8) -> bool {
    ZERO <= b && b <= 57
}

pub open spec fn digit_val(b: u8) -> nat {
    if is_digit(b) {
        (b - ZERO) as nat
    } else {
        0
    }
}

pub open spec fn is_digit_seq(s: Seq<u8>) -> bool {
    forall|i: int| 0 <= i < s.len() ==> is_digit(#[trigger] s[i])
}

/// The value of a sequence of decimal digits, most significant first.
pub open spec fn digits_value(s: Seq<u8>) -> nat
    decreases s.len(),
{
    if s.len() == 0 {
        0
    } else {
        10 * digits_value(s.drop_last()) + digit_val(s.last())
    }
}

/// The decimal digits of `n`, most significant first, without leading zeros.
pub open spec fn dec_digits(n: nat) -> Seq<u8>
    decreases n,
{
    if n < 10 {
        seq![(ZERO + n) as u8]
    } else {
        dec_digits(n / 10).push((ZERO + n % 10) as u8)
    }
}

pub open spec fn pow10(k: nat) -> nat
    decreases k,
{
    if k == 0 {
        1
    } else {
        10 * pow10((k - 1) as nat)
    }
}

/// A run of `k` zero characters.
pub open spec fn zeros(k: nat) -> Seq<u8> {
    Seq::new(k, |i: int| ZERO)
}

/// `s` left-padded with zero characters to width 3; longer inputs are kept.
pub open spec fn zero_pad3(s: Seq<u8>) -> Seq<u8> {
    if s.len() >= 3 {
        s
    } else {
        zeros((3 - s.len()) as nat) + s
    }
}

/// A UTF-8 continuation byte: one that continues an earlier character.
pub open spec fn is_cont_byte(b: u8) -> bool {
    128 <= b && b <= 191
}

/// How many characters a valid UTF-8 byte string holds: the number of its
/// bytes that start a character.
pub open spec fn char_count(s: Seq<u8>) -> nat
    decreases s.len(),
{
    if s.len() == 0 {
        0
    } else {
        char_count(s.drop_last()) + (if is_cont_byte(s.last()) {
            0nat
        } else {
            1nat
        })
    }
}

/// `s` left-padded with zero characters to a width of three characters;
/// wider inputs are kept.
pub open spec fn zero_pad3_chars(s: Seq<u8>) -> Seq<u8> {
    if char_count(s) >= 3 {
        s
    } else {
        zeros((3 - char_count(s)) as nat) + s
    }
}

/// The index of the first separator in `s`, or `s.len()` if there is none.
pub open spec fn sep_index(s: Seq<u8>) -> int
    decreases s.len(),
{
    if s.len() == 0 {
        0
    } else if s[0] == SEP {
        0
    } else {
        1 + sep_index(s.subrange(1, s.len() as int))
    }
}

/// The index of the last dot in `s`, or `-1` if there is none.
pub open spec fn last_dot(s: Seq<u8>) -> int
    decreases s.len(),
{
    if s.len() == 0 {
        -1
    } else if s.last() == DOT {
        s.len() - 1
    } else {
        last_dot(s.drop_last())
    }
}

pub proof fn lemma_sep_index(s: Seq<u8>)
    ensures
        0 <= sep_index(s) <= s.len(),
        sep_index(s) < s.len() ==> s[sep_index(s)] == SEP,
        forall|j: int| 0 <= j < sep_index(s) ==> s[j] != SEP,
    decreases s.len(),
{
    if s.len() != 0 && s[0] != SEP {
        let t = s.subrange(1, s.len() as int);
        lemma_sep_index(t);
        assert forall|j: int| 0 <= j < sep_index(s) implies s[j] != SEP by {
            if j > 0 {
                assert(t[j - 1] == s[j]);
            }
        }
        if sep_index(s) < s.len() {
            assert(t[sep_index(s) - 1] == s[sep_index(s)]);
        }
    }
}

pub proof fn lemma_sep_index_is(s: Seq<u8>, i: int)
    requires
        0 <= i <= s.len(),
        forall|j: int| 0 <= j < i ==> s[j] != SEP,
        i < s.len() ==> s[i] == SEP,
    ensures
        sep_index(s) == i,
    decreases s.len(),
{
    if s.len() != 0 && s[0] != SEP {
        let t = s.subrange(1, s.len() as int);
        assert(i >= 1);
        assert forall|j: int| 0 <= j < i - 1 implies t[j] != SEP by {
            assert(t[j] == s[j + 1]);
        }
        if i - 1 < t.len() {
            assert(t[i - 1] == s[i]);
        }
        lemma_sep_index_is(t, i - 1);
    }
}

pub proof fn lemma_last_dot(s: Seq<u8>)
    ensures
        -1 <= last_dot(s) < s.len(),
        last_dot(s) >= 0 ==> s[last_dot(s)] == DOT,
        forall|j: int| last_dot(s) < j < s.len() ==> s[j] != DOT,
    decreases s.len(),
{
    if s.len() != 0 && s.last() != DOT {
        let t = s.drop_last();
        lemma_last_dot(t);
        assert forall|j: int| last_dot(s) < j < s.len() implies s[j] != DOT by {
            if j < s.len() - 1 {
                assert(t[j] == s[j]);
            }
        }
        if last_dot(s) >= 0 {
            assert(t[last_dot(s)] == s[last_dot(s)]);
        }
    }
}

proof fn lemma_last_dot_is(s: Seq<u8>, i: int)
    requires
        -1 <= i < s.len(),
        i >= 0 ==> s[i] == DOT,
        forall|j: int| i < j < s.len() ==> s[j] != DOT,
    ensures
        last_dot(s) == i,
    decreases s.len(),
{
    if s.len() != 0 {
        if s.last() == DOT {
            assert(i == s.len() - 1);
        } else {
            let t = s.drop_last();
            assert(i < s.len() - 1);
            if i >= 0 {
                assert(t[i] == s[i]);
            }
            assert forall|j: int| i < j < t.len() implies t[j] != DOT by {
                assert(t[j] == s[j]);
            }
            lemma_last_dot_is(t, i);
        }
    }
}

/// Reading back the digits of `n` gives `n`, and the digits are digits.
pub proof fn lemma_dec_digits(n: nat)
    ensures
        dec_digits(n).len() >= 1,
        is_digit_seq(dec_digits(n)),
        digits_value(dec_digits(n)) == n,
    decreases n,
{
    if n < 10 {
        let s = dec_digits(n);
        assert(s.drop_last() =~= Seq::<u8>::empty());
        assert(s.last() == (ZERO + n) as u8);
        assert(digits_value(Seq::<u8>::empty()) == 0);
        assert(digits_value(s) == 10 * digits_value(s.drop_last()) + digit_val(s.last()));
    } else {
        lemma_dec_digits(n / 10);
        vstd::arithmetic::div_mod::lemma_fundamental_div_mod(n as int, 10);
        let d = dec_digits(n / 10);
        let b = (ZERO + n % 10) as u8;
        assert(d.push(b).drop_last() =~= d);
        assert(d.push(b).last() == b);
        assert forall|i: int| 0 <= i < d.push(b).len() implies is_digit(#[trigger] d.push(b)[i]) by {
            if i < d.len() {
                assert(d.push(b)[i] == d[i]);
            }
        }
    }
}

/// A digit sequence of length `k` denotes a value below `10^k`.
pub proof fn lemma_digits_value_bound(s: Seq<u8>)
    ensures
        digits_value(s) < pow10(s.len()),
    decreases s.len(),
{
    if s.len() != 0 {
        lemma_digits_value_bound(s.drop_last());
        assert(digit_val(s.last()) <= 9);
    }
}

/// Taking more leading digits never shrinks the value read so far.
pub proof fn lemma_digits_value_mono(s: Seq<u8>, k: int, m: int)
    requires
        0 <= k <= m <= s.len(),
    ensures
        digits_value(s.take(k)) <= digits_value(s.take(m)),
    decreases m - k,
{
    if k < m {
        lemma_digits_value_mono(s, k, m - 1);
        assert(s.take(m).drop_last() =~= s.take(m - 1));
        assert(digits_value(s.take(m)) == 10 * digits_value(s.take(m - 1)) + digit_val(
            s.take(m).last(),
        ));
    }
}

pub proof fn lemma_zeros_value(k: nat)
    ensures
        digits_value(zeros(k)) == 0,
        is_digit_seq(zeros(k)),
    decreases k,
{
    if k > 0 {
        assert(zeros(k).drop_last() =~= zeros((k - 1) as nat));
        lemma_zeros_value((k - 1) as nat);
        assert(zeros(k).last() == ZERO);
    }
}

/// Leading zero characters do not change the value of a digit sequence.
pub proof fn lemma_value_prepend_zeros(k: nat, s: Seq<u8>)
    ensures
        digits_value(zeros(k) + s) == digits_value(s),
    decreases s.len(),
{
    if s.len() == 0 {
        assert(zeros(k) + s =~= zeros(k));
        lemma_zeros_value(k);
    } else {
        assert((zeros(k) + s).drop_last() =~= zeros(k) + s.drop_last());
        assert((zeros(k) + s).last() == s.last());
        lemma_value_prepend_zeros(k, s.drop_last());
    }
}

/// A string holds no more characters than bytes.
pub proof fn lemma_char_count_le_len(s: Seq<u8>)
    ensures
        char_count(s) <= s.len(),
    decreases s.len(),
{
    if s.len() != 0 {
        lemma_char_count_le_len(s.drop_last());
    }
}

proof fn lemma_char_count_zeros(k: nat)
    ensures
        char_count(zeros(k)) == k,
    decreases k,
{
    if k > 0 {
        assert(zeros(k).drop_last() =~= zeros((k - 1) as nat));
        lemma_char_count_zeros((k - 1) as nat);
        assert(!is_cont_byte(zeros(k).last()));
    }
}

/// Zero characters in front add one character each.
pub proof fn lemma_char_count_prepend_zeros(k: nat, s: Seq<u8>)
    ensures
        char_count(zeros(k) + s) == k + char_count(s),
    decreases s.len(),
{
    if s.len() == 0 {
        assert(zeros(k) + s =~= zeros(k));
        lemma_char_count_zeros(k);
    } else {
        assert((zeros(k) + s).drop_last() =~= zeros(k) + s.drop_last());
        assert((zeros(k) + s).last() == s.last());
        lemma_char_count_prepend_zeros(k, s.drop_last());
    }
}

/// The number of characters in `s[..end]`.
pub fn count_chars(s: &Vec<u8>, end: usize) -> (r: usize)
    requires
        end <= s@.len(),
    ensures
        r == char_count(s@.take(end as int)),
{
    let mut count: usize = 0;
    let mut i: usize = 0;
    while i < end
        invariant
            i <= end <= s@.len(),
            count <= i,
            count == char_count(s@.take(i as int)),
        decreases end - i,
    {
        let b = s[i];
        proof {
            assert(s@.take(i as int + 1).drop_last() =~= s@.take(i as int));
            assert(s@.take(i as int + 1).last() == s@[i as int]);
        }
        if b < 128 || b > 191 {
            count += 1;
        }
        i += 1;
    }
    count
}

/// Decimal digits of `n`, most significant first.
pub fn dec_of(n: u64) -> (r: Vec<u8>)
    ensures
        r@ == dec_digits(n as nat),
    decreases n,
{
    if n < 10 {
        let mut r: Vec<u8> = Vec::new();
        r.push(ZERO + n as u8);
        proof {
            assert(r@ =~= dec_digits(n as nat));
        }
        r
    } else {
        let mut r = dec_of(n / 10);
        r.push(ZERO + (n % 10) as u8);
        proof {
            assert(r@ =~= dec_digits(n as nat));
        }
        r
    }
}

/// The index of the first separator in `name`, or its length if none occurs.
pub fn find_sep(name: &Vec<u8>) -> (r: usize)
    ensures
        r == sep_index(name@),
        r <= name@.len(),
{
    let mut i: usize = 0;
    while i < name.len()
        invariant
            i <= name@.len(),
            forall|j: int| 0 <= j < i ==> name@[j] != SEP,
        decreases name@.len() - i,
    {
        if name[i] == SEP {
            proof {
                lemma_sep_index_is(name@, i as int);
            }
            return i;
        }
        i += 1;
    }
    proof {
        lemma_sep_index_is(name@, i as int);
    }
    i
}

/// The index of the last dot in `name`, if any.
pub fn find_last_dot(name: &Vec<u8>) -> (r: Option<usize>)
    ensures
        match r {
            Some(i) => last_dot(name@) == i as int,
            None => last_dot(name@) == -1,
        },
{
    let mut i: usize = name.len();
    while i > 0
        invariant
            i <= name@.len(),
            forall|j: int| i <= j < name@.len() ==> name@[j] != DOT,
        decreases i,
    {
        let k = i - 1;
        if name[k] == DOT {
            proof {
                lemma_last_dot_is(name@, k as int);
            }
            return Some(k);
        }
        i = k;
    }
    proof {
        lemma_last_dot_is(name@, -1);
    }
    None
}

/// A copy of a byte string.
pub fn clone_bytes(v: &Vec<u8>) -> (r: Vec<u8>)
    ensures
        r@ == v@,
{
    let mut r: Vec<u8> = Vec::new();
    let mut i: usize = 0;
    while i < v.len()
        invariant
            i <= v@.len(),
            r@ == v@.take(i as int),
        decreases v@.len() - i,
    {
        r.push(v[i]);
        i += 1;
        proof {
            assert(r@ =~= v@.take(i as int));
        }
    }
    proof {
        assert(v@.take(v@.len() as int) =~= v@);
    }
    r
}

/// Whether two byte strings hold the same bytes.
pub fn bytes_eq(a: &Vec<u8>, b: &Vec<u8>) -> (r: bool)
    ensures
        r == (a@ == b@),
{
    if a.len() != b.len() {
        return false;
    }
    let mut i: usize = 0;
    while i < a.len()
        invariant
            a@.len() == b@.len(),
            i <= a@.len(),
            forall|j: int| 0 <= j < i ==> a@[j] == b@[j],
        decreases a@.len() - i,
    {
        if a[i] != b[i] {
            return false;
        }
        i += 1;
    }
    proof {
        assert(a@ =~= b@);
    }
    true
}

} // verus!
