//! The normalizer: zero-padding the numeric prefix of each file name in a
//! directory to a fixed width, skipping names it cannot or must not touch.
//!
//! A name `<prefix>-<rest>` is rewritten by replacing `<prefix>` with a
//! three-character zero-padded form: the decimal prefix `7` becomes `007`,
//! a short non-numeric prefix such as `ab` becomes `0ab`, and longer
//! prefixes are kept as they are. [`pad_name`] is the transform on one
//! name; [`normalize_names`] is one pass over a whole directory, skipping
//! a file whose padded name is already taken by another entry.

use vstd::prelude::*;

use crate::names::{
    SEP, ZERO, PLUS, is_digit, is_digit_seq, digit_val, digits_value, dec_digits, pow10, zeros,
    zero_pad3, zero_pad3_chars, char_count, sep_index, lemma_sep_index, lemma_sep_index_is,
    lemma_dec_digits, lemma_digits_value_bound, lemma_digits_value_mono,
    lemma_value_prepend_zeros, lemma_zeros_value, lemma_char_count_le_len,
    lemma_char_count_prepend_zeros, dec_of, find_sep, count_chars, bytes_eq, clone_bytes,
};
use crate::collect::DirListing;

verus! {

/// The decimal value of `s`, read the way `u32` is read from text: an
/// optional leading plus sign, then one or more digits, the whole of `s`,
/// with the value fitting in 32 bits.
pub open spec fn parse_u32(s: Seq<u8>) -> Option<u32> {
    let body = if s.len() > 0 && s[0] == PLUS {
        s.skip(1)
    } else {
        s
    };
    if body.len() > 0 && is_digit_seq(body) && digits_value(body) <= u32::MAX {
        Some(digits_value(body) as u32)
    } else {
        None
    }
}

/// Read `name[..end]` as a decimal `u32`, if it is one.
pub fn parse_prefix(name: &Vec<u8>, end: usize) -> (r: Option<u32>)
    requires
        end <= name@.len(),
    ensures
        r == parse_u32(name@.take(end as int)),
{
    let ghost p = name@.take(end as int);
    let start: usize = if end > 0 && name[0] == PLUS {
        1
    } else {
        0
    };
    let ghost body = name@.subrange(start as int, end as int);
    proof {
        if start == 1 {
            assert(p.skip(1) =~= body);
        } else {
            assert(p =~= body);
        }
    }
    if start == end {
        proof {
            assert(body.len() == 0);
        }
        return None;
    }
    let mut acc: u64 = 0;
    let mut j: usize = start;
    while j < end
        invariant
            start <= j <= end <= name@.len(),
            start < end,
            p == name@.take(end as int),
            body == name@.subrange(start as int, end as int),
            parse_u32(p) == (if body.len() > 0 && is_digit_seq(body) && digits_value(body)
                <= u32::MAX {
                Some(digits_value(body) as u32)
            } else {
                None
            }),
            is_digit_seq(name@.subrange(start as int, j as int)),
            acc == digits_value(name@.subrange(start as int, j as int)),
            acc <= u32::MAX as u64,
        decreases end - j,
    {
        let b = name[j];
        if b < ZERO || b > 57 {
            proof {
                assert(body[j - start] == name@[j as int]);
                assert(!is_digit(body[j - start]));
                assert(!is_digit_seq(body));
            }
            return None;
        }
        let d = (b - ZERO) as u64;
        acc = acc * 10 + d;
        proof {
            let prev = name@.subrange(start as int, j as int);
            let cur = name@.subrange(start as int, j as int + 1);
            assert(cur.drop_last() =~= prev);
            assert(cur.last() == name@[j as int]);
            assert(digit_val(cur.last()) == d);
            assert(acc == digits_value(cur));
            assert forall|k: int| 0 <= k < cur.len() implies is_digit(#[trigger] cur[k]) by {
                if k < prev.len() {
                    assert(cur[k] == prev[k]);
                }
            }
        }
        if acc > u32::MAX as u64 {
            proof {
                let m = j as int + 1 - start as int;
                assert(body.take(m) =~= name@.subrange(start as int, j as int + 1));
                assert(body.take(body.len() as int) =~= body);
                lemma_digits_value_mono(body, m, body.len() as int);
                assert(digits_value(body) > u32::MAX);
            }
            return None;
        }
        j += 1;
    }
    proof {
        assert(name@.subrange(start as int, j as int) =~= body);
    }
    Some(acc as u32)
}

/// The padded form of `name`, when one applies: the part before the first
/// separator, if it reads as a decimal number, is replaced by that number
/// zero-padded to three digits; a non-numeric prefix of at most three bytes
/// is left-padded with the zero character to a width of three characters
/// instead; a name with no separator, or with a longer non-numeric prefix,
/// is left alone.
pub open spec fn pad_name(name: Seq<u8>) -> Option<Seq<u8>> {
    let i = sep_index(name);
    if i == name.len() {
        None
    } else {
        let prefix = name.take(i);
        let suffix = name.skip(i);
        match parse_u32(prefix) {
            Some(v) => Some(zero_pad3(dec_digits(v as nat)) + suffix),
            None => if prefix.len() <= 3 {
                Some(zero_pad3_chars(prefix) + suffix)
            } else {
                None
            },
        }
    }
}

/// Append `src[from..to]` to `dst`.
fn append_range(dst: &mut Vec<u8>, src: &Vec<u8>, from: usize, to: usize)
    requires
        from <= to <= src@.len(),
    ensures
        final(dst)@ == old(dst)@ + src@.subrange(from as int, to as int),
{
    let mut i: usize = from;
    while i < to
        invariant
            from <= i <= to <= src@.len(),
            dst@ == old(dst)@ + src@.subrange(from as int, i as int),
        decreases to - i,
    {
        dst.push(src[i]);
        i += 1;
        proof {
            assert(dst@ =~= old(dst)@ + src@.subrange(from as int, i as int));
        }
    }
}

/// Append `k` zero characters to `dst`.
fn append_zeros(dst: &mut Vec<u8>, k: usize)
    ensures
        final(dst)@ == old(dst)@ + zeros(k as nat),
{
    let mut i: usize = 0;
    while i < k
        invariant
            i <= k,
            dst@ == old(dst)@ + zeros(i as nat),
        decreases k - i,
    {
        dst.push(ZERO);
        i += 1;
        proof {
            assert(dst@ =~= old(dst)@ + zeros(i as nat));
        }
    }
}

/// The padded form of `file_name`, or nothing when no transform applies.
pub fn generate_padded_name(file_name: &Vec<u8>) -> (r: Option<Vec<u8>>)
    ensures
        r.deep_view() == pad_name(file_name@),
{
    let i = find_sep(file_name);
    if i == file_name.len() {
        return None;
    }
    let ghost suffix = file_name@.skip(i as int);
    let mut out: Vec<u8> = Vec::new();
    match parse_prefix(file_name, i) {
        Some(v) => {
            let digits = dec_of(v as u64);
            if digits.len() < 3 {
                append_zeros(&mut out, 3 - digits.len());
            }
            append_range(&mut out, &digits, 0, digits.len());
            append_range(&mut out, file_name, i, file_name.len());
            proof {
                assert(digits@.subrange(0, digits@.len() as int) =~= digits@);
                assert(file_name@.subrange(i as int, file_name@.len() as int) =~= suffix);
                assert(out@ =~= zero_pad3(dec_digits(v as nat)) + suffix);
                assert(out.deep_view() =~= out@);
            }
            Some(out)
        },
        None => {
            if i <= 3 {
                let cc = count_chars(file_name, i);
                if cc < 3 {
                    append_zeros(&mut out, 3 - cc);
                }
                append_range(&mut out, file_name, 0, i);
                append_range(&mut out, file_name, i, file_name.len());
                proof {
                    assert(file_name@.subrange(0, i as int) =~= file_name@.take(i as int));
                    assert(file_name@.subrange(i as int, file_name@.len() as int) =~= suffix);
                    assert(out@ =~= zero_pad3_chars(file_name@.take(i as int)) + suffix);
                    assert(out.deep_view() =~= out@);
                }
                Some(out)
            } else {
                None
            }
        },
    }
}

/// What the normalizer reports for one file.
pub enum RenameOutcome {
    /// The name has no separator or a long non-numeric prefix.
    NoTransform,
    /// The name is already in padded form.
    AlreadyFormatted,
    /// The padded name is taken by another entry; holds that name.
    Conflict(Vec<u8>),
    /// The file was renamed; holds the new name.
    Renamed(Vec<u8>),
}

/// What the normalizer does to the name at slot `i` of a directory whose
/// names are `s`: rename it to its padded form, unless no transform
/// applies, the name is already padded, or the padded form is taken.
pub open spec fn normalize_step(s: Seq<Seq<u8>>, i: int) -> Seq<Seq<u8>> {
    match pad_name(s[i]) {
        Option::None => s,
        Option::Some(t) => if t == s[i] {
            s
        } else if s.contains(t) {
            s
        } else {
            s.update(i, t)
        },
    }
}

/// The directory after the normalizer has processed the first `k` slots.
pub open spec fn normalize_upto(s: Seq<Seq<u8>>, k: int) -> Seq<Seq<u8>>
    decreases k,
{
    if k <= 0 {
        s
    } else {
        normalize_step(normalize_upto(s, k - 1), k - 1)
    }
}

/// The directory after one full pass of the normalizer.
pub open spec fn normalize_names(s: Seq<Seq<u8>>) -> Seq<Seq<u8>> {
    normalize_upto(s, s.len() as int)
}

/// The outcome reported for slot `i` agrees with the directory state `s` at
/// the time the slot was processed.
pub open spec fn outcome_ok(s: Seq<Seq<u8>>, i: int, o: RenameOutcome) -> bool {
    match o {
        RenameOutcome::NoTransform => pad_name(s[i]) is None,
        RenameOutcome::AlreadyFormatted => pad_name(s[i]) == Some(s[i]),
        RenameOutcome::Conflict(t) => pad_name(s[i]) == Some(t@) && t@ != s[i] && s.contains(t@),
        RenameOutcome::Renamed(t) => pad_name(s[i]) == Some(t@) && t@ != s[i] && !s.contains(t@),
    }
}

/// Process the file at slot `i`: rename it to its padded form unless no
/// transform applies, it is already padded, or the padded name is taken by
/// an existing file, which is skipped with a conflict.
pub fn normalize_entry(dir: &mut DirListing, i: usize) -> (outcome: RenameOutcome)
    requires
        old(dir).wf(),
        i < old(dir)@.len(),
    ensures
        final(dir).wf(),
        final(dir)@ == normalize_step(old(dir)@, i as int),
        outcome_ok(old(dir)@, i as int, outcome),
{
    let ghost s = dir@;
    let ghost n = s[i as int];
    let padded_opt = generate_padded_name(dir.name_at(i));
    match padded_opt {
        None => {
            proof {
                assert(pad_name(n) is None);
            }
            RenameOutcome::NoTransform
        },
        Some(padded) => {
            proof {
                assert(padded.deep_view() =~= padded@);
                assert(pad_name(n) == Some(padded@));
            }
            if bytes_eq(dir.name_at(i), &padded) {
                RenameOutcome::AlreadyFormatted
            } else if dir.contains_name(&padded) {
                RenameOutcome::Conflict(padded)
            } else {
                let ghost t = padded@;
                let fresh = clone_bytes(&padded);
                dir.set_name(i, fresh);
                proof {
                    assert(dir@ == s.update(i as int, t));
                    assert forall|a: int, b: int| 0 <= a < b < dir@.len() implies dir@[a]
                        != dir@[b] by {
                        if a == i as int {
                            assert(s[b] != t);
                        } else if b == i as int {
                            assert(s[a] != t);
                        }
                    }
                }
                RenameOutcome::Renamed(padded)
            }
        },
    }
}

/// Make one pass over the directory, padding each file's numeric prefix in
/// slot order; the returned log holds one outcome per file.
pub fn pad_and_rename_files(dir: &mut DirListing) -> (log: Vec<RenameOutcome>)
    requires
        old(dir).wf(),
    ensures
        final(dir).wf(),
        final(dir)@ == normalize_names(old(dir)@),
        log@.len() == old(dir)@.len(),
        forall|j: int|
            0 <= j < log@.len() ==> outcome_ok(normalize_upto(old(dir)@, j), j, #[trigger] log@[j]),
{
    let ghost s0 = dir@;
    let mut log: Vec<RenameOutcome> = Vec::new();
    let n = dir.len();
    let mut i: usize = 0;
    while i < n
        invariant
            i <= n,
            n == s0.len(),
            s0 == old(dir)@,
            dir.wf(),
            dir@ == normalize_upto(s0, i as int),
            log@.len() == i,
            forall|j: int|
                0 <= j < i ==> outcome_ok(normalize_upto(s0, j), j, #[trigger] log@[j]),
        decreases n - i,
    {
        proof {
            lemma_normalize_upto_len(s0, i as int);
        }
        let o = normalize_entry(dir, i);
        log.push(o);
        i += 1;
    }
    log
}

/// One normalizer pass does not change how many files there are.
pub proof fn lemma_normalize_upto_len(s: Seq<Seq<u8>>, k: int)
    requires
        k <= s.len(),
    ensures
        normalize_upto(s, k).len() == s.len(),
    decreases k,
{
    if k > 0 {
        lemma_normalize_upto_len(s, k - 1);
    }
}

/// A slot not yet processed still holds its original name.
proof fn lemma_upto_untouched(s: Seq<Seq<u8>>, k: int, i: int)
    requires
        0 <= k <= i < s.len(),
    ensures
        normalize_upto(s, k)[i] == s[i],
    decreases k,
{
    if k > 0 {
        lemma_upto_untouched(s, k - 1, i);
        lemma_normalize_upto_len(s, k - 1);
    }
}

/// A slot keeps, to the end of the pass, the name it has right after its
/// own step.
proof fn lemma_upto_settled(s: Seq<Seq<u8>>, k: int, i: int)
    requires
        0 <= i,
        i + 1 <= k <= s.len(),
    ensures
        normalize_upto(s, k)[i] == normalize_upto(s, i + 1)[i],
    decreases k,
{
    if k > i + 1 {
        lemma_upto_settled(s, k - 1, i);
        lemma_normalize_upto_len(s, k - 1);
    }
}

/// The normalizer leaves its own output alone: a padded name is either
/// already in padded form, or (when padding a multi-byte prefix made it
/// longer than three bytes) no transform applies to it any more.
pub proof fn lemma_pad_canonical(name: Seq<u8>, t: Seq<u8>)
    requires
        pad_name(name) == Some(t),
    ensures
        pad_name(t) == Some(t) || pad_name(t) is None,
{
    lemma_sep_index(name);
    let i = sep_index(name);
    assert(i < name.len());
    let prefix = name.take(i);
    let suffix = name.skip(i);
    assert(suffix[0] == name[i]);
    assert(suffix[0] == SEP);
    assert forall|j: int| 0 <= j < prefix.len() implies prefix[j] != SEP by {
        assert(prefix[j] == name[j]);
    }
    match parse_u32(prefix) {
        Some(v) => {
            lemma_dec_digits(v as nat);
            let d = dec_digits(v as nat);
            let pp = zero_pad3(d);
            assert(t == pp + suffix);
            assert forall|k: int| 0 <= k < pp.len() implies is_digit(#[trigger] pp[k]) by {
                if d.len() < 3 {
                    let z = (3 - d.len()) as int;
                    if k < z {
                        assert(pp[k] == ZERO);
                    } else {
                        assert(pp[k] == d[k - z]);
                    }
                }
            }
            assert(pp.len() >= 1);
            assert forall|j: int| 0 <= j < pp.len() implies t[j] != SEP by {
                assert(t[j] == pp[j]);
                assert(is_digit(pp[j]));
            }
            assert(t[pp.len() as int] == suffix[0]);
            lemma_sep_index_is(t, pp.len() as int);
            assert(t.take(pp.len() as int) =~= pp);
            assert(t.skip(pp.len() as int) =~= suffix);
            assert(pp[0] != PLUS);
            if d.len() >= 3 {
                assert(digits_value(pp) == v as nat);
            } else {
                lemma_value_prepend_zeros((3 - d.len()) as nat, d);
                assert(digits_value(pp) == v as nat);
            }
            assert(parse_u32(pp) == Some(v));
            assert(pad_name(t) == Some(zero_pad3(dec_digits(v as nat)) + suffix));
        },
        None => {
            assert(prefix.len() <= 3);
            lemma_char_count_le_len(prefix);
            let cc = char_count(prefix);
            let pp = zero_pad3_chars(prefix);
            assert(t == pp + suffix);
            assert forall|j: int| 0 <= j < pp.len() implies t[j] != SEP by {
                assert(t[j] == pp[j]);
                if cc < 3 {
                    let z = (3 - cc) as int;
                    if j < z {
                        assert(pp[j] == ZERO);
                    } else {
                        assert(pp[j] == prefix[j - z]);
                    }
                }
            }
            assert(t[pp.len() as int] == suffix[0]);
            lemma_sep_index_is(t, pp.len() as int);
            assert(t.take(pp.len() as int) =~= pp);
            assert(t.skip(pp.len() as int) =~= suffix);
            if prefix.len() == 0 {
                assert(pp =~= zeros(3));
                lemma_zeros_value(3);
                assert(pp[0] == ZERO);
                assert(pp[0] != PLUS);
                assert(parse_u32(pp) == Some(0u32));
                assert(dec_digits(0) == seq![ZERO]);
                assert(zero_pad3(dec_digits(0)) =~= pp);
                assert(pad_name(t) == Some(zero_pad3(dec_digits(0)) + suffix));
                assert(pad_name(t) == Some(t));
            } else {
                let body0 = if prefix[0] == PLUS {
                    prefix.skip(1)
                } else {
                    prefix
                };
                lemma_digits_value_bound(body0);
                assert(pow10(0) == 1);
                assert(pow10(1) == 10);
                assert(pow10(2) == 100);
                assert(pow10(3) == 1000);
                assert(digits_value(body0) <= u32::MAX);
                if cc >= 3 {
                    assert(pp == prefix);
                    assert(parse_u32(pp) is None);
                } else {
                    let z = (3 - cc) as int;
                    assert(pp[0] == ZERO);
                    assert(pp[0] != PLUS);
                    if prefix[0] == PLUS {
                        assert(pp[z] == prefix[0]);
                        assert(!is_digit(PLUS));
                        assert(!is_digit_seq(pp));
                    } else {
                        assert(!is_digit_seq(prefix));
                        let bad = choose|k: int| 0 <= k < prefix.len() && !is_digit(prefix[k]);
                        assert(pp[z + bad] == prefix[bad]);
                        assert(!is_digit_seq(pp));
                    }
                    assert(parse_u32(pp) is None);
                }
                if pp.len() <= 3 {
                    if cc < 3 {
                        lemma_char_count_prepend_zeros((3 - cc) as nat, prefix);
                    }
                    assert(char_count(pp) >= 3);
                    assert(zero_pad3_chars(pp) == pp);
                    assert(pad_name(t) == Some(pp + suffix));
                } else {
                    assert(pad_name(t) is None);
                }
            }
        },
    }
}

/// A name the normalizer leaves alone when the directory holds `s`: no
/// transform applies, the name is already padded, or its padded form is
/// present.
pub open spec fn entry_stable(s: Seq<Seq<u8>>, n: Seq<u8>) -> bool {
    match pad_name(n) {
        Option::None => true,
        Option::Some(t) => t == n || s.contains(t),
    }
}

proof fn lemma_upto_stable(s: Seq<Seq<u8>>, k: int)
    requires
        0 <= k <= s.len(),
        forall|i: int| 0 <= i < s.len() ==> entry_stable(s, #[trigger] s[i]),
    ensures
        normalize_upto(s, k) == s,
    decreases k,
{
    if k > 0 {
        lemma_upto_stable(s, k - 1);
        assert(entry_stable(s, s[k - 1]));
    }
}

/// After one full pass, every name in the directory is stable.
proof fn lemma_final_stable(s: Seq<Seq<u8>>)
    ensures
        forall|i: int|
            0 <= i < normalize_names(s).len() ==> entry_stable(
                normalize_names(s),
                #[trigger] normalize_names(s)[i],
            ),
{
    let sf = normalize_names(s);
    let len = s.len() as int;
    lemma_normalize_upto_len(s, len);
    assert forall|i: int| 0 <= i < sf.len() implies entry_stable(sf, sf[i]) by {
        lemma_upto_settled(s, len, i);
        lemma_upto_untouched(s, i, i);
        lemma_normalize_upto_len(s, i);
        let si = normalize_upto(s, i);
        let n = si[i];
        assert(normalize_upto(s, i + 1) == normalize_step(si, i));
        match pad_name(n) {
            Option::None => {
                assert(sf[i] == n);
            },
            Option::Some(t) => {
                if t == n {
                    assert(sf[i] == n);
                } else if si.contains(t) {
                    assert(sf[i] == n);
                    lemma_pad_canonical(n, t);
                    let j = choose|j: int| 0 <= j < si.len() && si[j] == t;
                    if j < i {
                        lemma_upto_settled(s, i, j);
                        lemma_upto_settled(s, len, j);
                        assert(sf[j] == t);
                    } else {
                        lemma_upto_untouched(s, i, j);
                        let sj = normalize_upto(s, j);
                        lemma_upto_untouched(s, j, j);
                        lemma_normalize_upto_len(s, j);
                        assert(sj[j] == t);
                        assert(normalize_upto(s, j + 1) == normalize_step(sj, j));
                        assert(normalize_upto(s, j + 1)[j] == t);
                        lemma_upto_settled(s, len, j);
                        assert(sf[j] == t);
                    }
                    assert(sf.contains(t));
                } else {
                    assert(normalize_step(si, i) == si.update(i, t));
                    assert(sf[i] == t);
                    lemma_pad_canonical(n, t);
                }
            },
        }
    }
}

/// Normalizing a directory twice gives the same names as normalizing it
/// once: the second pass finds every entry already in its final form.
pub proof fn lemma_normalize_idempotent(s: Seq<Seq<u8>>)
    ensures
        normalize_names(normalize_names(s)) == normalize_names(s),
{
    let s1 = normalize_names(s);
    lemma_normalize_upto_len(s, s.len() as int);
    lemma_final_stable(s);
    lemma_upto_stable(s1, s1.len() as int);
}

/// A second pass over a normalized directory renames nothing: each file is
/// reported as skipped, already formatted, or in conflict.
pub proof fn lemma_second_pass_only_skips(s: Seq<Seq<u8>>, j: int, o: RenameOutcome)
    requires
        0 <= j < normalize_names(s).len(),
        outcome_ok(normalize_upto(normalize_names(s), j), j, o),
    ensures
        !(o is Renamed),
{
    let s1 = normalize_names(s);
    lemma_normalize_upto_len(s, s.len() as int);
    lemma_final_stable(s);
    lemma_upto_stable(s1, j);
    assert(entry_stable(s1, s1[j]));
}

} // verus!
