//! Segment file names.  A segment stores its records under
//! `<base>.log` and its offset index under `<base>.index`, where
//! `<base>` is the 20-digit zero-padded decimal of the segment's base
//! offset.  Directory scans go the other way: a file name with a `.log`
//! extension and a decimal stem identifies a segment.
use vstd::prelude::*;

verus! {

/// The character for the decimal digit `d`.
pub open spec fn digit_char(d: int) -> char {
    if d == 0 {
        '0'
    } else if d == 1 {
        '1'
    } else if d == 2 {
        '2'
    } else if d == 3 {
        '3'
    } else if d == 4 {
        '4'
    } else if d == 5 {
        '5'
    } else if d == 6 {
        '6'
    } else if d == 7 {
        '7'
    } else if d == 8 {
        '8'
    } else {
        '9'
    }
}

/// The value of a digit character; ten for anything that is not a digit.
pub open spec fn digit_val(c: char) -> int {
    if c == '0' {
        0
    } else if c == '1' {
        1
    } else if c == '2' {
        2
    } else if c == '3' {
        3
    } else if c == '4' {
        4
    } else if c == '5' {
        5
    } else if c == '6' {
        6
    } else if c == '7' {
        7
    } else if c == '8' {
        8
    } else if c == '9' {
        9
    } else {
        10
    }
}

pub open spec fn is_digit(c: char) -> bool {
    digit_val(c) < 10
}

pub open spec fn all_digits(s: Seq<char>) -> bool {
    forall|i: int| 0 <= i < s.len() ==> is_digit(#[trigger] s[i])
}

pub open spec fn pow10(k: nat) -> int
    decreases k,
{
    if k == 0 {
        1
    } else {
        10 * pow10((k - 1) as nat)
    }
}

/// The `k` least significant decimal digits of `v`, most significant first.
pub open spec fn dec_rep(v: int, k: nat) -> Seq<char>
    decreases k,
{
    if k == 0 {
        Seq::empty()
    } else {
        dec_rep(v / 10, (k - 1) as nat).push(digit_char(v % 10))
    }
}

/// The 20-digit zero-padded decimal form of `v`.
pub open spec fn dec20(v: u64) -> Seq<char> {
    dec_rep(v as int, 20)
}

/// The numeric value of a digit string, most significant digit first.
pub open spec fn dec_val(s: Seq<char>) -> int
    decreases s.len(),
{
    if s.len() == 0 {
        0
    } else {
        dec_val(s.drop_last()) * 10 + digit_val(s.last())
    }
}

pub proof fn lemma_dec_val_nonneg(s: Seq<char>)
    ensures
        dec_val(s) >= 0,
    decreases s.len(),
{
    if s.len() > 0 {
        lemma_dec_val_nonneg(s.drop_last());
    }
}

/// Taking one more character multiplies the prefix value by ten and adds
/// the character's digit value.
pub proof fn lemma_dec_val_step(s: Seq<char>, i: int)
    requires
        0 <= i < s.len(),
    ensures
        dec_val(s.take(i + 1)) == dec_val(s.take(i)) * 10 + digit_val(s[i]),
{
    assert(s.take(i + 1).drop_last() =~= s.take(i));
    assert(s.take(i + 1).last() == s[i]);
}

/// The value of a digit string never shrinks as the string grows.
pub proof fn lemma_dec_val_mono(s: Seq<char>, i: int, j: int)
    requires
        0 <= i <= j <= s.len(),
    ensures
        dec_val(s.take(j)) >= dec_val(s.take(i)),
    decreases j - i,
{
    if i < j {
        lemma_dec_val_mono(s, i, j - 1);
        lemma_dec_val_step(s, j - 1);
        lemma_dec_val_nonneg(s.take(j - 1));
    }
}

/// The digit string of `v` evaluates back to `v` whenever `k` digits
/// are enough to hold it, and consists of digits alone.
pub proof fn lemma_dec_rep_val(v: int, k: nat)
    requires
        0 <= v < pow10(k),
    ensures
        dec_rep(v, k).len() == k,
        dec_val(dec_rep(v, k)) == v,
        all_digits(dec_rep(v, k)),
    decreases k,
{
    if k > 0 {
        assert(pow10(k) == 10 * pow10((k - 1) as nat));
        assert(v / 10 < pow10((k - 1) as nat)) by (nonlinear_arith)
            requires
                0 <= v < 10 * pow10((k - 1) as nat),
        ;
        lemma_dec_rep_val(v / 10, (k - 1) as nat);
        let prefix = dec_rep(v / 10, (k - 1) as nat);
        let s = dec_rep(v, k);
        assert(s.drop_last() =~= prefix);
        assert(digit_val(digit_char(v % 10)) == v % 10);
        assert(dec_val(s) == (v / 10) * 10 + v % 10);
        assert(forall|i: int| 0 <= i < s.len() ==> is_digit(#[trigger] s[i]));
    }
}

/// Every `u64` fits in 20 decimal digits.
pub proof fn lemma_u64_fits_20_digits(v: u64)
    ensures
        dec20(v).len() == 20,
        dec_val(dec20(v)) == v,
        all_digits(dec20(v)),
{
    reveal_with_fuel(pow10, 21);
    assert(pow10(20) == 100000000000000000000);
    lemma_dec_rep_val(v as int, 20);
}

/// The digit character for `d`, which must be below ten.
fn digit_to_char(d: u64) -> (c: char)
    requires
        d < 10,
    ensures
        c == digit_char(d as int),
{
    if d == 0 {
        '0'
    } else if d == 1 {
        '1'
    } else if d == 2 {
        '2'
    } else if d == 3 {
        '3'
    } else if d == 4 {
        '4'
    } else if d == 5 {
        '5'
    } else if d == 6 {
        '6'
    } else if d == 7 {
        '7'
    } else if d == 8 {
        '8'
    } else {
        '9'
    }
}

/// The value of a digit character; ten for anything else.
fn char_to_digit(c: char) -> (d: u64)
    ensures
        d == digit_val(c),
{
    if c == '0' {
        0
    } else if c == '1' {
        1
    } else if c == '2' {
        2
    } else if c == '3' {
        3
    } else if c == '4' {
        4
    } else if c == '5' {
        5
    } else if c == '6' {
        6
    } else if c == '7' {
        7
    } else if c == '8' {
        8
    } else if c == '9' {
        9
    } else {
        10
    }
}

/// A one-character string holding the digit `d`.
fn digit_str(d: u64) -> (s: &'static str)
    requires
        d < 10,
    ensures
        s@ =~= seq![digit_char(d as int)],
{
    if d == 0 {
        proof {
            reveal_strlit("0");
        }
        "0"
    } else if d == 1 {
        proof {
            reveal_strlit("1");
        }
        "1"
    } else if d == 2 {
        proof {
            reveal_strlit("2");
        }
        "2"
    } else if d == 3 {
        proof {
            reveal_strlit("3");
        }
        "3"
    } else if d == 4 {
        proof {
            reveal_strlit("4");
        }
        "4"
    } else if d == 5 {
        proof {
            reveal_strlit("5");
        }
        "5"
    } else if d == 6 {
        proof {
            reveal_strlit("6");
        }
        "6"
    } else if d == 7 {
        proof {
            reveal_strlit("7");
        }
        "7"
    } else if d == 8 {
        proof {
            reveal_strlit("8");
        }
        "8"
    } else {
        proof {
            reveal_strlit("9");
        }
        "9"
    }
}

/// `v` as exactly `k` decimal digits, most significant first, zero padded.
fn dec_string(v: u64, k: usize) -> (s: String)
    ensures
        s@ == dec_rep(v as int, k as nat),
    decreases k,
{
    if k == 0 {
        let s = String::new();
        assert(s@ =~= dec_rep(v as int, 0));
        s
    } else {
        let mut s = dec_string(v / 10, k - 1);
        s.append(digit_str(v % 10));
        assert(s@ =~= dec_rep(v as int, k as nat));
        s
    }
}

/// The decimal form of `v` without leading zeros.
pub open spec fn dec_var(v: int) -> Seq<char>
    decreases v,
{
    if v < 10 {
        seq![digit_char(v)]
    } else {
        dec_var(v / 10).push(digit_char(v % 10))
    }
}

/// `v` in decimal, without leading zeros.
pub fn dec_u64(v: u64) -> (s: String)
    ensures
        s@ == dec_var(v as int),
    decreases v,
{
    if v < 10 {
        let s = String::from_str(digit_str(v));
        assert(s@ =~= dec_var(v as int));
        s
    } else {
        let mut s = dec_u64(v / 10);
        s.append(digit_str(v % 10));
        assert(s@ =~= dec_var(v as int));
        s
    }
}

/// The name of a segment's message log file: 20-digit base, `.log`.
pub open spec fn log_name_spec(base: u64) -> Seq<char> {
    dec20(base) + ".log"@
}

/// The name of a segment's index file: 20-digit base, `.index`.
pub open spec fn index_name_spec(base: u64) -> Seq<char> {
    dec20(base) + ".index"@
}

/// Builds the log file name for a segment based at `base`.
pub fn log_name(base: u64) -> (s: String)
    ensures
        s@ == log_name_spec(base),
{
    let mut s = dec_string(base, 20);
    s.append(".log");
    s
}

/// Builds the index file name for a segment based at `base`.
pub fn idx_name(base: u64) -> (s: String)
    ensures
        s@ == index_name_spec(base),
{
    let mut s = dec_string(base, 20);
    s.append(".index");
    s
}

/// Parses a decimal digit string.  Empty strings, strings with
/// non-digit characters, and values beyond `u64::MAX` are rejected.
pub fn parse_u64(s: &str) -> (r: Option<u64>)
    ensures
        r == if s@.len() > 0 && all_digits(s@) && dec_val(s@) <= u64::MAX {
            Some(dec_val(s@) as u64)
        } else {
            None::<u64>
        },
{
    let n: usize = s.unicode_len();
    if n == 0 {
        return None;
    }
    let mut acc: u64 = 0;
    let mut i: usize = 0;
    while i < n
        invariant
            0 < n == s@.len(),
            0 <= i <= n,
            all_digits(s@.take(i as int)),
            acc == dec_val(s@.take(i as int)),
        decreases n - i,
    {
        let c = s.get_char(i);
        let d = char_to_digit(c);
        if d >= 10 {
            assert(!is_digit(s@[i as int]));
            return None;
        }
        proof {
            lemma_dec_val_step(s@, i as int);
        }
        if acc > u64::MAX / 10 || (acc == u64::MAX / 10 && d > u64::MAX % 10) {
            proof {
                assert(dec_val(s@.take(i + 1)) > u64::MAX);
                lemma_dec_val_mono(s@, i + 1, s@.len() as int);
                assert(s@.take(s@.len() as int) =~= s@);
            }
            return None;
        }
        assert(acc * 10 + d <= u64::MAX);
        acc = acc * 10 + d;
        i = i + 1;
    }
    assert(s@.take(n as int) =~= s@);
    Some(acc)
}

/// Whether `name` ends in the `.log` extension.
pub open spec fn has_log_ext(name: Seq<char>) -> bool {
    &&& name.len() >= 4
    &&& name[name.len() - 4] == '.'
    &&& name[name.len() - 3] == 'l'
    &&& name[name.len() - 2] == 'o'
    &&& name[name.len() - 1] == 'g'
}

/// The file stem in front of the `.log` extension.
pub open spec fn log_stem(name: Seq<char>) -> Seq<char> {
    name.take(name.len() - 4)
}

/// Whether `name` names a segment log: a `.log` extension behind a
/// non-empty decimal stem whose value fits a `u64`.
pub open spec fn is_log_name(name: Seq<char>) -> bool {
    &&& has_log_ext(name)
    &&& log_stem(name).len() > 0
    &&& all_digits(log_stem(name))
    &&& dec_val(log_stem(name)) <= u64::MAX
}

/// The base offset a segment log file name carries in its stem.
pub open spec fn log_base(name: Seq<char>) -> u64 {
    dec_val(log_stem(name)) as u64
}

/// Recognises a segment log file name and recovers its base offset.
pub fn parse_log_name(name: &str) -> (r: Option<u64>)
    ensures
        r == if is_log_name(name@) {
            Some(log_base(name@))
        } else {
            None::<u64>
        },
{
    let n: usize = name.unicode_len();
    if n < 5 {
        return None;
    }
    if !(name.get_char(n - 4) == '.' && name.get_char(n - 3) == 'l' && name.get_char(n - 2) == 'o'
        && name.get_char(n - 1) == 'g') {
        return None;
    }
    let stem = name.substring_char(0, n - 4);
    assert(stem@ =~= log_stem(name@));
    parse_u64(stem)
}

/// The log file name built from a base offset parses back to that base.
pub proof fn lemma_log_name_roundtrip(base: u64)
    ensures
        is_log_name(log_name_spec(base)),
        log_base(log_name_spec(base)) == base,
{
    reveal_strlit(".log");
    lemma_u64_fits_20_digits(base);
    let name = log_name_spec(base);
    assert(name.len() == 24);
    assert(log_stem(name) =~= dec20(base));
}

/// Index file names are never taken for segment log names.
pub proof fn lemma_index_name_not_log(base: u64)
    ensures
        !is_log_name(index_name_spec(base)),
{
    reveal_strlit(".index");
    lemma_u64_fits_20_digits(base);
    let name = index_name_spec(base);
    assert(name[name.len() - 1] == 'x');
}

/// Index file names of different bases differ.
pub proof fn lemma_index_name_injective(b1: u64, b2: u64)
    requires
        index_name_spec(b1) == index_name_spec(b2),
    ensures
        b1 == b2,
{
    lemma_u64_fits_20_digits(b1);
    lemma_u64_fits_20_digits(b2);
    assert forall|i: int| 0 <= i < 20 implies dec20(b1)[i] == dec20(b2)[i] by {
        assert(index_name_spec(b1)[i] == dec20(b1)[i]);
        assert(index_name_spec(b2)[i] == dec20(b2)[i]);
    }
    assert(dec20(b1) =~= dec20(b2));
}

/// A log file name is never an index file name: they differ in length.
pub proof fn lemma_log_name_not_index_name(b1: u64, b2: u64)
    ensures
        log_name_spec(b1) != index_name_spec(b2),
{
    reveal_strlit(".log");
    reveal_strlit(".index");
    lemma_u64_fits_20_digits(b1);
    lemma_u64_fits_20_digits(b2);
    assert(log_name_spec(b1).len() == 24);
    assert(index_name_spec(b2).len() == 26);
}

} // verus!
