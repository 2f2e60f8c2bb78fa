//! Text parsing: splitting a line into fields and reading decimal
//! integers, the two operations every command-output reader is built on.

use vstd::prelude::*;
use vstd::string::*;

verus! {

/// The fields of `s` split on the separator `sep`.  As with
/// `str::split`, the empty string yields one empty field, and a
/// separator at either end yields an empty field there.
pub open spec fn split_spec(s: Seq<char>, sep: char) -> Seq<Seq<char>>
    decreases s.len(),
{
    if s.len() == 0 {
        seq![Seq::<char>::empty()]
    } else if s[0] == sep {
        seq![Seq::<char>::empty()] + split_spec(s.drop_first(), sep)
    } else {
        let rest = split_spec(s.drop_first(), sep);
        seq![seq![s[0]] + rest[0]] + rest.drop_first()
    }
}

pub proof fn lemma_split_len(s: Seq<char>, sep: char)
    ensures
        split_spec(s, sep).len() >= 1,
    decreases s.len(),
{
    if s.len() == 0 {
    } else {
        lemma_split_len(s.drop_first(), sep);
    }
}

/// A string without the separator splits into itself alone.
pub proof fn lemma_split_no_sep(s: Seq<char>, sep: char)
    requires
        forall|j: int| 0 <= j < s.len() ==> s[j] != sep,
    ensures
        split_spec(s, sep) =~~= seq![s],
    decreases s.len(),
{
    if s.len() == 0 {
        assert(split_spec(s, sep) =~~= seq![s]);
    } else {
        assert(forall|j: int| 0 <= j < s.drop_first().len() ==> s.drop_first()[j] != sep);
        lemma_split_no_sep(s.drop_first(), sep);
        assert(seq![s[0]] + s.drop_first() =~= s);
        assert(split_spec(s, sep) =~~= seq![s]);
    }
}

/// Splitting at the first separator: the head field, then the split of
/// the rest.
pub proof fn lemma_split_at_sep(s: Seq<char>, sep: char, i: int)
    requires
        0 <= i < s.len(),
        s[i] == sep,
        forall|j: int| 0 <= j < i ==> s[j] != sep,
    ensures
        split_spec(s, sep) =~~= seq![s.subrange(0, i)] + split_spec(
            s.subrange(i + 1, s.len() as int),
            sep,
        ),
    decreases i,
{
    if i == 0 {
        assert(s.drop_first() =~= s.subrange(1, s.len() as int));
        assert(s.subrange(0, 0) =~= Seq::<char>::empty());
        assert(split_spec(s, sep) =~~= seq![s.subrange(0, 0)] + split_spec(
            s.subrange(1, s.len() as int),
            sep,
        ));
    } else {
        let df = s.drop_first();
        assert(forall|j: int| 0 <= j < i - 1 ==> df[j] != sep);
        lemma_split_at_sep(df, sep, i - 1);
        lemma_split_len(df.subrange(i, df.len() as int), sep);
        let rest = split_spec(df, sep);
        assert(rest == seq![df.subrange(0, i - 1)] + split_spec(df.subrange(i, df.len() as int), sep));
        assert(rest[0] == df.subrange(0, i - 1));
        assert(rest.drop_first() =~~= split_spec(df.subrange(i, df.len() as int), sep));
        assert(seq![s[0]] + df.subrange(0, i - 1) =~= s.subrange(0, i));
        assert(df.subrange(i, df.len() as int) =~= s.subrange(i + 1, s.len() as int));
        assert(split_spec(s, sep) =~~= seq![s.subrange(0, i)] + split_spec(
            s.subrange(i + 1, s.len() as int),
            sep,
        ));
    }
}

/// Index of the first occurrence of `sep` in `s`, or the length.
fn find_sep(s: &str, sep: char) -> (r: usize)
    ensures
        r <= s@.len(),
        forall|j: int| 0 <= j < r ==> s@[j] != sep,
        r < s@.len() ==> s@[r as int] == sep,
{
    let n = s.unicode_len();
    let mut i: usize = 0;
    loop
        invariant
            0 <= i <= n,
            n == s@.len(),
            forall|j: int| 0 <= j < i ==> s@[j] != sep,
        decreases n - i,
    {
        if i == n {
            return n;
        }
        if s.get_char(i) == sep {
            return i;
        }
        i += 1;
    }
}

/// Split `s` on `sep` into owned fields.
pub fn split_on(s: &str, sep: char) -> (r: Vec<String>)
    ensures
        r.deep_view() == split_spec(s@, sep),
        r.len() >= 1,
    decreases s@.len(),
{
    let n = s.unicode_len();
    let i = find_sep(s, sep);
    if i == n {
        proof {
            lemma_split_no_sep(s@, sep);
        }
        let mut r: Vec<String> = Vec::new();
        r.push(s.to_owned());
        assert(r.deep_view() =~~= seq![s@]);
        r
    } else {
        let head = s.substring_char(0, i).to_owned();
        let tail = s.substring_char(i + 1, n);
        let mut r = split_on(tail, sep);
        r.insert(0, head);
        proof {
            lemma_split_at_sep(s@, sep, i as int);
            assert(r.deep_view() =~~= seq![head@] + split_spec(tail@, sep));
        }
        r
    }
}

/// Character-wise string equality.
pub fn str_eq(a: &str, b: &str) -> (r: bool)
    ensures
        r == (a@ == b@),
{
    let na = a.unicode_len();
    let nb = b.unicode_len();
    if na != nb {
        return false;
    }
    let mut i: usize = 0;
    loop
        invariant
            0 <= i <= na,
            na == a@.len(),
            nb == b@.len(),
            na == nb,
            forall|j: int| 0 <= j < i ==> a@[j] == b@[j],
        decreases na - i,
    {
        if i == na {
            assert(a@ =~= b@);
            return true;
        }
        if a.get_char(i) != b.get_char(i) {
            return false;
        }
        i += 1;
    }
}

// ---------- decimal integers ----------

pub open spec fn is_digit(c: char) -> bool {
    48 <= c as int <= 57
}

pub open spec fn digit_val(c: char) -> int {
    c as int - 48
}

/// Value of a plain digit string, most significant digit first.
pub open spec fn digits_val(s: Seq<char>) -> int
    decreases s.len(),
{
    if s.len() == 0 {
        0
    } else {
        digits_val(s.drop_last()) * 10 + digit_val(s.last())
    }
}

pub open spec fn all_digits(s: Seq<char>) -> bool {
    forall|i: int| 0 <= i < s.len() ==> is_digit(s[i])
}

/// The digits of `s` after an optional leading sign.
pub open spec fn digits_part(s: Seq<char>) -> Seq<char> {
    if s.len() > 0 && (s[0] == '+' || s[0] == '-') {
        s.drop_first()
    } else {
        s
    }
}

pub open spec fn is_negative_str(s: Seq<char>) -> bool {
    s.len() > 0 && s[0] == '-'
}

/// The signed value `s` denotes, meaningful when `s` is well formed.
pub open spec fn i64_string_value(s: Seq<char>) -> int {
    if is_negative_str(s) {
        -digits_val(digits_part(s))
    } else {
        digits_val(digits_part(s))
    }
}

/// `s` is an optional sign, then at least one digit, and its value
/// fits in an `i64` — exactly the strings `str::parse::<i64>` accepts.
pub open spec fn valid_i64_string(s: Seq<char>) -> bool {
    &&& digits_part(s).len() > 0
    &&& all_digits(digits_part(s))
    &&& i64::MIN <= i64_string_value(s) <= i64::MAX
}

proof fn lemma_digits_val_nonneg(s: Seq<char>)
    requires
        all_digits(s),
    ensures
        digits_val(s) >= 0,
    decreases s.len(),
{
    if s.len() > 0 {
        assert(all_digits(s.drop_last()));
        lemma_digits_val_nonneg(s.drop_last());
    }
}

/// A digit prefix never exceeds the whole digit string in value.
proof fn lemma_digits_val_prefix(s: Seq<char>, k: int)
    requires
        all_digits(s),
        0 <= k <= s.len(),
    ensures
        digits_val(s.subrange(0, k)) <= digits_val(s),
    decreases s.len(),
{
    if k == s.len() {
        assert(s.subrange(0, k) =~= s);
    } else {
        let dl = s.drop_last();
        assert(all_digits(dl));
        assert(s.subrange(0, k) =~= dl.subrange(0, k));
        lemma_digits_val_prefix(dl, k);
        lemma_digits_val_nonneg(dl);
        assert(digits_val(s) == digits_val(dl) * 10 + digit_val(s.last()));
        assert(digits_val(dl) * 10 >= digits_val(dl));
    }
}

/// Parse a signed decimal integer, accepting exactly the well-formed
/// in-range strings.
pub fn parse_i64(s: &str) -> (r: Option<i64>)
    ensures
        match r {
            Some(v) => valid_i64_string(s@) && v == i64_string_value(s@),
            None => !valid_i64_string(s@),
        },
{
    let n = s.unicode_len();
    if n == 0 {
        return None;
    }
    let c0 = s.get_char(0);
    let neg = c0 == '-';
    let start: usize = if c0 == '-' || c0 == '+' {
        1
    } else {
        0
    };
    if start == n {
        assert(digits_part(s@).len() == 0);
        return None;
    }
    let ghost digits = digits_part(s@);
    proof {
        assert(digits =~= s@.subrange(start as int, n as int));
    }
    let mut i: usize = start;
    let mut acc: u64 = 0;
    loop
        invariant
            start <= i <= n,
            n == s@.len(),
            0 < n,
            start == (if s@[0] == '-' || s@[0] == '+' { 1int } else { 0int }),
            digits == digits_part(s@),
            digits =~= s@.subrange(start as int, n as int),
            all_digits(digits.subrange(0, i - start)),
            acc == digits_val(digits.subrange(0, i - start)),
        ensures
            i == n,
            all_digits(digits),
            acc == digits_val(digits),
        decreases n - i,
    {
        if i == n {
            proof {
                assert(digits.subrange(0, n - start) =~= digits);
            }
            break;
        }
        let c = s.get_char(i);
        let cu = c as u32;
        if cu < 48 || cu > 57 {
            assert(digits[i - start] == s@[i as int]);
            assert(!is_digit(digits[i - start]));
            return None;
        }
        let d: u64 = (cu - 48) as u64;
        let ghost pre = digits.subrange(0, i - start);
        let ghost pre1 = digits.subrange(0, i + 1 - start);
        proof {
            assert(pre1.drop_last() =~= pre);
            assert(pre1.last() == digits[i - start]);
            assert(digits[i - start] == s@[i as int]);
            assert(digits_val(pre1) == acc * 10 + d);
        }
        let step = match acc.checked_mul(10) {
            Some(a) => a.checked_add(d),
            None => None,
        };
        match step {
            Some(a) => {
                acc = a;
            },
            None => {
                // The prefix already overflows a u64, so the whole
                // digit string is far outside the i64 range.
                proof {
                    assert(digits_val(pre1) > u64::MAX);
                    if all_digits(digits) {
                        lemma_digits_val_prefix(digits, i + 1 - start);
                        assert(digits_val(digits) > u64::MAX);
                    }
                }
                return None;
            },
        }
        i += 1;
    }
    proof {
        assert(digits.subrange(0, n - start) =~= digits);
    }
    if neg {
        if acc <= 9_223_372_036_854_775_807u64 {
            Some(0i64 - (acc as i64))
        } else if acc == 9_223_372_036_854_775_808u64 {
            Some(i64::MIN)
        } else {
            assert(i64_string_value(s@) < i64::MIN);
            None
        }
    } else {
        if acc <= 9_223_372_036_854_775_807u64 {
            Some(acc as i64)
        } else {
            assert(i64_string_value(s@) > i64::MAX);
            None
        }
    }
}

} // verus!
