//! Parsing of process ids given on the command line, as decimal `u32`.

use vstd::prelude::*;

verus! {

/// Why a process id could not be read as a `u32`.
#[derive(Clone, Copy, Debug, PartialEq, Eq, Structural)]
pub enum PidErrorKind {
    /// The text is empty.
    Empty,
    /// The text holds a character that is not a decimal digit where one is expected.
    InvalidDigit,
    /// The digits denote a number above `u32::MAX`.
    PosOverflow,
}

pub open spec fn is_decimal_digit(c: char) -> bool {
    '0' <= c && c <= '9'
}

pub open spec fn digit_value(c: char) -> int {
    (c as int) - ('0' as int)
}

/// Reads the digits of `d` from position `i` on, with `acc` the value of
/// those before it; stops at the first character that is no digit, or at
/// the first digit that takes the value above `u32::MAX`.
pub open spec fn scan_digits(d: Seq<char>, i: int, acc: int) -> Result<int, PidErrorKind>
    decreases d.len() - i,
{
    if i >= d.len() || i < 0 {
        Ok(acc)
    } else if !is_decimal_digit(d[i]) {
        Err(PidErrorKind::InvalidDigit)
    } else if acc * 10 + digit_value(d[i]) > u32::MAX {
        Err(PidErrorKind::PosOverflow)
    } else {
        scan_digits(d, i + 1, acc * 10 + digit_value(d[i]))
    }
}

/// The outcome of reading `s` as an unsigned 32-bit decimal number: an
/// optional leading `+`, then one or more digits.
pub open spec fn parse_u32_spec(s: Seq<char>) -> Result<u32, PidErrorKind> {
    if s.len() == 0 {
        Err(PidErrorKind::Empty)
    } else if s.len() == 1 && (s[0] == '+' || s[0] == '-') {
        Err(PidErrorKind::InvalidDigit)
    } else {
        let digits = if s[0] == '+' { s.drop_first() } else { s };
        match scan_digits(digits, 0, 0) {
            Ok(v) => Ok(v as u32),
            Err(k) => Err(k),
        }
    }
}

proof fn lemma_scan_bounded(d: Seq<char>, i: int, acc: int)
    requires
        0 <= acc <= u32::MAX,
    ensures
        scan_digits(d, i, acc) matches Ok(v) ==> 0 <= v <= u32::MAX,
    decreases d.len() - i,
{
    if i >= d.len() || i < 0 {
    } else if !is_decimal_digit(d[i]) {
    } else if acc * 10 + digit_value(d[i]) > u32::MAX {
    } else {
        lemma_scan_bounded(d, i + 1, acc * 10 + digit_value(d[i]));
    }
}

/// Every character of `s` is one of `0` to `9`.
pub open spec fn all_decimal_digits(s: Seq<char>) -> bool {
    forall|i: int| 0 <= i < s.len() ==> '0' <= #[trigger] s[i] && s[i] <= '9'
}

/// The number that the decimal digits `s` denote: each digit counts its own
/// value (its code minus the code of `0`) times the power of ten of its place.
pub open spec fn decimal_number(s: Seq<char>) -> int
    decreases s.len(),
{
    if s.len() == 0 {
        0
    } else {
        decimal_number(s.drop_last()) * 10 + ((s.last() as int) - 48)
    }
}

/// The decimal text of `n`, without leading zeros.
pub open spec fn decimal_text(n: nat) -> Seq<char>
    decreases n,
{
    if n < 10 {
        seq![(48 + n) as char]
    } else {
        decimal_text(n / 10).push((48 + n % 10) as char)
    }
}

proof fn lemma_decimal_number_nonneg(s: Seq<char>)
    requires
        all_decimal_digits(s),
    ensures
        decimal_number(s) >= 0,
    decreases s.len(),
{
    if s.len() > 0 {
        let t = s.drop_last();
        assert(all_decimal_digits(t)) by {
            assert forall|i: int| 0 <= i < t.len() implies '0' <= #[trigger] t[i] && t[i] <= '9' by {
                assert(t[i] == s[i]);
            }
        }
        lemma_decimal_number_nonneg(t);
        assert('0' <= s[s.len() - 1]);
    }
}

proof fn lemma_prefix_value_monotone(d: Seq<char>, j: int, k: int)
    requires
        all_decimal_digits(d),
        0 <= j <= k <= d.len(),
    ensures
        decimal_number(d.take(j)) <= decimal_number(d.take(k)),
    decreases k - j,
{
    if j < k {
        lemma_prefix_value_monotone(d, j, k - 1);
        assert(d.take(k).drop_last() =~= d.take(k - 1));
        assert(d.take(k).last() == d[k - 1]);
        assert('0' <= d[k - 1]);
        assert(all_decimal_digits(d.take(k - 1))) by {
            assert forall|i: int| 0 <= i < d.take(k - 1).len() implies '0' <= #[trigger] d.take(k - 1)[i]
                && d.take(k - 1)[i] <= '9' by {
                assert(d.take(k - 1)[i] == d[i]);
            }
        }
        lemma_decimal_number_nonneg(d.take(k - 1));
    }
}

proof fn lemma_scan_all_digits(d: Seq<char>, i: int)
    requires
        all_decimal_digits(d),
        0 <= i <= d.len(),
        decimal_number(d.take(i)) <= u32::MAX,
    ensures
        scan_digits(d, i, decimal_number(d.take(i))) == if decimal_number(d) <= u32::MAX {
            Ok::<int, PidErrorKind>(decimal_number(d))
        } else {
            Err::<int, PidErrorKind>(PidErrorKind::PosOverflow)
        },
    decreases d.len() - i,
{
    if i == d.len() {
        assert(d.take(i) =~= d);
    } else {
        let acc = decimal_number(d.take(i));
        assert(d.take(i + 1).drop_last() =~= d.take(i));
        assert(d.take(i + 1).last() == d[i]);
        assert(decimal_number(d.take(i + 1)) == acc * 10 + digit_value(d[i]));
        assert(is_decimal_digit(d[i]));
        lemma_prefix_value_monotone(d, i + 1, d.len() as int);
        assert(d.take(d.len() as int) =~= d);
        if acc * 10 + digit_value(d[i]) <= u32::MAX {
            lemma_scan_all_digits(d, i + 1);
        }
    }
}

/// A non-empty string of decimal digits is read as the number it denotes,
/// each digit with its own value; where that number is above `u32::MAX`,
/// the error is an overflow.
pub proof fn lemma_parse_decimal_digits(s: Seq<char>)
    requires
        s.len() > 0,
        all_decimal_digits(s),
    ensures
        decimal_number(s) <= u32::MAX ==> parse_u32_spec(s) == Ok::<u32, PidErrorKind>(
            decimal_number(s) as u32,
        ),
        decimal_number(s) > u32::MAX ==> parse_u32_spec(s) == Err::<u32, PidErrorKind>(
            PidErrorKind::PosOverflow,
        ),
{
    assert('0' <= s[0] && s[0] <= '9');
    assert(s.take(0) =~= Seq::<char>::empty());
    lemma_scan_all_digits(s, 0);
    lemma_decimal_number_nonneg(s);
}

proof fn lemma_decimal_text(n: nat)
    ensures
        decimal_text(n).len() > 0,
        all_decimal_digits(decimal_text(n)),
        decimal_number(decimal_text(n)) == n,
    decreases n,
{
    let t = decimal_text(n);
    if n < 10 {
        assert(t.drop_last() =~= Seq::<char>::empty());
        assert(((48 + n) as char) as int == 48 + n);
        assert(decimal_number(Seq::<char>::empty()) == 0);
        assert(t.last() == (48 + n) as char);
        assert(decimal_number(t) == decimal_number(t.drop_last()) * 10 + ((t.last() as int) - 48));
    } else {
        lemma_decimal_text(n / 10);
        let u = decimal_text(n / 10);
        assert(t.drop_last() =~= u);
        assert(t.last() == (48 + n % 10) as char);
        assert(((48 + n % 10) as char) as int == 48 + n % 10);
        assert forall|i: int| 0 <= i < t.len() implies '0' <= #[trigger] t[i] && t[i] <= '9' by {
            if i < u.len() {
                assert(t[i] == u[i]);
            }
        }
        assert(n == (n / 10) * 10 + n % 10);
        assert(decimal_number(t) == decimal_number(t.drop_last()) * 10 + ((t.last() as int) - 48));
    }
}

/// Reading the decimal text of any `u32` gives that number back.
pub proof fn lemma_parse_decimal_text(n: u32)
    ensures
        parse_u32_spec(decimal_text(n as nat)) == Ok::<u32, PidErrorKind>(n),
{
    lemma_decimal_text(n as nat);
    lemma_parse_decimal_digits(decimal_text(n as nat));
}

/// Reads a process id as `str::parse::<u32>` does: an optional `+` and one
/// or more decimal digits whose value fits in a `u32`.
pub fn parse_pid(pid: &str) -> (r: Result<u32, PidErrorKind>)
    ensures
        r == parse_u32_spec(pid@),
        pid@.len() > 0 && all_decimal_digits(pid@) && decimal_number(pid@) <= u32::MAX
            ==> r == Ok::<u32, PidErrorKind>(decimal_number(pid@) as u32),
        pid@.len() > 0 && all_decimal_digits(pid@) && decimal_number(pid@) > u32::MAX
            ==> r == Err::<u32, PidErrorKind>(PidErrorKind::PosOverflow),
{
    proof {
        if pid@.len() > 0 && all_decimal_digits(pid@) {
            lemma_parse_decimal_digits(pid@);
        }
    }
    read_u32(pid)
}

fn read_u32(pid: &str) -> (r: Result<u32, PidErrorKind>)
    ensures
        r == parse_u32_spec(pid@),
{
    let n = pid.unicode_len();
    if n == 0 {
        return Err(PidErrorKind::Empty);
    }
    let first = pid.get_char(0);
    if n == 1 && (first == '+' || first == '-') {
        return Err(PidErrorKind::InvalidDigit);
    }
    let start: usize = if first == '+' { 1 } else { 0 };
    let ghost digits = if first == '+' { pid@.drop_first() } else { pid@ };
    let mut acc: u64 = 0;
    let mut i: usize = start;
    while i < n
        invariant
            n == pid@.len(),
            start <= i <= n,
            start == 0 || start == 1,
            digits == pid@.subrange(start as int, n as int),
            acc <= u32::MAX,
            parse_u32_spec(pid@) == match scan_digits(digits, i - start, acc as int) {
                Ok(v) => Ok(v as u32),
                Err(k) => Err(k),
            },
            scan_digits(digits, 0, 0) == scan_digits(digits, i - start, acc as int),
        decreases n - i,
    {
        let c = pid.get_char(i);
        assert(c == digits[i - start]);
        if !('0' <= c && c <= '9') {
            assert(scan_digits(digits, i - start, acc as int) == Err::<int, PidErrorKind>(PidErrorKind::InvalidDigit));
            return Err(PidErrorKind::InvalidDigit);
        }
        let d: u64 = (c as u64) - ('0' as u64);
        let next: u64 = acc * 10 + d;
        assert(d == digit_value(c));
        if next > 4294967295u64 {
            assert(scan_digits(digits, i - start, acc as int) == Err::<int, PidErrorKind>(PidErrorKind::PosOverflow));
            return Err(PidErrorKind::PosOverflow);
        }
        acc = next;
        i = i + 1;
    }
    proof {
        lemma_scan_bounded(digits, 0, 0);
    }
    Ok(acc as u32)
}

} // verus!
