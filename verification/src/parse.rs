//! The ledger loader: a line-oriented config document (a TOML-like subset)
//! is read into the typed ledger model. Top-level `key = value` lines give
//! the period; `[[days]]` opens a day entry; `[[days.expenses]]` opens an
//! expense under the current day. Values are date literals (`YYYY-MM-DD`
//! only), plain decimal numbers, basic `"..."` strings, one-line arrays of
//! strings, and booleans. Omitted optional fields take their documented
//! defaults; a malformed or misplaced line is a format failure naming its
//! line. No partial ledger is ever returned.
//!
//! The subset is deliberately narrower than full TOML, so that every
//! loaded amount is exact: numbers carry at most seven integer and four
//! fractional digits and no exponent, strings know no escape sequences,
//! and arrays hold only strings on one line. What `parse_account` accepts
//! and returns is pinned exactly by `doc_result`: the fold of the
//! document's cleaned lines through `line_step`.

use vstd::prelude::*;
use vstd::string::StrSliceExecFns;
use vstd::string::StringExecFns;
use crate::date::Date;
use crate::model::Account;
use crate::model::Day;
use crate::model::Expense;
use crate::model::check_account;
use crate::model::check_date;
use crate::money::Money;
use crate::money::SHARE_LCM;
use crate::money::pow10;
use crate::money::pow10_exec;

verus! {

/// The classification of a failure to open or read the ledger file, as the
/// process boundary reports it.
#[derive(Clone, Copy, Debug, PartialEq, Eq, Structural)]
pub enum IoKind {
    NotFound,
    PermissionDenied,
    InvalidData,
    Interrupted,
    TimedOut,
    UnexpectedEof,
    Unsupported,
    OutOfMemory,
    Other,
}

/// Why a document failed to deserialize.
#[derive(Clone, Copy, Debug, PartialEq, Eq, Structural)]
pub enum FormatReason {
    /// A line is neither blank, a section header, nor `key = value`.
    BadLine,
    /// A date value is not a valid `YYYY-MM-DD` calendar date.
    BadDate,
    /// A number is malformed or out of the supported range.
    BadNumber,
    /// A string value is not a basic quoted string.
    BadString,
    /// An array value is not a one-line array of strings.
    BadArray,
    /// A boolean value is neither `true` nor `false`.
    BadBool,
    /// A key this format does not know, or one misplaced in its section.
    UnknownKey,
    /// The same key given twice in one section.
    DuplicateKey,
    /// A required field is missing.
    MissingField,
    /// The ledger exceeds a size cap (expenses in all, or parties of one
    /// expense).
    TooLarge,
}

/// A format failure: the first offending line (1-based; 0 for a failure of
/// the document as a whole) and why.
#[derive(Clone, Copy, Debug, PartialEq, Eq, Structural)]
pub struct FormatError {
    pub line: usize,
    pub reason: FormatReason,
}

/// A classified loader failure: the file could not be read, or its content
/// does not conform to the expected schema.
#[derive(Debug, PartialEq, Eq)]
pub enum ParseError {
    IOError(IoKind),
    DeserializerError(FormatError),
}

impl FormatError {
    /// A human-readable description of the failure, fixed by its reason.
    pub fn message(&self) -> (r: String)
        ensures
            r@.len() > 0,
            self.reason is BadLine ==> r@ == "expected a blank line, a section header, or key = value"@,
            self.reason is BadDate ==> r@ == "expected a date in YYYY-MM-DD form"@,
            self.reason is BadNumber ==> r@ == "expected a plain decimal number in range"@,
            self.reason is BadString ==> r@ == "expected a basic quoted string"@,
            self.reason is BadArray ==> r@ == "expected a one-line array of strings"@,
            self.reason is BadBool ==> r@ == "expected true or false"@,
            self.reason is UnknownKey ==> r@ == "unknown or misplaced key"@,
            self.reason is DuplicateKey ==> r@ == "key given twice"@,
            self.reason is MissingField ==> r@ == "a required field is missing"@,
            self.reason is TooLarge ==> r@ == "the ledger exceeds a size cap"@,
    {
        proof {
            reveal_strlit("expected a blank line, a section header, or key = value");
            reveal_strlit("expected a date in YYYY-MM-DD form");
            reveal_strlit("expected a plain decimal number in range");
            reveal_strlit("expected a basic quoted string");
            reveal_strlit("expected a one-line array of strings");
            reveal_strlit("expected true or false");
            reveal_strlit("unknown or misplaced key");
            reveal_strlit("key given twice");
            reveal_strlit("a required field is missing");
            reveal_strlit("the ledger exceeds a size cap");
        }
        let what = match self.reason {
            FormatReason::BadLine => "expected a blank line, a section header, or key = value",
            FormatReason::BadDate => "expected a date in YYYY-MM-DD form",
            FormatReason::BadNumber => "expected a plain decimal number in range",
            FormatReason::BadString => "expected a basic quoted string",
            FormatReason::BadArray => "expected a one-line array of strings",
            FormatReason::BadBool => "expected true or false",
            FormatReason::UnknownKey => "unknown or misplaced key",
            FormatReason::DuplicateKey => "key given twice",
            FormatReason::MissingField => "a required field is missing",
            FormatReason::TooLarge => "the ledger exceeds a size cap",
        };
        String::from_str(what)
    }
}

pub open spec fn is_digit(c: char) -> bool {
    '0' <= c && c <= '9'
}

pub open spec fn digit_val(c: char) -> int {
    c as int - 48
}

pub open spec fn all_digits(s: Seq<char>) -> bool {
    forall|i: int| 0 <= i < s.len() ==> is_digit(#[trigger] s[i])
}

/// The number a run of digits denotes.
pub open spec fn dec_val(s: Seq<char>) -> int
    decreases s.len(),
{
    if s.len() == 0 {
        0
    } else {
        dec_val(s.drop_last()) * 10 + digit_val(s.last())
    }
}

proof fn lemma_pow10_pos(k: nat)
    ensures
        1 <= pow10(k),
    decreases k,
{
    if k > 0 {
        lemma_pow10_pos((k - 1) as nat);
    }
}

proof fn lemma_pow10_mono(a: nat, b: nat)
    requires
        a <= b,
    ensures
        pow10(a) <= pow10(b),
    decreases b,
{
    lemma_pow10_pos(a);
    if a < b {
        lemma_pow10_mono(a, (b - 1) as nat);
        lemma_pow10_pos((b - 1) as nat);
    }
}

proof fn lemma_dec_val_bound(s: Seq<char>)
    requires
        all_digits(s),
    ensures
        0 <= dec_val(s) < pow10(s.len() as nat),
    decreases s.len(),
{
    if s.len() == 0 {
        reveal_with_fuel(pow10, 1);
    } else {
        assert(forall|i: int|
            0 <= i < s.drop_last().len() ==> s.drop_last()[i] == s[i]);
        lemma_dec_val_bound(s.drop_last());
        assert(is_digit(s[s.len() - 1]));
        assert(pow10(s.len() as nat) == 10 * pow10((s.len() - 1) as nat));
        let v = dec_val(s.drop_last());
        let p = pow10((s.len() - 1) as nat);
        assert(v * 10 + 9 < 10 * p) by (nonlinear_arith)
            requires
                v < p,
                0 <= v,
        ;
    }
}

/// Reads `cs[a..b]` as an unsigned run of digits.
#[verifier::loop_isolation(false)]
fn parse_digits(cs: &Vec<char>, a: usize, b: usize) -> (r: Option<u64>)
    requires
        a <= b <= cs@.len(),
        b - a <= 9,
    ensures
        r matches Some(v) ==> all_digits(cs@.subrange(a as int, b as int)) && v == dec_val(
            cs@.subrange(a as int, b as int),
        ),
        r is None ==> !all_digits(cs@.subrange(a as int, b as int)) || a == b,
        a < b && all_digits(cs@.subrange(a as int, b as int)) ==> r is Some,
{
    let ghost sub = cs@.subrange(a as int, b as int);
    if a == b {
        return None;
    }
    proof {
        reveal_with_fuel(pow10, 10);
    }
    let mut acc: u64 = 0;
    let mut i: usize = a;
    while i < b
        invariant
            a <= i <= b <= cs@.len(),
            b - a <= 9,
            sub == cs@.subrange(a as int, b as int),
            all_digits(sub.take(i - a)),
            acc == dec_val(sub.take(i - a)),
            0 <= acc < pow10((i - a) as nat),
            pow10(9) == 1_000_000_000,
        decreases b - i,
    {
        let c = cs[i];
        if c < '0' || c > '9' {
            proof {
                assert(sub[i - a] == c);
            }
            return None;
        }
        proof {
            assert(sub[i - a] == c);
            assert(is_digit(c));
            assert(sub.take(i - a + 1).drop_last() =~= sub.take(i - a));
            assert(sub.take(i - a + 1).last() == c);
            assert(pow10((i - a + 1) as nat) == 10 * pow10((i - a) as nat));
            lemma_dec_val_bound(sub.take(i - a + 1));
            assert(pow10((i - a + 1) as nat) <= pow10(9)) by {
                reveal_with_fuel(pow10, 10);
            }
        }
        acc = acc * 10 + ((c as u64) - 48);
        i = i + 1;
    }
    proof {
        assert(sub.take(b - a) =~= sub);
    }
    Some(acc)
}

/// The date a well-formed `YYYY-MM-DD` sequence denotes.
pub open spec fn date_from(s: Seq<char>) -> Date {
    Date {
        year: dec_val(s.subrange(0, 4)) as u32,
        month: dec_val(s.subrange(5, 7)) as u32,
        day: dec_val(s.subrange(8, 10)) as u32,
    }
}

/// Whether `s` reads `YYYY-MM-DD` and names a real calendar date.
pub open spec fn is_date_str(s: Seq<char>) -> bool {
    &&& s.len() == 10
    &&& all_digits(s.subrange(0, 4))
    &&& s[4] == '-'
    &&& all_digits(s.subrange(5, 7))
    &&& s[7] == '-'
    &&& all_digits(s.subrange(8, 10))
    &&& date_from(s).wf()
}

/// Reads `cs[a..b]` as a date literal: exactly `YYYY-MM-DD`, naming a real
/// calendar date; any other string is rejected.
pub fn parse_date(cs: &Vec<char>, a: usize, b: usize) -> (r: Option<Date>)
    requires
        a <= b <= cs@.len(),
    ensures
        r == (if is_date_str(cs@.subrange(a as int, b as int)) {
            Some(date_from(cs@.subrange(a as int, b as int)))
        } else {
            None::<Date>
        }),
        r matches Some(d) ==> d.wf(),
{
    let ghost sub = cs@.subrange(a as int, b as int);
    if b - a != 10 {
        return None;
    }
    if cs[a + 4] != '-' || cs[a + 7] != '-' {
        proof {
            assert(sub[4] == cs@[a + 4]);
            assert(sub[7] == cs@[a + 7]);
        }
        return None;
    }
    proof {
        assert(sub[4] == cs@[a + 4] && sub[4] == '-');
        assert(sub[7] == cs@[a + 7] && sub[7] == '-');
        assert(cs@.subrange(a as int, a as int + 4) =~= sub.subrange(0, 4));
        assert(cs@.subrange(a as int + 5, a as int + 7) =~= sub.subrange(5, 7));
        assert(cs@.subrange(a as int + 8, a as int + 10) =~= sub.subrange(8, 10));
    }
    let y = match parse_digits(cs, a, a + 4) {
        Some(v) => v,
        None => {
            return None;
        },
    };
    let mo = match parse_digits(cs, a + 5, a + 7) {
        Some(v) => v,
        None => {
            return None;
        },
    };
    let d = match parse_digits(cs, a + 8, a + 10) {
        Some(v) => v,
        None => {
            return None;
        },
    };
    proof {
        lemma_dec_val_bound(sub.subrange(0, 4));
        lemma_dec_val_bound(sub.subrange(5, 7));
        lemma_dec_val_bound(sub.subrange(8, 10));
        reveal_with_fuel(pow10, 5);
    }
    let date = Date { year: y as u32, month: mo as u32, day: d as u32 };
    if check_date(&date) {
        Some(date)
    } else {
        None
    }
}

/// Index of the first `.` in `s`, or its length.
pub open spec fn first_dot(s: Seq<char>) -> int
    decreases s.len(),
{
    if s.len() == 0 {
        0
    } else if s[0] == '.' {
        0
    } else {
        1 + first_dot(s.drop_first())
    }
}

proof fn lemma_first_dot_at(s: Seq<char>, i: int)
    requires
        0 <= i <= s.len(),
        forall|t: int| 0 <= t < i ==> s[t] != '.',
        i == s.len() || s[i] == '.',
    ensures
        first_dot(s) == i,
    decreases i,
{
    if s.len() > 0 && i > 0 {
        assert(forall|t: int|
            0 <= t < i - 1 ==> s.drop_first()[t] == s[t + 1]);
        if i - 1 < s.drop_first().len() {
            assert(s.drop_first()[i - 1] == s[i]);
        }
        lemma_first_dot_at(s.drop_first(), i - 1);
    }
}

/// The integer and fractional digit runs of an unsigned number, split at
/// its first dot.
pub open spec fn num_parts(t: Seq<char>) -> (Seq<char>, Seq<char>) {
    let d = first_dot(t);
    if d == t.len() {
        (t, Seq::<char>::empty())
    } else {
        (t.take(d), t.skip(d + 1))
    }
}

/// Whether `s` reads as a supported decimal number: an optional minus
/// sign, one to seven integer digits, and optionally a dot with one to
/// four fractional digits.
pub open spec fn is_number_str(s: Seq<char>) -> bool {
    let t = if s.len() > 0 && s[0] == '-' {
        s.drop_first()
    } else {
        s
    };
    let ip = num_parts(t).0;
    let fp = num_parts(t).1;
    &&& 1 <= ip.len() <= 7
    &&& all_digits(ip)
    &&& (first_dot(t) < t.len() ==> 1 <= fp.len() <= 4 && all_digits(fp))
}

/// The amount, in `Money` sub-units, that a number string denotes.
pub open spec fn number_units(s: Seq<char>) -> int {
    let neg = s.len() > 0 && s[0] == '-';
    let t = if neg {
        s.drop_first()
    } else {
        s
    };
    let ip = num_parts(t).0;
    let fp = num_parts(t).1;
    let mantissa = dec_val(ip) * pow10(fp.len() as nat) + dec_val(fp);
    let magnitude = mantissa * pow10((4 - fp.len()) as nat) * SHARE_LCM;
    if neg {
        -magnitude
    } else {
        magnitude
    }
}

/// Reads `cs[a..b]` as a decimal number into an exact amount; any other
/// string, and any number beyond seven integer or four fractional digits,
/// is rejected.
#[verifier::loop_isolation(false)]
#[verifier::rlimit(60)]
pub fn parse_number(cs: &Vec<char>, a: usize, b: usize) -> (r: Option<Money>)
    requires
        a <= b <= cs@.len(),
    ensures
        (r is Some) == is_number_str(cs@.subrange(a as int, b as int)),
        r matches Some(m) ==> m.units as int == number_units(cs@.subrange(a as int, b as int))
            && crate::money::is_amount(m),
{
    let ghost sub = cs@.subrange(a as int, b as int);
    let neg = a < b && cs[a] == '-';
    let t0 = if neg {
        a + 1
    } else {
        a
    };
    let ghost t = if neg {
        sub.drop_first()
    } else {
        sub
    };
    proof {
        if a < b {
            assert(sub[0] == cs@[a as int]);
        }
        assert(t =~= cs@.subrange(t0 as int, b as int));
    }
    // Find the first dot.
    let mut dot: usize = t0;
    while dot < b && cs[dot] != '.'
        invariant
            t0 <= dot <= b,
            forall|q: int| t0 <= q < dot ==> cs@[q] != '.',
        decreases b - dot,
    {
        dot = dot + 1;
    }
    proof {
        assert(forall|q: int| 0 <= q < dot - t0 ==> t[q] == cs@[t0 + q]);
        if dot < b {
            assert(t[dot - t0] == cs@[dot as int]);
        }
        lemma_first_dot_at(t, dot - t0);
    }
    if dot == t0 || dot - t0 > 7 {
        return None;
    }
    let ip = match parse_digits(cs, t0, dot) {
        Some(v) => v,
        None => {
            proof {
                assert(num_parts(t).0 =~= cs@.subrange(t0 as int, dot as int));
            }
            return None;
        },
    };
    proof {
        assert(num_parts(t).0 =~= cs@.subrange(t0 as int, dot as int));
    }
    let decimals: usize = if dot < b {
        b - dot - 1
    } else {
        0
    };
    if dot < b && (decimals == 0 || decimals > 4) {
        return None;
    }
    let fp: u64 = if dot < b {
        match parse_digits(cs, dot + 1, b) {
            Some(v) => v,
            None => {
                proof {
                    assert(num_parts(t).1 =~= cs@.subrange(dot as int + 1, b as int));
                }
                return None;
            },
        }
    } else {
        0
    };
    proof {
        if dot < b {
            assert(num_parts(t).1 =~= cs@.subrange(dot as int + 1, b as int));
        } else {
            assert(num_parts(t).1 =~= Seq::<char>::empty());
        }
        lemma_dec_val_bound(num_parts(t).0);
        lemma_dec_val_bound(num_parts(t).1);
        reveal_with_fuel(pow10, 10);
        assert(pow10(0) == 1 && pow10(1) == 10 && pow10(2) == 100 && pow10(3) == 1000 && pow10(4)
            == 10000 && pow10(5) == 100000 && pow10(6) == 1000000 && pow10(7) == 10000000);
        lemma_pow10_mono(num_parts(t).0.len() as nat, 7);
        lemma_pow10_mono(num_parts(t).1.len() as nat, 4);
        assert(ip < 10_000_000);
        assert(fp < 10_000);
    }
    let p = pow10_exec(decimals as u32);
    proof {
        let ipi: int = ip as int;
        let pi: int = p as int;
        assert(0 <= ipi * pi && ipi * pi <= 100_000_000_000) by (nonlinear_arith)
            requires
                0 <= ipi && ipi < 10_000_000,
                1 <= pi && pi <= 10_000,
        ;
    }
    let mantissa_mag: i64 = (ip as i64) * (p as i64) + (fp as i64);
    let mantissa: i64 = if neg {
        -mantissa_mag
    } else {
        mantissa_mag
    };
    proof {
        let ipv = dec_val(num_parts(t).0);
        let fpv = dec_val(num_parts(t).1);
        let dl = num_parts(t).1.len() as nat;
        assert(ipv * pow10(dl) + fpv < 10_000_000 * pow10(dl)) by (nonlinear_arith)
            requires
                0 <= ipv < 10_000_000,
                0 <= fpv < pow10(dl),
                pow10(dl) >= 1,
        ;
        assert(ipv * pow10(dl) >= 0) by (nonlinear_arith)
            requires
                ipv >= 0,
                pow10(dl) >= 1,
        ;
    }
    let m = Money::from_decimal(mantissa, decimals as u32);
    proof {
        let ipv = dec_val(num_parts(t).0);
        let fpv = dec_val(num_parts(t).1);
        let dl = num_parts(t).1.len() as nat;
        if neg {
            assert((-(ipv * pow10(dl) + fpv)) * pow10((4 - dl) as nat) * SHARE_LCM == -((ipv
                * pow10(dl) + fpv) * pow10((4 - dl) as nat) * SHARE_LCM)) by (nonlinear_arith);
        }
    }
    Some(m)
}

pub open spec fn is_space(c: char) -> bool {
    c == ' ' || c == '\t'
}

/// First index at or after `i` holding a character that is not a space.
pub open spec fn skip_spaces(s: Seq<char>, i: int) -> int
    decreases s.len() - i,
{
    if 0 <= i < s.len() && is_space(s[i]) {
        skip_spaces(s, i + 1)
    } else {
        i
    }
}

/// First index at or after `i` holding `'"'`, or the length.
pub open spec fn next_quote(s: Seq<char>, i: int) -> int
    decreases s.len() - i,
{
    if 0 <= i < s.len() {
        if s[i] == '"' {
            i
        } else {
            next_quote(s, i + 1)
        }
    } else {
        s.len() as int
    }
}

proof fn lemma_skip_spaces_ge(s: Seq<char>, i: int)
    ensures
        skip_spaces(s, i) >= i,
        i <= s.len() ==> skip_spaces(s, i) <= s.len(),
    decreases s.len() - i,
{
    if 0 <= i < s.len() && is_space(s[i]) {
        lemma_skip_spaces_ge(s, i + 1);
    }
}

proof fn lemma_next_quote_ge(s: Seq<char>, i: int)
    requires
        i <= s.len(),
    ensures
        i <= next_quote(s, i) <= s.len(),
    decreases s.len() - i,
{
    if 0 <= i < s.len() && s[i] != '"' {
        lemma_next_quote_ge(s, i + 1);
    }
}

/// The strings of a one-line array body, read from position `i` (which
/// must already stand past any spaces): quoted items separated by commas,
/// a trailing comma allowed.
pub open spec fn spec_items(s: Seq<char>, i: int) -> Option<Seq<Seq<char>>>
    decreases s.len() - i,
    via spec_items_decreases
{
    if i >= s.len() {
        Some(Seq::<Seq<char>>::empty())
    } else if i < 0 || s[i] != '"' {
        None
    } else {
        let q = next_quote(s, i + 1);
        if q >= s.len() {
            None
        } else {
            let item = s.subrange(i + 1, q);
            let p2 = skip_spaces(s, q + 1);
            if p2 >= s.len() {
                Some(seq![item])
            } else if s[p2] != ',' {
                None
            } else {
                match spec_items(s, skip_spaces(s, p2 + 1)) {
                    None => None,
                    Some(rest) => Some(seq![item] + rest),
                }
            }
        }
    }
}

#[via_fn]
proof fn spec_items_decreases(s: Seq<char>, i: int) {
    if 0 <= i < s.len() && s[i] == '"' {
        let q = next_quote(s, i + 1);
        lemma_next_quote_ge(s, i + 1);
        if q < s.len() {
            let p2 = skip_spaces(s, q + 1);
            lemma_skip_spaces_ge(s, q + 1);
            if p2 < s.len() && s[p2] == ',' {
                lemma_skip_spaces_ge(s, p2 + 1);
            }
        }
    }
}

/// The strings of a one-line array literal `[ ... ]`, or nothing if `s` is
/// not one.
pub open spec fn spec_array(s: Seq<char>) -> Option<Seq<Seq<char>>> {
    if s.len() >= 2 && s[0] == '[' && s[s.len() - 1] == ']' {
        let inner = s.subrange(1, s.len() - 1);
        spec_items(inner, skip_spaces(inner, 0))
    } else {
        None
    }
}

/// Whether `s` is a basic quoted string: a `"`, any run of characters
/// other than `"`, and a closing `"`.
pub open spec fn is_string_lit(s: Seq<char>) -> bool {
    &&& s.len() >= 2
    &&& s[0] == '"'
    &&& s[s.len() - 1] == '"'
    &&& forall|i: int| 0 < i < s.len() - 1 ==> s[i] != '"'
}

/// The characters of `s`, as a vector.
#[verifier::loop_isolation(false)]
fn to_chars(s: &str) -> (v: Vec<char>)
    ensures
        v@ == s@,
{
    let n = s.unicode_len();
    let mut v: Vec<char> = Vec::new();
    let mut i: usize = 0;
    while i < n
        invariant
            0 <= i <= n,
            v@ == s@.take(i as int),
        decreases n - i,
    {
        let c = s.get_char(i);
        v.push(c);
        proof {
            assert(s@.take(i + 1) =~= s@.take(i as int).push(s@[i as int]));
        }
        i = i + 1;
    }
    proof {
        assert(s@.take(n as int) =~= s@);
    }
    v
}

/// Whether `cs[a..b]` reads as the keyword `kw`.
#[verifier::loop_isolation(false)]
fn eq_kw(cs: &Vec<char>, a: usize, b: usize, kw: &str) -> (r: bool)
    requires
        a <= b <= cs@.len(),
    ensures
        r == (cs@.subrange(a as int, b as int) == kw@),
{
    let ghost sub = cs@.subrange(a as int, b as int);
    let kn = kw.unicode_len();
    if b - a != kn {
        proof {
            assert(sub.len() != kw@.len());
        }
        return false;
    }
    let mut i: usize = 0;
    while i < kn
        invariant
            0 <= i <= kn,
            kn == kw@.len(),
            b - a == kn,
            forall|t: int| 0 <= t < i ==> sub[t] == kw@[t],
        decreases kn - i,
    {
        let c = cs[a + i];
        let k = kw.get_char(i);
        if c != k {
            proof {
                assert(sub[i as int] == c);
            }
            return false;
        }
        proof {
            assert(sub[i as int] == c);
        }
        i = i + 1;
    }
    proof {
        assert(sub =~= kw@);
    }
    true
}

/// Reads `text[a..b]` as a basic quoted string, yielding its content.
#[verifier::loop_isolation(false)]
fn parse_string(text: &str, cs: &Vec<char>, a: usize, b: usize) -> (r: Option<String>)
    requires
        cs@ == text@,
        a <= b <= cs@.len(),
    ensures
        (r is Some) == is_string_lit(cs@.subrange(a as int, b as int)),
        r matches Some(st) ==> st@ == cs@.subrange(a as int + 1, b as int - 1),
{
    let ghost sub = cs@.subrange(a as int, b as int);
    if b - a < 2 {
        return None;
    }
    if cs[a] != '"' || cs[b - 1] != '"' {
        proof {
            assert(sub[0] == cs@[a as int]);
            assert(sub[sub.len() - 1] == cs@[b - 1]);
        }
        return None;
    }
    proof {
        assert(sub[0] == cs@[a as int]);
        assert(sub[sub.len() - 1] == cs@[b - 1]);
    }
    let mut i: usize = a + 1;
    while i < b - 1
        invariant
            a + 1 <= i <= b - 1,
            forall|t: int| a < t < i ==> cs@[t] != '"',
        decreases b - i,
    {
        if cs[i] == '"' {
            proof {
                assert(sub[i - a] == cs@[i as int]);
            }
            return None;
        }
        i = i + 1;
    }
    let inner = text.substring_char(a + 1, b - 1);
    let st = String::from_str(inner);
    proof {
        assert(forall|t: int| 0 < t < sub.len() - 1 ==> sub[t] == cs@[a + t]);
    }
    Some(st)
}

/// Reads `cs[a..b]` as `true` or `false`.
fn parse_bool(cs: &Vec<char>, a: usize, b: usize) -> (r: Option<bool>)
    requires
        a <= b <= cs@.len(),
    ensures
        r == (if cs@.subrange(a as int, b as int) == "true"@ {
            Some(true)
        } else if cs@.subrange(a as int, b as int) == "false"@ {
            Some(false)
        } else {
            None::<bool>
        }),
{
    if eq_kw(&cs, a, b, "true") {
        Some(true)
    } else if eq_kw(&cs, a, b, "false") {
        Some(false)
    } else {
        proof {
            reveal_strlit("true");
            reveal_strlit("false");
        }
        None
    }
}

fn is_ws(c: char) -> (r: bool)
    ensures
        r == (c == ' ' || c == '\t'),
{
    c == ' ' || c == '\t'
}

/// First position at or after `p` in `cs[..close]` that is not a space.
#[verifier::loop_isolation(false)]
fn skip_ws_exec(cs: &Vec<char>, ia: usize, close: usize, p: usize) -> (r: usize)
    requires
        ia <= p <= close <= cs@.len(),
    ensures
        p <= r <= close,
        r as int - ia as int == skip_spaces(
            cs@.subrange(ia as int, close as int),
            p as int - ia as int,
        ),
{
    let ghost inner = cs@.subrange(ia as int, close as int);
    let mut q = p;
    while q < close && is_ws(cs[q])
        invariant
            p <= q <= close,
            skip_spaces(inner, p as int - ia as int) == skip_spaces(inner, q as int - ia as int),
        decreases close - q,
    {
        proof {
            assert(inner[q as int - ia as int] == cs@[q as int]);
        }
        q = q + 1;
    }
    proof {
        if q < close {
            assert(inner[q as int - ia as int] == cs@[q as int]);
        }
    }
    q
}

/// First `'"'` at or after `p` in `cs[..close]`, or `close` if none.
#[verifier::loop_isolation(false)]
fn find_quote_exec(cs: &Vec<char>, ia: usize, close: usize, p: usize) -> (r: usize)
    requires
        ia <= p <= close <= cs@.len(),
    ensures
        p <= r <= close,
        r as int - ia as int == next_quote(
            cs@.subrange(ia as int, close as int),
            p as int - ia as int,
        ),
{
    let ghost inner = cs@.subrange(ia as int, close as int);
    let mut q = p;
    while q < close && cs[q] != '"'
        invariant
            p <= q <= close,
            next_quote(inner, p as int - ia as int) == next_quote(inner, q as int - ia as int),
        decreases close - q,
    {
        proof {
            assert(inner[q as int - ia as int] == cs@[q as int]);
        }
        q = q + 1;
    }
    proof {
        if q < close {
            assert(inner[q as int - ia as int] == cs@[q as int]);
        }
    }
    q
}

/// Reads comma-separated quoted items from `cs[p..close]`, `p` standing
/// past any spaces.
#[verifier::loop_isolation(false)]
fn parse_items(text: &str, cs: &Vec<char>, ia: usize, close: usize, p: usize) -> (r: Option<
    Vec<String>,
>)
    requires
        cs@ == text@,
        ia <= p <= close <= cs@.len(),
    ensures
        (r is Some) == (spec_items(
            cs@.subrange(ia as int, close as int),
            p as int - ia as int,
        ) is Some),
        r matches Some(v) ==> v@.len() == spec_items(
            cs@.subrange(ia as int, close as int),
            p as int - ia as int,
        ).unwrap().len() && (forall|t: int|
            0 <= t < v@.len() ==> (#[trigger] v@[t])@ == spec_items(
                cs@.subrange(ia as int, close as int),
                p as int - ia as int,
            ).unwrap()[t]),
    decreases close - p,
{
    let ghost inner = cs@.subrange(ia as int, close as int);
    let ghost pi = p as int - ia as int;
    if p == close {
        let r: Vec<String> = Vec::new();
        return Some(r);
    }
    proof {
        assert(inner[pi] == cs@[p as int]);
    }
    if cs[p] != '"' {
        return None;
    }
    let q = find_quote_exec(cs, ia, close, p + 1);
    if q == close {
        return None;
    }
    let item = String::from_str(text.substring_char(p + 1, q));
    proof {
        assert(item@ =~= inner.subrange(pi + 1, q as int - ia as int));
    }
    let p2 = skip_ws_exec(cs, ia, close, q + 1);
    if p2 == close {
        let mut v: Vec<String> = Vec::new();
        v.push(item);
        return Some(v);
    }
    proof {
        assert(inner[p2 as int - ia as int] == cs@[p2 as int]);
    }
    if cs[p2] != ',' {
        return None;
    }
    let p3 = skip_ws_exec(cs, ia, close, p2 + 1);
    match parse_items(text, cs, ia, close, p3) {
        None => None,
        Some(rest) => {
            let mut v: Vec<String> = Vec::new();
            v.push(item);
            let mut tail = rest;
            v.append(&mut tail);
            proof {
                let items = spec_items(inner, pi).unwrap();
                assert(items =~= seq![inner.subrange(pi + 1, q as int - ia as int)] + spec_items(
                    inner,
                    p3 as int - ia as int,
                ).unwrap());
            }
            Some(v)
        },
    }
}

/// Reads `text[a..b]` as a one-line array of basic strings, in order.
fn parse_str_array(text: &str, cs: &Vec<char>, a: usize, b: usize) -> (r: Option<Vec<String>>)
    requires
        cs@ == text@,
        a <= b <= cs@.len(),
    ensures
        (r is Some) == (spec_array(cs@.subrange(a as int, b as int)) is Some),
        r matches Some(v) ==> v@.len() == spec_array(
            cs@.subrange(a as int, b as int),
        ).unwrap().len() && (forall|t: int|
            0 <= t < v@.len() ==> (#[trigger] v@[t])@ == spec_array(
                cs@.subrange(a as int, b as int),
            ).unwrap()[t]),
{
    let ghost sub = cs@.subrange(a as int, b as int);
    if b - a < 2 {
        return None;
    }
    proof {
        assert(sub[0] == cs@[a as int]);
        assert(sub[sub.len() - 1] == cs@[b - 1]);
    }
    if cs[a] != '[' || cs[b - 1] != ']' {
        return None;
    }
    proof {
        assert(sub.subrange(1, sub.len() - 1) =~= cs@.subrange(a as int + 1, b as int - 1));
    }
    let p = skip_ws_exec(cs, a + 1, b - 1, a + 1);
    parse_items(text, cs, a + 1, b - 1, p)
}

/// First `'\n'` at or after `i`, or the length.
pub open spec fn first_nl(s: Seq<char>, i: int) -> int
    decreases s.len() - i,
{
    if 0 <= i < s.len() {
        if s[i] == '\n' {
            i
        } else {
            first_nl(s, i + 1)
        }
    } else {
        s.len() as int
    }
}

/// First `'='` at or after `i`, or the length.
pub open spec fn first_eq(s: Seq<char>, i: int) -> int
    decreases s.len() - i,
{
    if 0 <= i < s.len() {
        if s[i] == '=' {
            i
        } else {
            first_eq(s, i + 1)
        }
    } else {
        s.len() as int
    }
}

/// Where a comment cuts the line: the first `'#'` at or after `i` that
/// does not stand between quotes, or the length.
pub open spec fn comment_cut(s: Seq<char>, i: int, in_str: bool) -> int
    decreases s.len() - i,
{
    if 0 <= i < s.len() {
        if s[i] == '"' {
            comment_cut(s, i + 1, !in_str)
        } else if s[i] == '#' && !in_str {
            i
        } else {
            comment_cut(s, i + 1, in_str)
        }
    } else {
        s.len() as int
    }
}

/// End of `s[..b]` once trailing spaces down to `a` are dropped.
pub open spec fn rtrim(s: Seq<char>, a: int, b: int) -> int
    decreases b - a,
{
    if a < b && b <= s.len() && is_space(s[b - 1]) {
        rtrim(s, a, b - 1)
    } else {
        b
    }
}

pub open spec fn strip_cr(s: Seq<char>) -> Seq<char> {
    if s.len() > 0 && s.last() == '\r' {
        s.drop_last()
    } else {
        s
    }
}

/// A raw line as the loader reads it: carriage return dropped, any
/// unquoted comment cut, surrounding whitespace trimmed.
pub open spec fn clean_line(raw: Seq<char>) -> Seq<char> {
    let s1 = strip_cr(raw);
    let s2 = s1.take(comment_cut(s1, 0, false));
    let a = skip_spaces(s2, 0);
    let b = rtrim(s2, a, s2.len() as int);
    s2.subrange(a, b)
}

/// An expense as the document gives it, field values as plain sequences.
#[verifier::ext_equal]
pub struct DocExpense {
    pub name: Seq<char>,
    pub price: Money,
    pub shared: Seq<Seq<char>>,
    pub owed: bool,
    pub category: Option<Seq<char>>,
}

#[verifier::ext_equal]
pub struct DocDay {
    pub date: Date,
    pub expenses: Seq<DocExpense>,
}

#[verifier::ext_equal]
pub struct DocAccount {
    pub start_date: Date,
    pub end_date: Date,
    pub budget: Money,
    pub essential_categories: Seq<Seq<char>>,
    pub days: Seq<DocDay>,
}

/// The loader's state between lines: what has been read so far, which
/// section is open, and whether a line has already failed.
#[verifier::ext_equal]
pub struct DocState {
    pub failed: bool,
    pub start_date: Option<Date>,
    pub end_date: Option<Date>,
    pub budget: Option<Money>,
    pub essential: Option<Seq<Seq<char>>>,
    pub days_inline: bool,
    pub days: Seq<DocDay>,
    pub ctx: int,
    pub day_date: Option<Date>,
    pub day_expenses: Seq<DocExpense>,
    pub exp_name: Option<Seq<char>>,
    pub exp_price: Option<Money>,
    pub exp_shared: Option<Seq<Seq<char>>>,
    pub exp_owed: Option<bool>,
    pub exp_category: Option<Seq<char>>,
}

pub open spec fn init_state() -> DocState {
    DocState {
        failed: false,
        start_date: None,
        end_date: None,
        budget: None,
        essential: None,
        days_inline: false,
        days: Seq::empty(),
        ctx: 0,
        day_date: None,
        day_expenses: Seq::empty(),
        exp_name: None,
        exp_price: None,
        exp_shared: None,
        exp_owed: None,
        exp_category: None,
    }
}

pub open spec fn fail(st: DocState) -> DocState {
    DocState { failed: true, ..st }
}

/// Closes the open expense: its name and price are owed, the rest take
/// their documented defaults (`shared` empty, `owed` false, no category).
pub open spec fn flush_exp(st: DocState) -> DocState {
    match (st.exp_name, st.exp_price) {
        (Some(n), Some(p)) => DocState {
            day_expenses: st.day_expenses.push(
                DocExpense {
                    name: n,
                    price: p,
                    shared: match st.exp_shared {
                        Some(sh) => sh,
                        None => Seq::empty(),
                    },
                    owed: match st.exp_owed {
                        Some(o) => o,
                        None => false,
                    },
                    category: st.exp_category,
                },
            ),
            exp_name: None,
            exp_price: None,
            exp_shared: None,
            exp_owed: None,
            exp_category: None,
            ..st
        },
        _ => fail(st),
    }
}

/// Closes the open day: its date is owed; its expenses may be none.
pub open spec fn flush_day(st: DocState) -> DocState {
    match st.day_date {
        Some(d) => DocState {
            days: st.days.push(DocDay { date: d, expenses: st.day_expenses }),
            day_date: None,
            day_expenses: Seq::empty(),
            ..st
        },
        _ => fail(st),
    }
}

pub open spec fn days_header_step(st: DocState) -> DocState {
    let st1 = if st.ctx == 2 {
        flush_exp(st)
    } else {
        st
    };
    if st1.failed {
        st1
    } else {
        let st2 = if st1.ctx >= 1 {
            flush_day(st1)
        } else {
            st1
        };
        if st2.failed {
            st2
        } else {
            DocState { ctx: 1, ..st2 }
        }
    }
}

pub open spec fn expenses_header_step(st: DocState) -> DocState {
    if st.ctx == 0 {
        fail(st)
    } else {
        let st1 = if st.ctx == 2 {
            flush_exp(st)
        } else {
            st
        };
        if st1.failed {
            st1
        } else {
            DocState {
                ctx: 2,
                exp_name: None,
                exp_price: None,
                exp_shared: None,
                exp_owed: None,
                exp_category: None,
                ..st1
            }
        }
    }
}

/// One `key = value` line, read in the open section.
#[verifier::opaque]
pub open spec fn key_step(st: DocState, key: Seq<char>, val: Seq<char>) -> DocState {
    if st.ctx == 0 {
        if key == "start_date"@ {
            if st.start_date is Some {
                fail(st)
            } else if is_date_str(val) {
                DocState { start_date: Some(date_from(val)), ..st }
            } else {
                fail(st)
            }
        } else if key == "end_date"@ {
            if st.end_date is Some {
                fail(st)
            } else if is_date_str(val) {
                DocState { end_date: Some(date_from(val)), ..st }
            } else {
                fail(st)
            }
        } else if key == "budget"@ {
            if st.budget is Some {
                fail(st)
            } else if is_number_str(val) {
                DocState { budget: Some(Money { units: number_units(val) as i128 }), ..st }
            } else {
                fail(st)
            }
        } else if key == "essential_categories"@ {
            if st.essential is Some {
                fail(st)
            } else {
                match spec_array(val) {
                    Some(v) => DocState { essential: Some(v), ..st },
                    None => fail(st),
                }
            }
        } else if key == "days"@ {
            if st.days_inline || st.days.len() > 0 {
                fail(st)
            } else {
                match spec_array(val) {
                    Some(v) => if v.len() == 0 {
                        DocState { days_inline: true, ..st }
                    } else {
                        fail(st)
                    },
                    None => fail(st),
                }
            }
        } else {
            fail(st)
        }
    } else if st.ctx == 1 {
        if key == "date"@ {
            if st.day_date is Some {
                fail(st)
            } else if is_date_str(val) {
                DocState { day_date: Some(date_from(val)), ..st }
            } else {
                fail(st)
            }
        } else {
            fail(st)
        }
    } else {
        if key == "name"@ {
            if st.exp_name is Some {
                fail(st)
            } else if is_string_lit(val) {
                DocState { exp_name: Some(val.subrange(1, val.len() - 1)), ..st }
            } else {
                fail(st)
            }
        } else if key == "price"@ {
            if st.exp_price is Some {
                fail(st)
            } else if is_number_str(val) {
                DocState { exp_price: Some(Money { units: number_units(val) as i128 }), ..st }
            } else {
                fail(st)
            }
        } else if key == "shared"@ {
            if st.exp_shared is Some {
                fail(st)
            } else {
                match spec_array(val) {
                    Some(v) => DocState { exp_shared: Some(v), ..st },
                    None => fail(st),
                }
            }
        } else if key == "owed"@ {
            if st.exp_owed is Some {
                fail(st)
            } else if val == "true"@ {
                DocState { exp_owed: Some(true), ..st }
            } else if val == "false"@ {
                DocState { exp_owed: Some(false), ..st }
            } else {
                fail(st)
            }
        } else if key == "category"@ {
            if st.exp_category is Some {
                fail(st)
            } else if is_string_lit(val) {
                DocState { exp_category: Some(val.subrange(1, val.len() - 1)), ..st }
            } else {
                fail(st)
            }
        } else {
            fail(st)
        }
    }
}

/// A non-blank cleaned line: a section header or a `key = value` line.
#[verifier::opaque]
pub open spec fn content_step(st: DocState, l: Seq<char>) -> DocState {
    if l[0] == '[' && l.len() >= 2 && l[1] == '[' {
        if l == "[[days]]"@ {
            days_header_step(st)
        } else if l == "[[days.expenses]]"@ {
            expenses_header_step(st)
        } else {
            fail(st)
        }
    } else {
        let ke = first_eq(l, 0);
        if ke == l.len() {
            fail(st)
        } else {
            let key = l.subrange(0, rtrim(l, 0, ke));
            let val = l.subrange(skip_spaces(l, ke + 1), l.len() as int);
            key_step(st, key, val)
        }
    }
}

/// One raw line of the document.
#[verifier::opaque]
pub open spec fn line_step(st: DocState, raw: Seq<char>) -> DocState {
    if st.failed {
        st
    } else {
        let l = clean_line(raw);
        if l.len() == 0 {
            st
        } else {
            content_step(st, l)
        }
    }
}

/// The whole document, line by line.
pub open spec fn doc_fold(st: DocState, s: Seq<char>) -> DocState
    decreases s.len(),
    via doc_fold_decreases
{
    if s.len() == 0 {
        st
    } else {
        let nl = first_nl(s, 0);
        let st2 = line_step(st, s.take(nl));
        if nl == s.len() {
            st2
        } else {
            doc_fold(st2, s.skip(nl + 1))
        }
    }
}

proof fn lemma_first_nl_range(s: Seq<char>, i: int)
    requires
        0 <= i <= s.len(),
    ensures
        i <= first_nl(s, i) <= s.len(),
    decreases s.len() - i,
{
    if i < s.len() && s[i] != '\n' {
        lemma_first_nl_range(s, i + 1);
    }
}

#[via_fn]
proof fn doc_fold_decreases(st: DocState, s: Seq<char>) {
    if s.len() > 0 {
        lemma_first_nl_range(s, 0);
    }
}

/// A failed state stays as it is: no later line revives it.
proof fn lemma_fold_failed(st: DocState, s: Seq<char>)
    requires
        st.failed,
    ensures
        doc_fold(st, s) == st,
    decreases s.len(),
{
    if s.len() > 0 {
        lemma_first_nl_range(s, 0);
        let nl = first_nl(s, 0);
        assert(line_step(st, s.take(nl)) == st) by {
            reveal(line_step);
        }
        if nl < s.len() {
            lemma_fold_failed(st, s.skip(nl + 1));
        }
    }
}

/// What the document describes, if it conforms: the fold of its lines,
/// the open sections closed, the required fields demanded, and the
/// omitted `essential_categories` defaulted to none.
pub open spec fn doc_account(s: Seq<char>) -> Option<DocAccount> {
    let st = doc_fold(init_state(), s);
    if st.failed {
        None
    } else {
        let st1 = if st.ctx == 2 {
            flush_exp(st)
        } else {
            st
        };
        if st1.failed {
            None
        } else {
            let st2 = if st1.ctx >= 1 {
                flush_day(st1)
            } else {
                st1
            };
            if st2.failed {
                None
            } else {
                match (st2.start_date, st2.end_date, st2.budget) {
                    (Some(sd), Some(ed), Some(bu)) => if st2.days_inline || st2.days.len() > 0 {
                        Some(
                            DocAccount {
                                start_date: sd,
                                end_date: ed,
                                budget: bu,
                                essential_categories: match st2.essential {
                                    Some(v) => v,
                                    None => Seq::empty(),
                                },
                                days: st2.days,
                            },
                        )
                    } else {
                        None
                    },
                    _ => None,
                }
            }
        }
    }
}

pub open spec fn doc_expense_count(days: Seq<DocDay>) -> int
    decreases days.len(),
{
    if days.len() == 0 {
        0
    } else {
        doc_expense_count(days.drop_last()) + days.last().expenses.len()
    }
}

/// The engine's caps, stated of the document's reading.
pub open spec fn doc_wf(g: DocAccount) -> bool {
    &&& g.start_date.wf()
    &&& g.end_date.wf()
    &&& crate::money::is_amount(g.budget)
    &&& forall|i: int| 0 <= i < g.days.len() ==> (#[trigger] g.days[i]).date.wf()
    &&& forall|i: int, j: int|
        0 <= i < g.days.len() && 0 <= j < (#[trigger] g.days[i].expenses).len() ==> crate::money::is_amount(
            (#[trigger] g.days[i].expenses[j]).price,
        ) && g.days[i].expenses[j].shared.len() <= crate::model::MAX_SHARED
    &&& doc_expense_count(g.days) <= crate::model::MAX_EXPENSES
}

/// What `parse_account` hands back on success: the document's reading,
/// when it conforms and stays inside the engine's caps.
pub open spec fn doc_result(s: Seq<char>) -> Option<DocAccount> {
    match doc_account(s) {
        Some(g) => if doc_wf(g) {
            Some(g)
        } else {
            None
        },
        None => None,
    }
}

pub open spec fn abs_expense(e: Expense) -> DocExpense {
    DocExpense {
        name: e.name@,
        price: e.price,
        shared: e.shared@.map_values(|s: String| s@),
        owed: e.owed,
        category: match e.category {
            Some(c) => Some(c@),
            None => None,
        },
    }
}

pub open spec fn abs_day(d: Day) -> DocDay {
    DocDay { date: d.date, expenses: d.expenses@.map_values(|e: Expense| abs_expense(e)) }
}

/// An `Account`, field values taken as plain sequences, for comparison
/// with a document's reading.
pub open spec fn abs_account(a: Account) -> DocAccount {
    DocAccount {
        start_date: a.start_date,
        end_date: a.end_date,
        budget: a.budget,
        essential_categories: a.essential_categories@.map_values(|s: String| s@),
        days: a.days@.map_values(|d: Day| abs_day(d)),
    }
}

fn format_err(line: usize, reason: FormatReason) -> (r: ParseError)
    ensures
        r == ParseError::DeserializerError(FormatError { line, reason }),
{
    ParseError::DeserializerError(FormatError { line, reason })
}

/// First `'\n'` at or after `p`, or the text's end.
#[verifier::loop_isolation(false)]
fn find_nl_exec(cs: &Vec<char>, p: usize) -> (r: usize)
    requires
        p <= cs@.len(),
    ensures
        p <= r <= cs@.len(),
        r as int - p as int == first_nl(cs@.skip(p as int), 0),
{
    let ghost rest = cs@.skip(p as int);
    let n = cs.len();
    let mut q = p;
    while q < n && cs[q] != '\n'
        invariant
            p <= q <= n,
            first_nl(rest, 0) == first_nl(rest, q as int - p as int),
        decreases n - q,
    {
        proof {
            assert(rest[q as int - p as int] == cs@[q as int]);
        }
        q = q + 1;
    }
    proof {
        if q < n {
            assert(rest[q as int - p as int] == cs@[q as int]);
        }
    }
    q
}

/// First `'='` at or after `p` in `cs[..close]`, or `close` if none.
#[verifier::loop_isolation(false)]
fn find_eq_exec(cs: &Vec<char>, ia: usize, close: usize, p: usize) -> (r: usize)
    requires
        ia <= p <= close <= cs@.len(),
    ensures
        p <= r <= close,
        r as int - ia as int == first_eq(
            cs@.subrange(ia as int, close as int),
            p as int - ia as int,
        ),
{
    let ghost inner = cs@.subrange(ia as int, close as int);
    let mut q = p;
    while q < close && cs[q] != '='
        invariant
            p <= q <= close,
            first_eq(inner, p as int - ia as int) == first_eq(inner, q as int - ia as int),
        decreases close - q,
    {
        proof {
            assert(inner[q as int - ia as int] == cs@[q as int]);
        }
        q = q + 1;
    }
    proof {
        if q < close {
            assert(inner[q as int - ia as int] == cs@[q as int]);
        }
    }
    q
}

/// End of `cs[..b]` in the window from `ia`, once trailing spaces down to
/// `aa` are dropped.
#[verifier::loop_isolation(false)]
fn rtrim_exec(cs: &Vec<char>, ia: usize, close: usize, aa: usize, b: usize) -> (r: usize)
    requires
        ia <= aa <= b <= close <= cs@.len(),
    ensures
        aa <= r <= b,
        r as int - ia as int == rtrim(
            cs@.subrange(ia as int, close as int),
            aa as int - ia as int,
            b as int - ia as int,
        ),
{
    let ghost inner = cs@.subrange(ia as int, close as int);
    let mut q = b;
    while q > aa && is_ws(cs[q - 1])
        invariant
            aa <= q <= b,
            rtrim(inner, aa as int - ia as int, b as int - ia as int) == rtrim(
                inner,
                aa as int - ia as int,
                q as int - ia as int,
            ),
        decreases q,
    {
        proof {
            assert(inner[q as int - 1 - ia as int] == cs@[q as int - 1]);
        }
        q = q - 1;
    }
    proof {
        if q > aa {
            assert(inner[q as int - 1 - ia as int] == cs@[q as int - 1]);
        }
    }
    q
}

/// The loader's state, as the executable builder variables carry it.
spec fn builder_model(
    start_date: Option<Date>,
    end_date: Option<Date>,
    budget: Option<Money>,
    essential: Option<Vec<String>>,
    days_given: bool,
    days: Vec<Day>,
    ctx: u8,
    day_date: Option<Date>,
    day_expenses: Vec<Expense>,
    exp_name: Option<String>,
    exp_price: Option<Money>,
    exp_shared: Vec<String>,
    exp_shared_set: bool,
    exp_owed: bool,
    exp_owed_set: bool,
    exp_category: Option<String>,
) -> DocState {
    DocState {
        failed: false,
        start_date,
        end_date,
        budget,
        essential: match essential {
            Some(v) => Some(v@.map_values(|s: String| s@)),
            None => None,
        },
        days_inline: days_given,
        days: days@.map_values(|d: Day| abs_day(d)),
        ctx: ctx as int,
        day_date,
        day_expenses: day_expenses@.map_values(|e: Expense| abs_expense(e)),
        exp_name: match exp_name {
            Some(s) => Some(s@),
            None => None,
        },
        exp_price,
        exp_shared: if exp_shared_set {
            Some(exp_shared@.map_values(|s: String| s@))
        } else {
            None
        },
        exp_owed: if exp_owed_set {
            Some(exp_owed)
        } else {
            None
        },
        exp_category: match exp_category {
            Some(s) => Some(s@),
            None => None,
        },
    }
}

proof fn lemma_count_abs(days: Seq<Day>)
    ensures
        doc_expense_count(days.map_values(|d: Day| abs_day(d))) == crate::model::expense_count(
            days,
        ),
    decreases days.len(),
{
    let m = days.map_values(|d: Day| abs_day(d));
    if days.len() > 0 {
        assert(m.drop_last() =~= days.drop_last().map_values(|d: Day| abs_day(d)));
        assert(m.last() == abs_day(days.last()));
        lemma_count_abs(days.drop_last());
    }
}

/// A ledger is within the engine's caps exactly when its reading is.
proof fn lemma_wf_abs(a: Account)
    ensures
        a.wf() == doc_wf(abs_account(a)),
{
    let g = abs_account(a);
    lemma_count_abs(a.days@);
    if a.wf() {
        assert forall|i: int| 0 <= i < g.days.len() implies (#[trigger] g.days[i]).date.wf() by {
            assert(a.days@[i].wf());
            assert(g.days[i] == abs_day(a.days@[i]));
        }
        assert forall|i: int, j: int|
            0 <= i < g.days.len() && 0 <= j < (#[trigger] g.days[i].expenses).len() implies crate::money::is_amount(
            (#[trigger] g.days[i].expenses[j]).price,
        ) && g.days[i].expenses[j].shared.len() <= crate::model::MAX_SHARED by {
            assert(a.days@[i].wf());
            assert(g.days[i] == abs_day(a.days@[i]));
            assert(g.days[i].expenses[j] == abs_expense(a.days@[i].expenses@[j]));
            assert(a.days@[i].expenses@[j].wf());
        }
        assert(doc_wf(g));
    }
    if doc_wf(g) {
        assert forall|i: int| 0 <= i < a.days@.len() implies (#[trigger] a.days@[i]).wf() by {
            assert(g.days[i] == abs_day(a.days@[i]));
            assert(g.days[i].date.wf());
            assert forall|j: int|
                0 <= j < a.days@[i].expenses@.len() implies (
            #[trigger] a.days@[i].expenses@[j]).wf() by {
                assert(g.days[i].expenses[j] == abs_expense(a.days@[i].expenses@[j]));
            }
        }
        assert(a.wf());
    }
}

/// One top-level `key = value` line.
#[verifier::rlimit(100)]
fn top_key(
    text: &str,
    cs: &Vec<char>,
    a: usize,
    ka: usize,
    va: usize,
    b: usize,
    lineno: usize,
    start_date: &mut Option<Date>,
    end_date: &mut Option<Date>,
    budget: &mut Option<Money>,
    essential: &mut Option<Vec<String>>,
    days_given: &mut bool,
    days_empty: bool,
    Ghost(m0): Ghost<DocState>,
    Ghost(key): Ghost<Seq<char>>,
    Ghost(val): Ghost<Seq<char>>,
) -> (r: Option<ParseError>)
    requires
        cs@ == text@,
        a <= ka <= b <= cs@.len(),
        va <= b,
        a <= va,
        key == cs@.subrange(a as int, ka as int),
        val == cs@.subrange(va as int, b as int),
        !m0.failed,
        m0.ctx == 0,
        m0.start_date == *old(start_date),
        m0.end_date == *old(end_date),
        m0.budget == *old(budget),
        m0.essential == (match *old(essential) {
            Some(v) => Some(v@.map_values(|s: String| s@)),
            None => None::<Seq<Seq<char>>>,
        }),
        m0.days_inline == *old(days_given),
        (m0.days.len() == 0) == days_empty,
    ensures
        match r {
            None => key_step(m0, key, val) == DocState {
                start_date: *final(start_date),
                end_date: *final(end_date),
                budget: *final(budget),
                essential: (match *final(essential) {
                    Some(v) => Some(v@.map_values(|s: String| s@)),
                    None => None::<Seq<Seq<char>>>,
                }),
                days_inline: *final(days_given),
                ..m0
            },
            Some(e) => key_step(m0, key, val).failed && e is DeserializerError,
        },
{
    if eq_kw(cs, a, ka, "start_date") {
        if start_date.is_some() {
            proof {
                reveal(key_step);
            }
            return Some(format_err(lineno, FormatReason::DuplicateKey));
        }
        let d = match parse_date(cs, va, b) {
            Some(d) => d,
            None => {
                proof {
                    reveal(key_step);
                }
                return Some(format_err(lineno, FormatReason::BadDate));
            },
        };
        proof {
            reveal(key_step);
            assert(key_step(m0, key, val) == DocState { start_date: Some(d), ..m0 });
        }
        *start_date = Some(d);
    } else if eq_kw(cs, a, ka, "end_date") {
        if end_date.is_some() {
            proof {
                reveal(key_step);
            }
            return Some(format_err(lineno, FormatReason::DuplicateKey));
        }
        let d = match parse_date(cs, va, b) {
            Some(d) => d,
            None => {
                proof {
                    reveal(key_step);
                }
                return Some(format_err(lineno, FormatReason::BadDate));
            },
        };
        proof {
            reveal(key_step);
            assert(key_step(m0, key, val) == DocState { end_date: Some(d), ..m0 });
        }
        *end_date = Some(d);
    } else if eq_kw(cs, a, ka, "budget") {
        if budget.is_some() {
            proof {
                reveal(key_step);
            }
            return Some(format_err(lineno, FormatReason::DuplicateKey));
        }
        let m = match parse_number(cs, va, b) {
            Some(m) => m,
            None => {
                proof {
                    reveal(key_step);
                }
                return Some(format_err(lineno, FormatReason::BadNumber));
            },
        };
        proof {
            reveal(key_step);
            assert(key_step(m0, key, val) == DocState { budget: Some(m), ..m0 });
        }
        *budget = Some(m);
    } else if eq_kw(cs, a, ka, "essential_categories") {
        if essential.is_some() {
            proof {
                reveal(key_step);
            }
            return Some(format_err(lineno, FormatReason::DuplicateKey));
        }
        let v = match parse_str_array(text, cs, va, b) {
            Some(v) => v,
            None => {
                proof {
                    reveal(key_step);
                }
                return Some(format_err(lineno, FormatReason::BadArray));
            },
        };
        proof {
            reveal(key_step);
            assert(v@.map_values(|s: String| s@) =~= spec_array(val).unwrap());
            assert(key_step(m0, key, val) == DocState {
                essential: Some(v@.map_values(|s: String| s@)),
                ..m0
            });
        }
        *essential = Some(v);
    } else if eq_kw(cs, a, ka, "days") {
        if *days_given || !days_empty {
            proof {
                reveal(key_step);
            }
            return Some(format_err(lineno, FormatReason::DuplicateKey));
        }
        // Only the empty array can be written inline; day entries come as
        // their own sections.
        match parse_str_array(text, cs, va, b) {
            Some(v) => {
                if v.len() > 0 {
                    proof {
                        reveal(key_step);
                        assert(spec_array(val).unwrap().len() > 0);
                    }
                    return Some(format_err(lineno, FormatReason::BadArray));
                }
            },
            None => {
                proof {
                    reveal(key_step);
                }
                return Some(format_err(lineno, FormatReason::BadArray));
            },
        }
        proof {
            reveal(key_step);
            assert(key_step(m0, key, val) == DocState { days_inline: true, ..m0 });
        }
        *days_given = true;
    } else {
        proof {
            reveal(key_step);
            reveal_strlit("start_date");
            reveal_strlit("end_date");
            reveal_strlit("budget");
            reveal_strlit("essential_categories");
            reveal_strlit("days");
        }
        return Some(format_err(lineno, FormatReason::UnknownKey));
    }
    None
}

/// One `key = value` line inside a day section.
#[verifier::rlimit(100)]
fn day_key(
    cs: &Vec<char>,
    a: usize,
    ka: usize,
    va: usize,
    b: usize,
    lineno: usize,
    day_date: &mut Option<Date>,
    Ghost(m0): Ghost<DocState>,
    Ghost(key): Ghost<Seq<char>>,
    Ghost(val): Ghost<Seq<char>>,
) -> (r: Option<ParseError>)
    requires
        a <= ka <= b <= cs@.len(),
        va <= b,
        a <= va,
        key == cs@.subrange(a as int, ka as int),
        val == cs@.subrange(va as int, b as int),
        !m0.failed,
        m0.ctx == 1,
        m0.day_date == *old(day_date),
    ensures
        match r {
            None => key_step(m0, key, val) == DocState { day_date: *final(day_date), ..m0 },
            Some(e) => key_step(m0, key, val).failed && e is DeserializerError,
        },
{
    if eq_kw(cs, a, ka, "date") {
        if day_date.is_some() {
            proof {
                reveal(key_step);
            }
            return Some(format_err(lineno, FormatReason::DuplicateKey));
        }
        let d = match parse_date(cs, va, b) {
            Some(d) => d,
            None => {
                proof {
                    reveal(key_step);
                }
                return Some(format_err(lineno, FormatReason::BadDate));
            },
        };
        proof {
            reveal(key_step);
            assert(key_step(m0, key, val) == DocState { day_date: Some(d), ..m0 });
        }
        *day_date = Some(d);
    } else {
        proof {
            reveal(key_step);
            reveal_strlit("date");
        }
        return Some(format_err(lineno, FormatReason::UnknownKey));
    }
    None
}

/// One `key = value` line inside an expense section.
#[verifier::rlimit(100)]
fn exp_key(
    text: &str,
    cs: &Vec<char>,
    a: usize,
    ka: usize,
    va: usize,
    b: usize,
    lineno: usize,
    exp_name: &mut Option<String>,
    exp_price: &mut Option<Money>,
    exp_shared: &mut Vec<String>,
    exp_shared_set: &mut bool,
    exp_owed: &mut bool,
    exp_owed_set: &mut bool,
    exp_category: &mut Option<String>,
    Ghost(m0): Ghost<DocState>,
    Ghost(key): Ghost<Seq<char>>,
    Ghost(val): Ghost<Seq<char>>,
) -> (r: Option<ParseError>)
    requires
        cs@ == text@,
        a <= ka <= b <= cs@.len(),
        va <= b,
        a <= va,
        key == cs@.subrange(a as int, ka as int),
        val == cs@.subrange(va as int, b as int),
        !m0.failed,
        m0.ctx == 2,
        m0.exp_name == (match *old(exp_name) {
            Some(s) => Some(s@),
            None => None::<Seq<char>>,
        }),
        m0.exp_price == *old(exp_price),
        m0.exp_shared == (if *old(exp_shared_set) {
            Some(old(exp_shared)@.map_values(|s: String| s@))
        } else {
            None::<Seq<Seq<char>>>
        }),
        m0.exp_owed == (if *old(exp_owed_set) {
            Some(*old(exp_owed))
        } else {
            None::<bool>
        }),
        m0.exp_category == (match *old(exp_category) {
            Some(s) => Some(s@),
            None => None::<Seq<char>>,
        }),
        *old(exp_shared_set) || old(exp_shared)@.len() == 0,
        *old(exp_owed_set) || *old(exp_owed) == false,
    ensures
        *final(exp_shared_set) || final(exp_shared)@.len() == 0,
        *final(exp_owed_set) || *final(exp_owed) == false,
        match r {
            None => key_step(m0, key, val) == DocState {
                exp_name: (match *final(exp_name) {
                    Some(s) => Some(s@),
                    None => None::<Seq<char>>,
                }),
                exp_price: *final(exp_price),
                exp_shared: (if *final(exp_shared_set) {
                    Some(final(exp_shared)@.map_values(|s: String| s@))
                } else {
                    None::<Seq<Seq<char>>>
                }),
                exp_owed: (if *final(exp_owed_set) {
                    Some(*final(exp_owed))
                } else {
                    None::<bool>
                }),
                exp_category: (match *final(exp_category) {
                    Some(s) => Some(s@),
                    None => None::<Seq<char>>,
                }),
                ..m0
            },
            Some(e) => key_step(m0, key, val).failed && e is DeserializerError,
        },
{
    if eq_kw(cs, a, ka, "name") {
        if exp_name.is_some() {
            proof {
                reveal(key_step);
            }
            return Some(format_err(lineno, FormatReason::DuplicateKey));
        }
        let st = match parse_string(text, cs, va, b) {
            Some(st) => st,
            None => {
                proof {
                    reveal(key_step);
                }
                return Some(format_err(lineno, FormatReason::BadString));
            },
        };
        proof {
            reveal(key_step);
            assert(st@ =~= val.subrange(1, val.len() - 1));
            assert(key_step(m0, key, val) == DocState { exp_name: Some(st@), ..m0 });
        }
        *exp_name = Some(st);
    } else if eq_kw(cs, a, ka, "price") {
        if exp_price.is_some() {
            proof {
                reveal(key_step);
            }
            return Some(format_err(lineno, FormatReason::DuplicateKey));
        }
        let m = match parse_number(cs, va, b) {
            Some(m) => m,
            None => {
                proof {
                    reveal(key_step);
                }
                return Some(format_err(lineno, FormatReason::BadNumber));
            },
        };
        proof {
            reveal(key_step);
            assert(key_step(m0, key, val) == DocState { exp_price: Some(m), ..m0 });
        }
        *exp_price = Some(m);
    } else if eq_kw(cs, a, ka, "shared") {
        if *exp_shared_set {
            proof {
                reveal(key_step);
            }
            return Some(format_err(lineno, FormatReason::DuplicateKey));
        }
        let v = match parse_str_array(text, cs, va, b) {
            Some(v) => v,
            None => {
                proof {
                    reveal(key_step);
                }
                return Some(format_err(lineno, FormatReason::BadArray));
            },
        };
        proof {
            reveal(key_step);
            assert(v@.map_values(|s: String| s@) =~= spec_array(val).unwrap());
            assert(key_step(m0, key, val) == DocState {
                exp_shared: Some(v@.map_values(|s: String| s@)),
                ..m0
            });
        }
        *exp_shared = v;
        *exp_shared_set = true;
    } else if eq_kw(cs, a, ka, "owed") {
        if *exp_owed_set {
            proof {
                reveal(key_step);
            }
            return Some(format_err(lineno, FormatReason::DuplicateKey));
        }
        let v = match parse_bool(cs, va, b) {
            Some(v) => v,
            None => {
                proof {
                    reveal(key_step);
                }
                return Some(format_err(lineno, FormatReason::BadBool));
            },
        };
        proof {
            reveal(key_step);
            assert(key_step(m0, key, val) == DocState { exp_owed: Some(v), ..m0 });
        }
        *exp_owed = v;
        *exp_owed_set = true;
    } else if eq_kw(cs, a, ka, "category") {
        if exp_category.is_some() {
            proof {
                reveal(key_step);
            }
            return Some(format_err(lineno, FormatReason::DuplicateKey));
        }
        let st = match parse_string(text, cs, va, b) {
            Some(st) => st,
            None => {
                proof {
                    reveal(key_step);
                }
                return Some(format_err(lineno, FormatReason::BadString));
            },
        };
        proof {
            reveal(key_step);
            assert(st@ =~= val.subrange(1, val.len() - 1));
            assert(key_step(m0, key, val) == DocState { exp_category: Some(st@), ..m0 });
        }
        *exp_category = Some(st);
    } else {
        proof {
            reveal(key_step);
            reveal_strlit("name");
            reveal_strlit("price");
            reveal_strlit("shared");
            reveal_strlit("owed");
            reveal_strlit("category");
        }
        return Some(format_err(lineno, FormatReason::UnknownKey));
    }
    None
}

/// One non-blank content line: a section header or a `key = value` line.
#[verifier::rlimit(100)]
fn content_line(
    text: &str,
    cs: &Vec<char>,
    a: usize,
    b: usize,
    lineno: usize,
    start_date: &mut Option<Date>,
    end_date: &mut Option<Date>,
    budget: &mut Option<Money>,
    essential: &mut Option<Vec<String>>,
    days_given: &mut bool,
    days: &mut Vec<Day>,
    ctx: &mut u8,
    day_date: &mut Option<Date>,
    day_expenses: &mut Vec<Expense>,
    exp_name: &mut Option<String>,
    exp_price: &mut Option<Money>,
    exp_shared: &mut Vec<String>,
    exp_shared_set: &mut bool,
    exp_owed: &mut bool,
    exp_owed_set: &mut bool,
    exp_category: &mut Option<String>,
    Ghost(cl): Ghost<Seq<char>>,
) -> (r: Option<ParseError>)
    requires
        cs@ == text@,
        a < b <= cs@.len(),
        cl == cs@.subrange(a as int, b as int),
        *old(ctx) <= 2,
        *old(exp_shared_set) || old(exp_shared)@.len() == 0,
        *old(exp_owed_set) || *old(exp_owed) == false,
    ensures
        *final(ctx) <= 2,
        *final(exp_shared_set) || final(exp_shared)@.len() == 0,
        *final(exp_owed_set) || *final(exp_owed) == false,
        match r {
            None => content_step(
                builder_model(
                    *old(start_date),
                    *old(end_date),
                    *old(budget),
                    *old(essential),
                    *old(days_given),
                    *old(days),
                    *old(ctx),
                    *old(day_date),
                    *old(day_expenses),
                    *old(exp_name),
                    *old(exp_price),
                    *old(exp_shared),
                    *old(exp_shared_set),
                    *old(exp_owed),
                    *old(exp_owed_set),
                    *old(exp_category),
                ),
                cl,
            ) == builder_model(
                *final(start_date),
                *final(end_date),
                *final(budget),
                *final(essential),
                *final(days_given),
                *final(days),
                *final(ctx),
                *final(day_date),
                *final(day_expenses),
                *final(exp_name),
                *final(exp_price),
                *final(exp_shared),
                *final(exp_shared_set),
                *final(exp_owed),
                *final(exp_owed_set),
                *final(exp_category),
            ),
            Some(e) => content_step(
                builder_model(
                    *old(start_date),
                    *old(end_date),
                    *old(budget),
                    *old(essential),
                    *old(days_given),
                    *old(days),
                    *old(ctx),
                    *old(day_date),
                    *old(day_expenses),
                    *old(exp_name),
                    *old(exp_price),
                    *old(exp_shared),
                    *old(exp_shared_set),
                    *old(exp_owed),
                    *old(exp_owed_set),
                    *old(exp_category),
                ),
                cl,
            ).failed && e is DeserializerError,
        },
{
    let ghost m0 = builder_model(
        *start_date,
        *end_date,
        *budget,
        *essential,
        *days_given,
        *days,
        *ctx,
        *day_date,
        *day_expenses,
        *exp_name,
        *exp_price,
        *exp_shared,
        *exp_shared_set,
        *exp_owed,
        *exp_owed_set,
        *exp_category,
    );
    proof {
        assert(cl[0] == cs@[a as int]);
        if b - a >= 2 {
            assert(cl[1] == cs@[a as int + 1]);
        }
    }
    if cs[a] == '[' && b - a >= 2 && cs[a + 1] == '[' {
        if eq_kw(cs, a, b, "[[days]]") {
            proof {
                assert(cl == "[[days]]"@);
                assert(content_step(m0, cl) == days_header_step(m0)) by {
                    reveal(content_step);
                }
            }
            if *ctx == 2 {
                let mut nm: Option<String> = None;
                let mut pr: Option<Money> = None;
                core::mem::swap(exp_name, &mut nm);
                core::mem::swap(exp_price, &mut pr);
                let (nm, pr) = match (nm, pr) {
                    (Some(nm), Some(pr)) => (nm, pr),
                    _ => {
                        proof {
                            assert(days_header_step(m0).failed);
                        }
                        return Some(format_err(lineno, FormatReason::MissingField));
                    },
                };
                let mut sh: Vec<String> = Vec::new();
                core::mem::swap(exp_shared, &mut sh);
                let mut cat: Option<String> = None;
                core::mem::swap(exp_category, &mut cat);
                let e = Expense { name: nm, price: pr, shared: sh, owed: *exp_owed, category: cat };
                proof {
                    if !*exp_shared_set {
                        assert(e.shared@.map_values(|s: String| s@) =~= Seq::<Seq<char>>::empty());
                    }
                    assert(abs_expense(e) == flush_exp(m0).day_expenses.last());
                }
                day_expenses.push(e);
                proof {
                    assert(day_expenses@.map_values(|x: Expense| abs_expense(x)) =~= flush_exp(
                        m0,
                    ).day_expenses);
                }
                *exp_shared_set = false;
                *exp_owed = false;
                *exp_owed_set = false;
            }
            let ghost m1 = if m0.ctx == 2 {
                flush_exp(m0)
            } else {
                m0
            };
            if *ctx >= 1 {
                let mut dt: Option<Date> = None;
                core::mem::swap(day_date, &mut dt);
                let dt = match dt {
                    Some(dt) => dt,
                    None => {
                        proof {
                            assert(days_header_step(m0).failed);
                        }
                        return Some(format_err(lineno, FormatReason::MissingField));
                    },
                };
                let mut dexp: Vec<Expense> = Vec::new();
                core::mem::swap(day_expenses, &mut dexp);
                let d = Day { date: dt, expenses: dexp };
                proof {
                    assert(abs_day(d) == flush_day(m1).days.last());
                }
                days.push(d);
                proof {
                    assert(days@.map_values(|x: Day| abs_day(x)) =~= flush_day(m1).days);
                    assert(day_expenses@.map_values(|e: Expense| abs_expense(e)) =~= Seq::<
                        DocExpense,
                    >::empty());
                }
            }
            *ctx = 1;
            proof {
                assert(days_header_step(m0) =~~= builder_model(
                    *start_date,
                    *end_date,
                    *budget,
                    *essential,
                    *days_given,
                    *days,
                    *ctx,
                    *day_date,
                    *day_expenses,
                    *exp_name,
                    *exp_price,
                    *exp_shared,
                    *exp_shared_set,
                    *exp_owed,
                    *exp_owed_set,
                    *exp_category,
                ));
            }
            return None;
        } else if eq_kw(cs, a, b, "[[days.expenses]]") {
            proof {
                reveal_strlit("[[days]]");
                reveal_strlit("[[days.expenses]]");
                assert(cl == "[[days.expenses]]"@);
                assert(cl != "[[days]]"@);
                assert(content_step(m0, cl) == expenses_header_step(m0)) by {
                    reveal(content_step);
                }
            }
            if *ctx == 0 {
                proof {
                    assert(expenses_header_step(m0).failed);
                }
                return Some(format_err(lineno, FormatReason::UnknownKey));
            }
            if *ctx == 2 {
                let mut nm: Option<String> = None;
                let mut pr: Option<Money> = None;
                core::mem::swap(exp_name, &mut nm);
                core::mem::swap(exp_price, &mut pr);
                let (nm, pr) = match (nm, pr) {
                    (Some(nm), Some(pr)) => (nm, pr),
                    _ => {
                        proof {
                            assert(expenses_header_step(m0).failed);
                        }
                        return Some(format_err(lineno, FormatReason::MissingField));
                    },
                };
                let mut sh: Vec<String> = Vec::new();
                core::mem::swap(exp_shared, &mut sh);
                let mut cat: Option<String> = None;
                core::mem::swap(exp_category, &mut cat);
                let e = Expense { name: nm, price: pr, shared: sh, owed: *exp_owed, category: cat };
                proof {
                    if !*exp_shared_set {
                        assert(e.shared@.map_values(|s: String| s@) =~= Seq::<Seq<char>>::empty());
                    }
                    assert(abs_expense(e) == flush_exp(m0).day_expenses.last());
                }
                day_expenses.push(e);
                proof {
                    assert(day_expenses@.map_values(|x: Expense| abs_expense(x)) =~= flush_exp(
                        m0,
                    ).day_expenses);
                }
            }
            *exp_name = None;
            *exp_price = None;
            *exp_shared = Vec::new();
            *exp_shared_set = false;
            *exp_owed = false;
            *exp_owed_set = false;
            *exp_category = None;
            *ctx = 2;
            proof {
                assert(expenses_header_step(m0) =~~= builder_model(
                    *start_date,
                    *end_date,
                    *budget,
                    *essential,
                    *days_given,
                    *days,
                    *ctx,
                    *day_date,
                    *day_expenses,
                    *exp_name,
                    *exp_price,
                    *exp_shared,
                    *exp_shared_set,
                    *exp_owed,
                    *exp_owed_set,
                    *exp_category,
                ));
            }
            return None;
        } else {
            proof {
                assert(content_step(m0, cl).failed) by {
                    reveal(content_step);
                }
            }
            return Some(format_err(lineno, FormatReason::BadLine));
        }
    }
    // A key = value line.
    let ke = find_eq_exec(cs, a, b, a);
    if ke == b {
        proof {
            assert(first_eq(cl, 0) == cl.len());
            assert(content_step(m0, cl).failed) by {
                reveal(content_step);
            }
        }
        return Some(format_err(lineno, FormatReason::BadLine));
    }
    let ka = rtrim_exec(cs, a, b, a, ke);
    let va = skip_ws_exec(cs, a, b, ke + 1);
    let ghost key = cl.subrange(0, rtrim(cl, 0, first_eq(cl, 0)));
    let ghost val = cl.subrange(skip_spaces(cl, first_eq(cl, 0) + 1), cl.len() as int);
    proof {
        assert(key =~= cs@.subrange(a as int, ka as int));
        assert(val =~= cs@.subrange(va as int, b as int));
        assert(content_step(m0, cl) == key_step(m0, key, val)) by {
            reveal(content_step);
        }
    }
    if *ctx == 0 {
        let e = top_key(
            text,
            cs,
            a,
            ka,
            va,
            b,
            lineno,
            start_date,
            end_date,
            budget,
            essential,
            days_given,
            days.len() == 0,
            Ghost(m0),
            Ghost(key),
            Ghost(val),
        );
        match e {
            Some(err) => {
                return Some(err);
            },
            None => {},
        }
        proof {
            assert(key_step(m0, key, val) =~~= builder_model(
                *start_date,
                *end_date,
                *budget,
                *essential,
                *days_given,
                *days,
                *ctx,
                *day_date,
                *day_expenses,
                *exp_name,
                *exp_price,
                *exp_shared,
                *exp_shared_set,
                *exp_owed,
                *exp_owed_set,
                *exp_category,
            ));
        }
    } else if *ctx == 1 {
        let e = day_key(cs, a, ka, va, b, lineno, day_date, Ghost(m0), Ghost(key), Ghost(val));
        match e {
            Some(err) => {
                return Some(err);
            },
            None => {},
        }
        proof {
            assert(key_step(m0, key, val) =~~= builder_model(
                *start_date,
                *end_date,
                *budget,
                *essential,
                *days_given,
                *days,
                *ctx,
                *day_date,
                *day_expenses,
                *exp_name,
                *exp_price,
                *exp_shared,
                *exp_shared_set,
                *exp_owed,
                *exp_owed_set,
                *exp_category,
            ));
        }
    } else {
        let e = exp_key(
            text,
            cs,
            a,
            ka,
            va,
            b,
            lineno,
            exp_name,
            exp_price,
            exp_shared,
            exp_shared_set,
            exp_owed,
            exp_owed_set,
            exp_category,
            Ghost(m0),
            Ghost(key),
            Ghost(val),
        );
        match e {
            Some(err) => {
                return Some(err);
            },
            None => {},
        }
        proof {
            assert(key_step(m0, key, val) =~~= builder_model(
                *start_date,
                *end_date,
                *budget,
                *essential,
                *days_given,
                *days,
                *ctx,
                *day_date,
                *day_expenses,
                *exp_name,
                *exp_price,
                *exp_shared,
                *exp_shared_set,
                *exp_owed,
                *exp_owed_set,
                *exp_category,
            ));
        }
    }
    None
}

/// Reads a whole ledger document into an `Account`: the result is the
/// document's reading, exactly — `Ok` for a conforming document within the
/// engine's caps, holding every parsed field with omitted optional fields
/// defaulted, and a classified format failure naming its first offending
/// line otherwise. No partial ledger is ever returned.
#[verifier::rlimit(100)]
pub fn parse_account(text: &str) -> (r: Result<Account, ParseError>)
    ensures
        (r is Ok) == (doc_result(text@) is Some),
        r matches Ok(a) ==> a.wf() && abs_account(a) == doc_result(text@).unwrap(),
        r matches Err(e) ==> e is DeserializerError,
{
    let cs = to_chars(text);
    let n = cs.len();
    let mut start_date: Option<Date> = None;
    let mut end_date: Option<Date> = None;
    let mut budget: Option<Money> = None;
    let mut essential: Option<Vec<String>> = None;
    let mut days: Vec<Day> = Vec::new();
    let mut days_given: bool = false;
    // 0: top level; 1: inside a day; 2: inside an expense.
    let mut ctx: u8 = 0;
    let mut day_date: Option<Date> = None;
    let mut day_expenses: Vec<Expense> = Vec::new();
    let mut exp_name: Option<String> = None;
    let mut exp_price: Option<Money> = None;
    let mut exp_shared: Vec<String> = Vec::new();
    let mut exp_shared_set: bool = false;
    let mut exp_owed: bool = false;
    let mut exp_owed_set: bool = false;
    let mut exp_category: Option<String> = None;
    let mut pos: usize = 0;
    let mut lineno: usize = 0;
    proof {
        assert(days@.map_values(|d: Day| abs_day(d)) =~= Seq::<DocDay>::empty());
        assert(day_expenses@.map_values(|e: Expense| abs_expense(e)) =~= Seq::<
            DocExpense,
        >::empty());
        assert(cs@.skip(0) =~= cs@);
    }
    while pos < n
        invariant
            n == cs@.len(),
            cs@ == text@,
            0 <= pos <= n,
            lineno <= pos,
            ctx <= 2,
            exp_shared_set || exp_shared@.len() == 0,
            exp_owed_set || exp_owed == false,
            doc_fold(init_state(), text@) == doc_fold(
                builder_model(
                    start_date,
                    end_date,
                    budget,
                    essential,
                    days_given,
                    days,
                    ctx,
                    day_date,
                    day_expenses,
                    exp_name,
                    exp_price,
                    exp_shared,
                    exp_shared_set,
                    exp_owed,
                    exp_owed_set,
                    exp_category,
                ),
                cs@.skip(pos as int),
            ),
        decreases n - pos,
    {
        let ghost m0 = builder_model(
            start_date,
            end_date,
            budget,
            essential,
            days_given,
            days,
            ctx,
            day_date,
            day_expenses,
            exp_name,
            exp_price,
            exp_shared,
            exp_shared_set,
            exp_owed,
            exp_owed_set,
            exp_category,
        );
        let ghost rest = cs@.skip(pos as int);
        lineno = lineno + 1;
        let le = find_nl_exec(&cs, pos);
        let next_pos = if le < n {
            le + 1
        } else {
            n
        };
        let ghost nl = le as int - pos as int;
        let ghost raw = rest.take(nl);
        proof {
            assert(raw =~= cs@.subrange(pos as int, le as int));
            if nl < rest.len() {
                assert(rest.skip(nl + 1) =~= cs@.skip(next_pos as int));
            } else {
                assert(cs@.skip(next_pos as int) =~= Seq::<char>::empty());
            }
            assert(doc_fold(init_state(), text@) == doc_fold(
                line_step(m0, raw),
                cs@.skip(next_pos as int),
            ));
        }
        let mut b: usize = le;
        if b > pos && cs[b - 1] == '\r' {
            b = b - 1;
        }
        let ghost l1 = strip_cr(raw);
        proof {
            if raw.len() > 0 {
                assert(raw.last() == cs@[le as int - 1]);
            }
            assert(l1 =~= cs@.subrange(pos as int, b as int));
        }
        // Cut a comment, leaving quoted text alone.
        let mut cut: usize = b;
        let mut scan: usize = pos;
        let mut in_str: bool = false;
        while scan < b
            invariant
                pos <= scan <= b <= cs@.len(),
                pos <= cut <= b,
                l1 == cs@.subrange(pos as int, b as int),
                comment_cut(l1, 0, false) == (if cut < b {
                    cut as int - pos as int
                } else {
                    comment_cut(l1, scan as int - pos as int, in_str)
                }),
            decreases b - scan,
        {
            let c = cs[scan];
            proof {
                assert(l1[scan as int - pos as int] == cs@[scan as int]);
            }
            if c == '"' {
                in_str = !in_str;
            } else if c == '#' && !in_str && cut == b {
                cut = scan;
            } else {
            }
            scan = scan + 1;
        }
        b = cut;
        let ghost l2 = l1.take(comment_cut(l1, 0, false));
        proof {
            assert(l2 =~= cs@.subrange(pos as int, b as int));
        }
        // Trim surrounding whitespace.
        let a = skip_ws_exec(&cs, pos, b, pos);
        let nb = rtrim_exec(&cs, pos, b, a, b);
        b = nb;
        let ghost cl = clean_line(raw);
        proof {
            assert(cl =~= cs@.subrange(a as int, b as int));
        }
        if a == b {
            proof {
                assert(cl.len() == 0);
                reveal(line_step);
                assert(line_step(m0, raw) == m0);
            }
            pos = next_pos;
            continue ;
        }
        let e = content_line(
            text,
            &cs,
            a,
            b,
            lineno,
            &mut start_date,
            &mut end_date,
            &mut budget,
            &mut essential,
            &mut days_given,
            &mut days,
            &mut ctx,
            &mut day_date,
            &mut day_expenses,
            &mut exp_name,
            &mut exp_price,
            &mut exp_shared,
            &mut exp_shared_set,
            &mut exp_owed,
            &mut exp_owed_set,
            &mut exp_category,
            Ghost(cl),
        );
        proof {
            assert(line_step(m0, raw) == content_step(m0, cl)) by {
                reveal(line_step);
            }
        }
        match e {
            Some(err) => {
                proof {
                    lemma_fold_failed(line_step(m0, raw), cs@.skip(next_pos as int));
                }
                return Err(err);
            },
            None => {},
        }
        pos = next_pos;
    }
    // Close whatever stayed open, then demand the required fields.
    let ghost mfin = builder_model(
        start_date,
        end_date,
        budget,
        essential,
        days_given,
        days,
        ctx,
        day_date,
        day_expenses,
        exp_name,
        exp_price,
        exp_shared,
        exp_shared_set,
        exp_owed,
        exp_owed_set,
        exp_category,
    );
    proof {
        assert(cs@.skip(pos as int) =~= Seq::<char>::empty());
        assert(doc_fold(init_state(), text@) == mfin);
    }
    if ctx == 2 {
        let nm = exp_name;
        let pr = exp_price;
        let (nm, pr) = match (nm, pr) {
            (Some(nm), Some(pr)) => (nm, pr),
            _ => {
                proof {
                    assert(flush_exp(mfin).failed);
                }
                return Err(format_err(lineno, FormatReason::MissingField));
            },
        };
        let e = Expense {
            name: nm,
            price: pr,
            shared: exp_shared,
            owed: exp_owed,
            category: exp_category,
        };
        proof {
            if !exp_shared_set {
                assert(e.shared@.map_values(|s: String| s@) =~= Seq::<Seq<char>>::empty());
            }
            assert(abs_expense(e) == flush_exp(mfin).day_expenses.last());
        }
        day_expenses.push(e);
        proof {
            assert(day_expenses@.map_values(|x: Expense| abs_expense(x)) =~= flush_exp(
                mfin,
            ).day_expenses);
        }
    }
    let ghost m1 = if mfin.ctx == 2 {
        flush_exp(mfin)
    } else {
        mfin
    };
    if ctx >= 1 {
        let dt = match day_date {
            Some(dt) => dt,
            None => {
                proof {
                    assert(flush_day(m1).failed);
                }
                return Err(format_err(lineno, FormatReason::MissingField));
            },
        };
        let d = Day { date: dt, expenses: day_expenses };
        proof {
            assert(abs_day(d) == flush_day(m1).days.last());
        }
        days.push(d);
        proof {
            assert(days@.map_values(|x: Day| abs_day(x)) =~= flush_day(m1).days);
        }
    }
    let ghost m2 = if m1.ctx >= 1 {
        flush_day(m1)
    } else {
        m1
    };
    proof {
        assert(days@.map_values(|x: Day| abs_day(x)) == m2.days);
    }
    let sd = match start_date {
        Some(d) => d,
        None => {
            return Err(format_err(0, FormatReason::MissingField));
        },
    };
    let ed = match end_date {
        Some(d) => d,
        None => {
            return Err(format_err(0, FormatReason::MissingField));
        },
    };
    let bu = match budget {
        Some(m) => m,
        None => {
            return Err(format_err(0, FormatReason::MissingField));
        },
    };
    if !days_given && days.len() == 0 {
        proof {
            assert(m2.days.len() == 0 && !m2.days_inline);
        }
        return Err(format_err(0, FormatReason::MissingField));
    }
    let ess = match essential {
        Some(v) => v,
        None => Vec::new(),
    };
    let account = Account {
        start_date: sd,
        end_date: ed,
        budget: bu,
        essential_categories: ess,
        days,
    };
    proof {
        assert(doc_account(text@) is Some);
        assert(abs_account(account) =~~= doc_account(text@).unwrap());
        lemma_wf_abs(account);
    }
    if check_account(&account) {
        Ok(account)
    } else {
        proof {
            assert(!doc_wf(doc_account(text@).unwrap()));
        }
        Err(format_err(0, FormatReason::TooLarge))
    }
}

} // verus!
