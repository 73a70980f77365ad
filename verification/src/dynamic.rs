//! Dynamic values: regex-driven replacement of request-body text with
//! values that stay consistent within a session.

use vstd::prelude::*;
use vstd::utf8::{decode_utf8, valid_utf8};
use crate::errors::SimError;
use crate::storage::{find_str_key, lemma_find_str_key, lemma_find_str_key_at};
use crate::text::{bytes_to_string, bytes_to_vec, sbytes, starts_with_bytes, str_eq, str_to_bytes};
use rand::Rng;

verus! {

/// Every match of the regular expression `pattern` in `text`, in order:
/// the full matched text and the text of capture group 1 when present.
/// A pattern that is not a valid regular expression has no matches.
/// Matching is a function of the pattern and subject text alone.
pub uninterp spec fn spec_captures(pattern: Seq<char>, text: Seq<char>) -> Seq<
    (Seq<char>, Option<Seq<char>>),
>;

/// Relies on `regex::Regex::new` and `Regex::captures_iter` (with
/// `Captures::get` and `Match::as_str`): compiles the pattern and
/// returns every match in `text`, in order, as the full matched text and
/// the text of capture group 1; a pattern that does not compile yields
/// no matches.
#[verifier::external_body]
fn compile_and_capture(pattern: &str, text: &str) -> (r: Vec<(String, Option<String>)>)
    ensures
        r.deep_view() == spec_captures(pattern@, text@),
{
    let mut out = Vec::new();
    if let Ok(re) = regex::Regex::new(pattern) {
        for caps in re.captures_iter(text) {
            let full = match caps.get(0) {
                Some(m) => m.as_str().to_string(),
                None => String::new(),
            };
            let group1 = caps.get(1).map(|m| m.as_str().to_string());
            out.push((full, group1));
        }
    }
    out
}

/// Relies on `regex::Regex::new`: whether the pattern is a valid regular
/// expression.  Only the registration check uses this; nothing is relied
/// on beyond the boolean itself.
#[verifier::external_body]
fn regex_is_valid(pattern: &str) -> (r: bool) {
    regex::Regex::new(pattern).is_ok()
}

/// An ASCII letter or digit.
pub open spec fn is_alphanumeric_char(c: char) -> bool {
    ||| '0' <= c && c <= '9'
    ||| 'a' <= c && c <= 'z'
    ||| 'A' <= c && c <= 'Z'
}

/// Relies on `rand::thread_rng` and `rand::distributions::Alphanumeric`:
/// a random string of exactly `len` characters, each drawn from the
/// ASCII letters and digits.
#[verifier::external_body]
fn random_alphanumeric(len: usize) -> (r: String)
    ensures
        r@.len() == len,
        forall|i: int| 0 <= i < r@.len() ==> is_alphanumeric_char(#[trigger] r@[i]),
{
    rand::thread_rng()
        .sample_iter(&rand::distributions::Alphanumeric)
        .take(len)
        .map(char::from)
        .collect()
}

// ---------------------------------------------------------------------------
// Decimal integers
// ---------------------------------------------------------------------------

/// The value of an all-digit byte string, or nothing when empty or
/// holding a non-digit.
pub open spec fn spec_digits_val(s: Seq<u8>) -> Option<int>
    decreases s.len(),
{
    if s.len() == 0 {
        None
    } else if !(48 <= s.last() <= 57) {
        None
    } else if s.len() == 1 {
        Some(s[0] - 48)
    } else {
        match spec_digits_val(s.drop_last()) {
            Some(v) => Some(v * 10 + (s.last() - 48)),
            None => None,
        }
    }
}

/// The signed decimal value of a byte string as `i64::from_str` reads
/// it: an optional sign, then digits, within the `i64` range.
pub open spec fn spec_parse_i64(s: Seq<u8>) -> Option<int> {
    let body = if s.len() > 0 && (s[0] == 43 || s[0] == 45) {
        s.drop_first()
    } else {
        s
    };
    let neg = s.len() > 0 && s[0] == 45;
    match spec_digits_val(body) {
        Some(v) => {
            let signed = if neg {
                -v
            } else {
                v
            };
            if i64::MIN <= signed <= i64::MAX {
                Some(signed)
            } else {
                None
            }
        },
        None => None,
    }
}

/// A digit string's value only grows as digits are appended.
proof fn lemma_digits_val_bounds(s: Seq<u8>)
    ensures
        spec_digits_val(s) matches Some(v) ==> v >= 0,
    decreases s.len(),
{
    if s.len() > 1 {
        lemma_digits_val_bounds(s.drop_last());
    }
}

/// Parses an all-digit slice into a value, or nothing on a non-digit,
/// an empty slice, or a value above `u64::MAX`.
fn digits_val(a: &[u8]) -> (r: Option<u64>)
    ensures
        match r {
            Some(v) => spec_digits_val(a@) == Some(v as int),
            None => spec_digits_val(a@) is None || (spec_digits_val(a@) matches Some(v) && v
                > u64::MAX),
        },
{
    let n = a.len();
    if n == 0 {
        return None;
    }
    let mut acc: u64 = 0;
    let mut i: usize = 0;
    let mut overflowed = false;
    while i < n
        invariant
            n == a.len(),
            0 <= i <= n,
            i == 0 ==> !overflowed && acc == 0,
            i > 0 && !overflowed ==> spec_digits_val(a@.subrange(0, i as int)) == Some(
                acc as int,
            ),
            i > 0 && overflowed ==> (spec_digits_val(a@.subrange(0, i as int)) matches Some(v)
                && v > u64::MAX),
            forall|j: int| 0 <= j < i ==> 48 <= #[trigger] a@[j] <= 57,
        decreases n - i,
    {
        let b = a[i];
        if b < 48 || b > 57 {
            proof {
                lemma_digits_nondigit(a@, i as int);
            }
            return None;
        }
        let d = (b - 48) as u64;
        let ghost pre = a@.subrange(0, i as int);
        let ghost ext = a@.subrange(0, i + 1);
        proof {
            assert(ext.drop_last() =~= pre);
            assert(ext.last() == a@[i as int]);
        }
        if !overflowed {
            if acc > (u64::MAX - d) / 10 {
                proof {
                    assert(acc * 10 + d > u64::MAX) by (nonlinear_arith)
                        requires
                            acc > (u64::MAX - d) / 10,
                            d <= 9,
                    ;
                    assert(i > 0) by {
                        if i == 0 {
                            assert(acc == 0);
                        }
                    }
                    assert(spec_digits_val(pre) == Some(acc as int));
                    assert(spec_digits_val(ext) == Some(acc as int * 10 + (ext.last() - 48)));
                    assert(ext.last() - 48 == d);
                }
                overflowed = true;
            } else {
                let ghost old_acc = acc;
                proof {
                    assert(acc * 10 + d <= u64::MAX) by (nonlinear_arith)
                        requires
                            acc <= (u64::MAX - d) / 10,
                            d <= 9,
                    ;
                }
                acc = acc * 10 + d;
                proof {
                    if i == 0 {
                        assert(ext.len() == 1);
                        assert(spec_digits_val(ext) == Some((ext[0] - 48) as int));
                        assert(acc == d);
                    } else {
                        assert(spec_digits_val(pre) == Some(old_acc as int));
                        assert(spec_digits_val(ext) == Some(
                            old_acc as int * 10 + (ext.last() - 48),
                        ));
                        assert(ext.last() - 48 == d);
                    }
                }
            }
        } else {
            proof {
                lemma_digits_val_bounds(pre);
                assert(spec_digits_val(ext) matches Some(v) && v > u64::MAX) by {
                    match spec_digits_val(pre) {
                        Some(v) => {
                            assert(v * 10 + (ext.last() - 48) > u64::MAX) by (nonlinear_arith)
                                requires
                                    v > u64::MAX,
                                    ext.last() >= 48,
                            ;
                        },
                        None => {
                            assert(false);
                        },
                    }
                }
            }
        }
        i += 1;
    }
    proof {
        assert(a@.subrange(0, n as int) =~= a@);
    }
    if overflowed {
        None
    } else {
        Some(acc)
    }
}

/// A non-digit anywhere makes the whole string parse to nothing.
proof fn lemma_digits_nondigit(s: Seq<u8>, i: int)
    requires
        0 <= i < s.len(),
        !(48 <= s[i] <= 57),
    ensures
        spec_digits_val(s) is None,
    decreases s.len(),
{
    if s.len() > 0 {
        if i == s.len() - 1 {
        } else {
            lemma_digits_nondigit(s.drop_last(), i);
        }
    }
}

/// The decimal digits of a non-negative value.
pub open spec fn spec_render_nat(v: int) -> Seq<u8>
    recommends
        v >= 0,
    decreases v,
{
    if v < 10 {
        seq![(48 + if v >= 0 {
            v
        } else {
            0
        }) as u8]
    } else {
        spec_render_nat(v / 10) + seq![(48 + v % 10) as u8]
    }
}

/// The decimal form of a signed value.
pub open spec fn spec_render_int(v: int) -> Seq<u8> {
    if v < 0 {
        seq![45u8] + spec_render_nat(-v)
    } else {
        spec_render_nat(v)
    }
}

/// Renders a non-negative value in decimal.
fn render_nat(v: u64) -> (r: Vec<u8>)
    ensures
        r@ == spec_render_nat(v as int),
    decreases v,
{
    if v < 10 {
        let mut r: Vec<u8> = Vec::new();
        r.push(48 + v as u8);
        proof {
            assert(r@ =~= spec_render_nat(v as int));
        }
        r
    } else {
        let mut r = render_nat(v / 10);
        r.push(48 + (v % 10) as u8);
        proof {
            assert(r@ =~= spec_render_nat((v as int) / 10) + seq![(48 + (v as int) % 10) as u8]);
        }
        r
    }
}

/// Renders a signed value in decimal.
pub fn render_i64(v: i64) -> (r: Vec<u8>)
    ensures
        r@ == spec_render_int(v as int),
{
    if v >= 0 {
        render_nat(v as u64)
    } else {
        // The magnitude fits in u64 even for the smallest i64.
        let mag_wide: i128 = -(v as i128);
        proof {
            assert(0 < mag_wide <= u64::MAX);
        }
        let mag: u64 = mag_wide as u64;
        let mut r: Vec<u8> = Vec::new();
        r.push(45);
        let digits = render_nat(mag);
        let n = digits.len();
        let mut i: usize = 0;
        while i < n
            invariant
                n == digits.len(),
                0 <= i <= n,
                r@ == seq![45u8] + digits@.subrange(0, i as int),
            decreases n - i,
        {
            r.push(digits[i]);
            proof {
                assert(r@ =~= seq![45u8] + digits@.subrange(0, i + 1));
            }
            i += 1;
        }
        proof {
            assert(digits@.subrange(0, n as int) =~= digits@);
            assert(mag as int == -(v as int));
        }
        r
    }
}

/// Parses a string as `i64`, by the same rules as `str::parse`.
pub fn parse_i64(s: &str) -> (r: Option<i64>)
    ensures
        match spec_parse_i64(sbytes(s@)) {
            Some(v) => r matches Some(x) && x as int == v,
            None => r is None,
        },
{
    let a = s.as_bytes();
    let (neg, body_lo): (bool, usize) = if a.len() > 0 && (a[0] == 43 || a[0] == 45) {
        (a[0] == 45, 1)
    } else {
        (false, 0)
    };
    proof {
        if body_lo == 1 {
            assert(a@.subrange(1, a@.len() as int) =~= a@.drop_first());
        } else {
            assert(a@.subrange(0, a@.len() as int) =~= a@);
        }
    }
    let dv = digits_val(&a[body_lo..a.len()]);
    proof {
        let body = if a@.len() > 0 && (a@[0] == 43 || a@[0] == 45) {
            a@.drop_first()
        } else {
            a@
        };
        lemma_digits_val_bounds(body);
    }
    match dv {
        Some(v) => {
            if neg {
                if v <= 9223372036854775808u64 {
                    let neg_wide: i128 = -(v as i128);
                    proof {
                        assert(i64::MIN <= neg_wide <= i64::MAX);
                    }
                    let x: i64 = neg_wide as i64;
                    proof {
                        assert(x as int == -(v as int));
                    }
                    Some(x)
                } else {
                    None
                }
            } else {
                if v <= 9223372036854775807u64 {
                    Some(v as i64)
                } else {
                    None
                }
            }
        },
        None => None,
    }
}

// ---------------------------------------------------------------------------
// Replacement
// ---------------------------------------------------------------------------

/// `text` with every leftmost, non-overlapping occurrence of `needle`
/// replaced by `repl`; an empty needle changes nothing.
pub open spec fn spec_replace_all(text: Seq<u8>, needle: Seq<u8>, repl: Seq<u8>) -> Seq<u8>
    decreases text.len(),
{
    if needle.len() == 0 || text.len() < needle.len() {
        text
    } else if text.subrange(0, needle.len() as int) == needle {
        repl + spec_replace_all(
            text.subrange(needle.len() as int, text.len() as int),
            needle,
            repl,
        )
    } else {
        text.subrange(0, 1) + spec_replace_all(text.drop_first(), needle, repl)
    }
}

/// Replaces every leftmost, non-overlapping occurrence of `needle` in
/// `text` by `repl`.
pub fn replace_all_bytes(text: &[u8], needle: &[u8], repl: &[u8]) -> (r: Vec<u8>)
    ensures
        r@ == spec_replace_all(text@, needle@, repl@),
{
    if needle.len() == 0 {
        return bytes_to_vec(text);
    }
    let mut out: Vec<u8> = Vec::new();
    let n = text.len();
    let m = needle.len();
    let mut i: usize = 0;
    proof {
        assert(text@.subrange(0, n as int) =~= text@);
    }
    while i < n
        invariant
            n == text.len(),
            m == needle.len(),
            m >= 1,
            0 <= i <= n,
            spec_replace_all(text@, needle@, repl@) == out@ + spec_replace_all(
                text@.subrange(i as int, n as int),
                needle@,
                repl@,
            ),
        decreases n - i,
    {
        let ghost rest = text@.subrange(i as int, n as int);
        if starts_with_bytes(&text[i..n], needle) {
            proof {
                assert(rest.subrange(0, m as int) =~= text@.subrange(i as int, i + m));
                assert(rest.subrange(0, m as int) == needle@);
                assert(rest.subrange(m as int, rest.len() as int) =~= text@.subrange(
                    i + m,
                    n as int,
                ));
            }
            let mut k: usize = 0;
            let ghost base = out@;
            while k < repl.len()
                invariant
                    0 <= k <= repl@.len(),
                    out@ == base + repl@.subrange(0, k as int),
                decreases repl@.len() - k,
            {
                out.push(repl[k]);
                proof {
                    assert(out@ =~= base + repl@.subrange(0, k + 1));
                }
                k += 1;
            }
            proof {
                assert(repl@.subrange(0, repl@.len() as int) =~= repl@);
                assert(out@ =~= base + repl@);
            }
            i = i + m;
        } else {
            proof {
                if rest.len() >= m {
                    assert(rest.subrange(0, m as int) != needle@);
                }
                assert(rest.subrange(0, 1) =~= seq![text@[i as int]]);
                assert(rest.drop_first() =~= text@.subrange(i + 1, n as int));
            }
            let ghost base = out@;
            out.push(text[i]);
            proof {
                assert(out@ =~= base + seq![text@[i as int]]);
                if rest.len() < m {
                    // The tail is shorter than the needle: it is copied
                    // byte by byte.
                    assert(spec_replace_all(rest, needle@, repl@) == rest);
                    assert(rest =~= seq![text@[i as int]] + text@.subrange(i + 1, n as int));
                    assert(spec_replace_all(text@.subrange(i + 1, n as int), needle@, repl@)
                        == text@.subrange(i + 1, n as int));
                }
            }
            i = i + 1;
        }
    }
    proof {
        assert(text@.subrange(n as int, n as int) =~= Seq::<u8>::empty());
        assert(spec_replace_all(Seq::<u8>::empty(), needle@, repl@) =~= Seq::<u8>::empty());
        assert(out@ + Seq::<u8>::empty() =~= out@);
    }
    out
}

// ---------------------------------------------------------------------------
// The processor
// ---------------------------------------------------------------------------

/// The replacement recorded for a full match, if any.
pub open spec fn spec_lookup_value(values: Seq<(String, String)>, key: Seq<char>) -> Option<
    Seq<char>,
> {
    match find_str_key(values, key) {
        Some(j) => Some(values[j].1@),
        None => None,
    }
}

// ---------------------------------------------------------------------------
// The rewrite, as a fold over captures and rules
// ---------------------------------------------------------------------------

/// One replacement step: every occurrence of `full` in `text` replaced by
/// `rep`, provided the spliced bytes are valid UTF-8; otherwise the text
/// is kept.
pub open spec fn spec_apply_replacement(text: Seq<char>, full: Seq<char>, rep: Seq<char>) -> Seq<
    char,
> {
    let out = spec_replace_all(sbytes(text), sbytes(full), sbytes(rep));
    if valid_utf8(out) {
        decode_utf8(out)
    } else {
        text
    }
}

/// One pattern's captures folded over the text, each full match replaced
/// by its recorded value; a match without a recorded value changes
/// nothing.
pub open spec fn spec_apply_captures(
    text: Seq<char>,
    caps: Seq<(Seq<char>, Option<Seq<char>>)>,
    values: Seq<(String, String)>,
) -> Seq<char>
    decreases caps.len(),
{
    if caps.len() == 0 {
        text
    } else {
        let stepped = match spec_lookup_value(values, caps[0].0) {
            Some(rep) => spec_apply_replacement(text, caps[0].0, rep),
            None => text,
        };
        spec_apply_captures(stepped, caps.drop_first(), values)
    }
}

/// The rule patterns folded over the text: each pattern's captures are
/// taken on the original body text, and each capture replaces in the
/// accumulating result.
pub open spec fn spec_apply_rules(
    text: Seq<char>,
    original: Seq<char>,
    patterns: Seq<Seq<char>>,
    values: Seq<(String, String)>,
) -> Seq<char>
    decreases patterns.len(),
{
    if patterns.len() == 0 {
        text
    } else {
        let stepped = spec_apply_captures(text, spec_captures(patterns[0], original), values);
        spec_apply_rules(stepped, original, patterns.drop_first(), values)
    }
}

/// Every full match of every pattern in the original text has a recorded
/// value.
pub open spec fn spec_captures_recorded(
    original: Seq<char>,
    patterns: Seq<Seq<char>>,
    values: Seq<(String, String)>,
) -> bool {
    forall|p: int, c: int|
        0 <= p < patterns.len() && 0 <= c < spec_captures(patterns[p], original).len()
            ==> spec_lookup_value(
            values,
            (#[trigger] spec_captures(patterns[p], original)[c]).0,
        ) is Some
}

/// The pattern texts of a rule list of (pattern, generator) pairs.
pub open spec fn spec_rule_texts(rules: Seq<(String, String)>) -> Seq<Seq<char>> {
    Seq::new(rules.len(), |i: int| rules[i].0@)
}

/// The pattern texts of a dynamic-rule list.
pub open spec fn spec_pattern_texts(rules: Seq<crate::models::DynamicPattern>) -> Seq<Seq<char>> {
    Seq::new(rules.len(), |i: int| rules[i].pattern@)
}

/// The pattern texts of a dynamic-rule list, at the view level.
pub open spec fn spec_pattern_texts_view(
    rules: Seq<crate::models::DynamicPatternView>,
) -> Seq<Seq<char>> {
    Seq::new(rules.len(), |i: int| rules[i].pattern)
}

/// A recorded value stays, with the same replacement, in any extension
/// of the table.
proof fn lemma_lookup_stable(v1: Seq<(String, String)>, v2: Seq<(String, String)>, key: Seq<char>)
    requires
        v1.len() <= v2.len(),
        v2.subrange(0, v1.len() as int) == v1,
        spec_lookup_value(v1, key) is Some,
    ensures
        spec_lookup_value(v2, key) == spec_lookup_value(v1, key),
{
    lemma_find_str_key(v1, key);
    match find_str_key(v1, key) {
        Some(j) => {
            assert(v2.subrange(0, v1.len() as int)[j] == v2[j]);
            assert(v2[j] == v1[j]);
            assert forall|m: int| 0 <= m < j implies v2[m].0@ != key by {
                assert(v2.subrange(0, v1.len() as int)[m] == v2[m]);
                assert(v2[m] == v1[m]);
            }
            lemma_find_str_key_at(v2, key, j);
        },
        None => {},
    }
}

/// The capture fold is unchanged by extending the table, as long as
/// every capture's value was already recorded.
proof fn lemma_apply_captures_stable(
    text: Seq<char>,
    caps: Seq<(Seq<char>, Option<Seq<char>>)>,
    v1: Seq<(String, String)>,
    v2: Seq<(String, String)>,
)
    requires
        v1.len() <= v2.len(),
        v2.subrange(0, v1.len() as int) == v1,
        forall|c: int| 0 <= c < caps.len() ==> spec_lookup_value(v1, (#[trigger] caps[c]).0) is
            Some,
    ensures
        spec_apply_captures(text, caps, v2) == spec_apply_captures(text, caps, v1),
    decreases caps.len(),
{
    if caps.len() > 0 {
        lemma_lookup_stable(v1, v2, caps[0].0);
        let stepped = match spec_lookup_value(v1, caps[0].0) {
            Some(rep) => spec_apply_replacement(text, caps[0].0, rep),
            None => text,
        };
        let t = caps.drop_first();
        assert(forall|c: int| 0 <= c < t.len() ==> t[c] == caps[c + 1]);
        lemma_apply_captures_stable(stepped, t, v1, v2);
    }
}

/// The rule fold is unchanged by extending the table, as long as every
/// capture of every rule was already recorded.
proof fn lemma_apply_rules_stable(
    text: Seq<char>,
    original: Seq<char>,
    patterns: Seq<Seq<char>>,
    v1: Seq<(String, String)>,
    v2: Seq<(String, String)>,
)
    requires
        v1.len() <= v2.len(),
        v2.subrange(0, v1.len() as int) == v1,
        spec_captures_recorded(original, patterns, v1),
    ensures
        spec_apply_rules(text, original, patterns, v2) == spec_apply_rules(
            text,
            original,
            patterns,
            v1,
        ),
    decreases patterns.len(),
{
    if patterns.len() > 0 {
        let caps = spec_captures(patterns[0], original);
        assert forall|c: int| 0 <= c < caps.len() implies spec_lookup_value(
            v1,
            (#[trigger] caps[c]).0,
        ) is Some by {
            assert(spec_captures(patterns[0], original)[c] == caps[c]);
        }
        lemma_apply_captures_stable(text, caps, v1, v2);
        let stepped = spec_apply_captures(text, caps, v1);
        let t = patterns.drop_first();
        assert(forall|p: int| 0 <= p < t.len() ==> t[p] == patterns[p + 1]);
        assert(spec_captures_recorded(original, t, v1)) by {
            assert forall|p: int, c: int|
                0 <= p < t.len() && 0 <= c < spec_captures(t[p], original).len() implies
                spec_lookup_value(v1, (#[trigger] spec_captures(t[p], original)[c]).0) is
                Some by {
                assert(t[p] == patterns[p + 1]);
                assert(spec_captures(patterns[p + 1], original)[c] == spec_captures(
                    t[p],
                    original,
                )[c]);
            }
        }
        lemma_apply_rules_stable(stepped, original, t, v1, v2);
    }
}

/// The capture fold extended by one capture at the end.
proof fn lemma_apply_captures_snoc(
    text: Seq<char>,
    caps: Seq<(Seq<char>, Option<Seq<char>>)>,
    last: (Seq<char>, Option<Seq<char>>),
    values: Seq<(String, String)>,
)
    ensures
        spec_apply_captures(text, caps.push(last), values) == (match spec_lookup_value(
            values,
            last.0,
        ) {
            Some(rep) => spec_apply_replacement(
                spec_apply_captures(text, caps, values),
                last.0,
                rep,
            ),
            None => spec_apply_captures(text, caps, values),
        }),
    decreases caps.len(),
{
    let p = caps.push(last);
    if caps.len() == 0 {
        assert(p.drop_first() =~= Seq::<(Seq<char>, Option<Seq<char>>)>::empty());
        assert(p[0] == last);
        let stepped = match spec_lookup_value(values, p[0].0) {
            Some(rep) => spec_apply_replacement(text, p[0].0, rep),
            None => text,
        };
        assert(spec_apply_captures(text, p, values) == spec_apply_captures(
            stepped,
            p.drop_first(),
            values,
        ));
        assert(spec_apply_captures(stepped, p.drop_first(), values) == stepped);
        assert(spec_apply_captures(text, caps, values) == text);
    } else {
        assert(p[0] == caps[0]);
        assert(p.drop_first() =~= caps.drop_first().push(last));
        let stepped = match spec_lookup_value(values, caps[0].0) {
            Some(rep) => spec_apply_replacement(text, caps[0].0, rep),
            None => text,
        };
        assert(spec_apply_captures(text, p, values) == spec_apply_captures(
            stepped,
            p.drop_first(),
            values,
        ));
        assert(spec_apply_captures(text, caps, values) == spec_apply_captures(
            stepped,
            caps.drop_first(),
            values,
        ));
        lemma_apply_captures_snoc(stepped, caps.drop_first(), last, values);
    }
}

/// The rule fold extended by one pattern at the end.
proof fn lemma_apply_rules_snoc(
    text: Seq<char>,
    original: Seq<char>,
    patterns: Seq<Seq<char>>,
    last: Seq<char>,
    values: Seq<(String, String)>,
)
    ensures
        spec_apply_rules(text, original, patterns.push(last), values) == spec_apply_captures(
            spec_apply_rules(text, original, patterns, values),
            spec_captures(last, original),
            values,
        ),
    decreases patterns.len(),
{
    let p = patterns.push(last);
    if patterns.len() == 0 {
        assert(p.drop_first() =~= Seq::<Seq<char>>::empty());
        assert(p[0] == last);
        let stepped = spec_apply_captures(text, spec_captures(p[0], original), values);
        assert(spec_apply_rules(text, original, p, values) == spec_apply_rules(
            stepped,
            original,
            p.drop_first(),
            values,
        ));
        assert(spec_apply_rules(stepped, original, p.drop_first(), values) == stepped);
        assert(spec_apply_rules(text, original, patterns, values) == text);
    } else {
        assert(p[0] == patterns[0]);
        assert(p.drop_first() =~= patterns.drop_first().push(last));
        let stepped = spec_apply_captures(text, spec_captures(patterns[0], original), values);
        assert(spec_apply_rules(text, original, p, values) == spec_apply_rules(
            stepped,
            original,
            p.drop_first(),
            values,
        ));
        assert(spec_apply_rules(text, original, patterns, values) == spec_apply_rules(
            stepped,
            original,
            patterns.drop_first(),
            values,
        ));
        lemma_apply_rules_snoc(stepped, original, patterns.drop_first(), last, values);
    }
}

/// What the `increment` generator emits for a capture group: the group's
/// value plus one, or `1` when the group is absent or not a number.
pub open spec fn spec_increment(group1: Option<Seq<char>>) -> Seq<u8> {
    match group1 {
        Some(g) => match spec_parse_i64(sbytes(g)) {
            Some(v) => if v < i64::MAX {
                spec_render_int(v + 1)
            } else {
                sbytes("1"@)
            },
            None => sbytes("1"@),
        },
        None => sbytes("1"@),
    }
}

/// Produces the replacement value for one new dynamic match:
/// `consistent_random` draws ten random alphanumeric characters,
/// `increment` adds one to capture group 1, and any other generator name
/// is emitted literally.
pub fn generate_value(generator: &str, group1: Option<&String>) -> (r: String)
    ensures
        generator@ == "consistent_random"@ ==> r@.len() == 10 && forall|i: int|
            0 <= i < r@.len() ==> is_alphanumeric_char(#[trigger] r@[i]),
        generator@ == "increment"@ ==> sbytes(r@) == spec_increment(
            match group1 {
                Some(g) => Some(g@),
                None => None,
            },
        ),
        generator@ != "consistent_random"@ && generator@ != "increment"@ ==> r@ == generator@,
{
    broadcast use vstd::utf8::decode_utf8_encode_utf8;

    proof {
        reveal_strlit("consistent_random");
        reveal_strlit("increment");
        assert("consistent_random"@.len() == 17);
        assert("increment"@.len() == 9);
    }
    if str_eq(generator, "consistent_random") {
        random_alphanumeric(10)
    } else if str_eq(generator, "increment") {
        let parsed: Option<i64> = match group1 {
            Some(g) => parse_i64(g.as_str()),
            None => None,
        };
        match parsed {
            Some(v) => {
                if v < 9223372036854775807i64 {
                    proof {
                        lemma_render_ascii((v + 1) as int);
                        crate::text::lemma_ascii_valid_utf8(spec_render_int((v + 1) as int));
                    }
                    let bytes = render_i64(v + 1);
                    let converted = bytes_to_string(bytes);
                    converted.unwrap()
                } else {
                    // Adding one would leave the i64 range: fall back as
                    // for an unparsable group.
                    "1".to_owned()
                }
            },
            None => "1".to_owned(),
        }
    } else {
        generator.to_owned()
    }
}

/// Rendered decimals are ASCII.
proof fn lemma_render_ascii(v: int)
    ensures
        crate::text::all_ascii(spec_render_int(v)),
{
    lemma_render_nat_ascii(if v < 0 {
        -v
    } else {
        v
    });
}

/// Rendered digit strings are ASCII.
proof fn lemma_render_nat_ascii(v: int)
    ensures
        crate::text::all_ascii(spec_render_nat(v)),
    decreases v,
{
    if v >= 10 {
        lemma_render_nat_ascii(v / 10);
    }
}

/// Applies one regex capture to the body text: the first occurrence of a
/// new full match chooses a generated value, recorded in `values`; every
/// occurrence of the full match in `text` is then replaced by the
/// recorded value.
pub fn apply_capture(
    values: &mut Vec<(String, String)>,
    text: &str,
    full: &str,
    generator: &str,
    group1: Option<&String>,
) -> (r: String)
    ensures
        ({
            let known = spec_lookup_value(old(values)@, full@);
            &&& (known is Some ==> final(values)@ == old(values)@)
            &&& (known is None ==> ({
                &&& final(values)@.len() == old(values)@.len() + 1
                &&& final(values)@.subrange(0, old(values)@.len() as int) == old(values)@
                &&& final(values)@.last().0@ == full@
                &&& (generator@ == "increment"@ ==> sbytes(final(values)@.last().1@)
                    == spec_increment(
                    match group1 {
                        Some(g) => Some(g@),
                        None => None,
                    },
                ))
                &&& (generator@ == "consistent_random"@ ==> final(values)@.last().1@.len() == 10
                    && forall|i: int|
                    0 <= i < final(values)@.last().1@.len() ==> is_alphanumeric_char(
                        #[trigger] final(values)@.last().1@[i],
                    ))
                &&& (generator@ != "consistent_random"@ && generator@ != "increment"@ ==> final(values)@.last().1@ == generator@)
            }))
            &&& spec_lookup_value(final(values)@, full@) is Some
            &&& ({
                let rep = spec_lookup_value(final(values)@, full@);
                rep matches Some(rv) ==> r@ == spec_apply_replacement(text@, full@, rv)
            })
        }),
{
    broadcast use vstd::utf8::decode_utf8_encode_utf8;

    let ghost before = values@;
    let n = values.len();
    let mut idx: usize = 0;
    let mut found = false;
    while idx < n && !found
        invariant
            n == values.len(),
            values@ == before,
            0 <= idx <= n,
            !found ==> forall|j: int| 0 <= j < idx ==> before[j].0@ != full@,
            found ==> idx < n && before[idx as int].0@ == full@ && forall|j: int|
                0 <= j < idx ==> before[j].0@ != full@,
        decreases n - idx + (if found { 0int } else { 1int }),
    {
        if str_eq(values[idx].0.as_str(), full) {
            found = true;
        } else {
            idx += 1;
        }
    }
    if !found {
        proof {
            lemma_find_str_key(before, full@);
            match find_str_key(before, full@) {
                Some(k) => {
                    assert(before[k].0@ == full@);
                    assert(false);
                },
                None => {},
            }
        }
        let nv = generate_value(generator, group1);
        values.push((full.to_owned(), nv));
        proof {
            lemma_find_str_key_at(values@, full@, before.len() as int);
            assert(values@.subrange(0, before.len() as int) =~= before);
        }
        idx = n;
        // The new entry is the one just pushed.
        let m = values.len();
        let rep = str_to_bytes(values[m - 1].1.as_str());
        let out = replace_all_bytes(text.as_bytes(), full.as_bytes(), rep.as_slice());
        match bytes_to_string(out) {
            Some(s) => s,
            None => text.to_owned(),
        }
    } else {
        proof {
            lemma_find_str_key_at(before, full@, idx as int);
        }
        let rep = str_to_bytes(values[idx].1.as_str());
        let out = replace_all_bytes(text.as_bytes(), full.as_bytes(), rep.as_slice());
        match bytes_to_string(out) {
            Some(s) => s,
            None => text.to_owned(),
        }
    }
}


// ---------------------------------------------------------------------------
// Applying the rules
// ---------------------------------------------------------------------------

/// Applies each rule in order to the text: for each pattern, captures
/// are taken on the original text; each new full match records a
/// generated value, and every occurrence of a full match is replaced by
/// its recorded value.  The result is exactly the fold of the rules over
/// the text under the final table, whose old entries are kept as a
/// prefix.
pub fn apply_rules_to_text(
    rules: &Vec<(String, String)>,
    values: &mut Vec<(String, String)>,
    text: &str,
) -> (r: String)
    ensures
        final(values)@.len() >= old(values)@.len(),
        final(values)@.subrange(0, old(values)@.len() as int) == old(values)@,
        rules@.len() == 0 ==> final(values)@ == old(values)@,
        spec_captures_recorded(text@, spec_rule_texts(rules@), final(values)@),
        r@ == spec_apply_rules(text@, text@, spec_rule_texts(rules@), final(values)@),
{
    let ghost texts = spec_rule_texts(rules@);
    let mut current = text.to_owned();
    let np = rules.len();
    let mut p: usize = 0;
    proof {
        assert(texts.subrange(0, 0) =~= Seq::<Seq<char>>::empty());
    }
    while p < np
        invariant
            np == rules.len(),
            texts == spec_rule_texts(rules@),
            texts.len() == np,
            0 <= p <= np,
            np == 0 ==> values@ == old(values)@,
            values@.len() >= old(values)@.len(),
            values@.subrange(0, old(values)@.len() as int) == old(values)@,
            spec_captures_recorded(text@, texts.subrange(0, p as int), values@),
            current@ == spec_apply_rules(text@, text@, texts.subrange(0, p as int), values@),
        decreases np - p,
    {
        let captures = compile_and_capture(rules[p].0.as_str(), text);
        let ghost caps = spec_captures(texts[p as int], text@);
        proof {
            assert(rules@[p as int].0@ == texts[p as int]);
            assert(captures.deep_view() == caps);
        }
        let ghost pattern_start_values = values@;
        let ghost pattern_start_text = current@;
        let nc = captures.len();
        let mut c: usize = 0;
        proof {
            assert(caps.subrange(0, 0) =~= Seq::<(Seq<char>, Option<Seq<char>>)>::empty());
        }
        while c < nc
            invariant
                nc == captures.len(),
                captures.deep_view() == caps,
                caps.len() == nc,
                0 <= c <= nc,
                values@.len() >= old(values)@.len(),
                values@.subrange(0, old(values)@.len() as int) == old(values)@,
                values@.len() >= pattern_start_values.len(),
                values@.subrange(0, pattern_start_values.len() as int) == pattern_start_values,
                forall|k: int|
                    0 <= k < c ==> spec_lookup_value(values@, (#[trigger] caps[k]).0) is Some,
                texts == spec_rule_texts(rules@),
                0 <= p < texts.len(),
                spec_captures_recorded(text@, texts.subrange(0, p as int), values@),
                current@ == spec_apply_captures(
                    pattern_start_text,
                    caps.subrange(0, c as int),
                    values@,
                ),
            decreases nc - c,
        {
            let ghost step_start_values = values@;
            let ghost step_start_text = current@;
            let next = apply_capture(
                values,
                current.as_str(),
                captures[c].0.as_str(),
                rules[p].1.as_str(),
                captures[c].1.as_ref(),
            );
            current = next;
            proof {
                let full = caps[c as int].0;
                assert(caps[c as int] == captures@[c as int].deep_view());
                assert(full == captures@[c as int].0@);
                // The capture's value is now recorded, and the old table
                // is a prefix of the new one.
                assert(spec_lookup_value(values@, full) is Some);
                assert(values@.len() >= step_start_values.len());
                assert(values@.subrange(0, step_start_values.len() as int)
                    =~= step_start_values);
                assert(values@.subrange(0, old(values)@.len() as int) =~= old(values)@);
                assert(values@.subrange(0, pattern_start_values.len() as int)
                    =~= pattern_start_values);
                // Everything recorded before stays recorded, unchanged.
                assert forall|k: int| 0 <= k < c + 1 implies spec_lookup_value(
                    values@,
                    (#[trigger] caps[k]).0,
                ) is Some by {
                    if k < c {
                        lemma_lookup_stable(step_start_values, values@, caps[k].0);
                    }
                }
                assert(spec_captures_recorded(text@, texts.subrange(0, p as int), values@)) by {
                    let pre = texts.subrange(0, p as int);
                    assert forall|q: int, k: int|
                        0 <= q < pre.len() && 0 <= k < spec_captures(pre[q], text@).len() implies
                        spec_lookup_value(
                            values@,
                            (#[trigger] spec_captures(pre[q], text@)[k]).0,
                        ) is Some by {
                        lemma_lookup_stable(
                            step_start_values,
                            values@,
                            spec_captures(pre[q], text@)[k].0,
                        );
                    }
                }
                // The fold over the processed prefix, under the new
                // table, matches the accumulated text.
                lemma_apply_captures_stable(
                    pattern_start_text,
                    caps.subrange(0, c as int),
                    step_start_values,
                    values@,
                );
                assert(caps.subrange(0, c + 1) =~= caps.subrange(0, c as int).push(
                    caps[c as int],
                ));
                lemma_apply_captures_snoc(
                    pattern_start_text,
                    caps.subrange(0, c as int),
                    caps[c as int],
                    values@,
                );
                assert(current@ == spec_apply_captures(
                    pattern_start_text,
                    caps.subrange(0, c + 1),
                    values@,
                ));
            }
            c += 1;
        }
        proof {
            assert(caps.subrange(0, nc as int) =~= caps);
            // Extend the rule fold by this pattern.
            lemma_apply_rules_stable(
                text@,
                text@,
                texts.subrange(0, p as int),
                pattern_start_values,
                values@,
            );
            assert(spec_apply_rules(text@, text@, texts.subrange(0, p as int), values@)
                == pattern_start_text);
            assert(texts.subrange(0, p + 1) =~= texts.subrange(0, p as int).push(
                texts[p as int],
            ));
            lemma_apply_rules_snoc(
                text@,
                text@,
                texts.subrange(0, p as int),
                texts[p as int],
                values@,
            );
            assert(current@ == spec_apply_rules(text@, text@, texts.subrange(0, p + 1), values@));
            assert(spec_captures_recorded(text@, texts.subrange(0, p + 1), values@)) by {
                let ext = texts.subrange(0, p + 1);
                assert forall|q: int, k: int|
                    0 <= q < ext.len() && 0 <= k < spec_captures(ext[q], text@).len() implies
                    spec_lookup_value(
                        values@,
                        (#[trigger] spec_captures(ext[q], text@)[k]).0,
                    ) is Some by {
                    if q < p {
                        assert(ext[q] == texts.subrange(0, p as int)[q]);
                    } else {
                        assert(ext[q] == texts[p as int]);
                        assert(spec_captures(ext[q], text@)[k] == caps[k]);
                    }
                }
            }
        }
        p += 1;
    }
    proof {
        assert(texts.subrange(0, np as int) =~= texts);
    }
    current
}

/// What a body becomes under the dynamic-value rules: its text with the
/// rules folded over it, under the given table; a body that is not
/// valid UTF-8 is kept verbatim.
pub open spec fn spec_rewritten_body(
    body: Seq<u8>,
    patterns: Seq<Seq<char>>,
    values: Seq<(String, String)>,
) -> Seq<u8> {
    if valid_utf8(body) {
        sbytes(spec_apply_rules(decode_utf8(body), decode_utf8(body), patterns, values))
    } else {
        body
    }
}

/// Without rules, a body is rewritten to itself.
pub proof fn lemma_rewritten_body_empty(body: Seq<u8>, values: Seq<(String, String)>)
    ensures
        spec_rewritten_body(body, Seq::<Seq<char>>::empty(), values) == body,
{
    if valid_utf8(body) {
        vstd::utf8::decode_utf8_encode_utf8(body);
    }
}

/// Applies a session's dynamic-value rules to a request body: the body
/// text is rewritten by the rule fold, and new matches record their
/// replacements in `values`, whose old entries are kept as a prefix.  A
/// body that is not valid UTF-8, and an empty rule list, are left
/// untouched.
pub fn apply_dynamic_rules(
    patterns: &Vec<crate::models::DynamicPattern>,
    values: &mut Vec<(String, String)>,
    body: &Vec<u8>,
) -> (r: Vec<u8>)
    ensures
        final(values)@.len() >= old(values)@.len(),
        final(values)@.subrange(0, old(values)@.len() as int) == old(values)@,
        patterns@.len() == 0 || !valid_utf8(body@) ==> final(values)@ == old(values)@,
        r@ == spec_rewritten_body(body@, spec_pattern_texts(patterns@), final(values)@),
        valid_utf8(body@) ==> spec_captures_recorded(
            decode_utf8(body@),
            spec_pattern_texts(patterns@),
            final(values)@,
        ),
{
    broadcast use vstd::utf8::decode_utf8_encode_utf8;

    if patterns.len() == 0 {
        let r = bytes_to_vec(body.as_slice());
        proof {
            assert(spec_pattern_texts(patterns@) =~= Seq::<Seq<char>>::empty());
            lemma_rewritten_body_empty(body@, values@);
        }
        return r;
    }
    let text = match bytes_to_string(bytes_to_vec(body.as_slice())) {
        Some(t) => t,
        None => {
            return bytes_to_vec(body.as_slice());
        },
    };
    // Hand the rule list to the text rewriter as (pattern, generator)
    // pairs.
    let mut rules: Vec<(String, String)> = Vec::new();
    let np = patterns.len();
    let mut p: usize = 0;
    while p < np
        invariant
            np == patterns.len(),
            0 <= p <= np,
            rules@.len() == p,
            forall|j: int|
                0 <= j < p ==> rules@[j].0@ == patterns@[j].pattern@ && rules@[j].1@
                    == patterns@[j].generator@,
        decreases np - p,
    {
        rules.push((patterns[p].pattern.clone(), patterns[p].generator.clone()));
        p += 1;
    }
    proof {
        assert(spec_rule_texts(rules@) =~= spec_pattern_texts(patterns@));
    }
    let out = apply_rules_to_text(&rules, values, text.as_str());
    proof {
        assert(text@ == decode_utf8(body@));
    }
    str_to_bytes(out.as_str())
}

/// Regex-driven dynamic value handling: registered patterns, each with a
/// generator name, and the session's table of chosen replacements.
pub struct DynamicValueProcessor {
    /// Registered patterns with their generator names.
    pub patterns: Vec<(String, String)>,
    /// Replacements chosen so far, full match text to replacement.
    pub values: Vec<(String, String)>,
}

impl DynamicValueProcessor {
    /// Creates a processor with no patterns and no recorded values.
    pub fn new() -> (r: DynamicValueProcessor)
        ensures
            r.patterns@.len() == 0,
            r.values@.len() == 0,
    {
        DynamicValueProcessor { patterns: Vec::new(), values: Vec::new() }
    }

    /// Validates and registers a pattern with its generator name.
    ///
    /// Fails, changing nothing, when the pattern is not a valid regular
    /// expression.
    pub fn add_pattern(&mut self, pattern: &str, generator: &str) -> (r: Result<(), SimError>)
        ensures
            r is Err ==> (r matches Err(e) && e == SimError::InvalidPattern) && *final(self)
                == *old(self),
            r is Ok ==> ({
                &&& final(self).patterns@.len() == old(self).patterns@.len() + 1
                &&& final(self).patterns@.subrange(0, old(self).patterns@.len() as int) == old(self).patterns@
                &&& final(self).patterns@.last().0@ == pattern@
                &&& final(self).patterns@.last().1@ == generator@
                &&& final(self).values == old(self).values
            }),
    {
        if regex_is_valid(pattern) {
            let ghost before = self.patterns@;
            self.patterns.push((pattern.to_owned(), generator.to_owned()));
            proof {
                assert(self.patterns@.subrange(0, before.len() as int) =~= before);
            }
            Ok(())
        } else {
            Err(SimError::InvalidPattern)
        }
    }

    /// Rewrites a request body: for each pattern, every match found in
    /// the original body is replaced, in the accumulating result, by the
    /// value recorded for that match text; unseen match texts first get
    /// a value from the pattern's generator.  The result is exactly the
    /// rule fold over the body under the final table, whose old entries
    /// are kept as a prefix.
    pub fn process_request(&mut self, body: &str) -> (r: String)
        ensures
            final(self).patterns == old(self).patterns,
            final(self).values@.len() >= old(self).values@.len(),
            final(self).values@.subrange(0, old(self).values@.len() as int) == old(self).values@,
            old(self).patterns@.len() == 0 ==> r@ == body@ && final(self).values == old(self).values,
            r@ == spec_apply_rules(
                body@,
                body@,
                spec_rule_texts(old(self).patterns@),
                final(self).values@,
            ),
            spec_captures_recorded(body@, spec_rule_texts(old(self).patterns@), final(self).values@),
    {
        if self.patterns.len() == 0 {
            return body.to_owned();
        }
        // The rewriter reads the patterns and grows the table; copy the
        // rule list so both parts of the processor can be handed over.
        let mut rules: Vec<(String, String)> = Vec::new();
        let np = self.patterns.len();
        let mut p: usize = 0;
        while p < np
            invariant
                np == self.patterns.len(),
                self.patterns == old(self).patterns,
                self.values == old(self).values,
                0 <= p <= np,
                rules@.len() == p,
                forall|j: int|
                    0 <= j < p ==> rules@[j].0@ == self.patterns@[j].0@ && rules@[j].1@
                        == self.patterns@[j].1@,
            decreases np - p,
        {
            rules.push((self.patterns[p].0.clone(), self.patterns[p].1.clone()));
            p += 1;
        }
        proof {
            assert(spec_rule_texts(rules@) =~= spec_rule_texts(self.patterns@));
        }
        apply_rules_to_text(&rules, &mut self.values, body)
    }
}

} // verus!
