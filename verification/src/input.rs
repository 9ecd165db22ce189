use vstd::prelude::*;

use vstd::string::StrSliceExecFns;

verus! {

/// Failure conditions of the text-to-bytes adapters: each grammar reports
/// its own failure, and the combined parser reports one when every grammar
/// has failed.
#[derive(Debug, Clone, Copy, PartialEq, Eq, Structural)]
pub enum InputError {
    BadGolangPrint,
    BadRustPrint,
    BadHex,
    Unrecognized,
}

/// The characters with the Unicode White_Space property, the set a trimmed
/// token sheds at either end.
pub open spec fn spec_is_whitespace(c: char) -> bool {
    let d = c as u32;
    d == 9 || d == 10 || d == 11 || d == 12 || d == 13 || d == 32 || d == 0x85 || d == 0xa0
        || d == 0x1680 || (0x2000 <= d && d <= 0x200a) || d == 0x2028 || d == 0x2029 || d == 0x202f
        || d == 0x205f || d == 0x3000
}

/// An ASCII decimal digit.
pub open spec fn spec_is_digit(c: char) -> bool {
    48 <= c as u32 && c as u32 <= 57
}

/// Numeric value of the decimal digit `c`.
pub open spec fn spec_digit_val(c: char) -> nat
    recommends
        spec_is_digit(c),
{
    (c as u32 - 48) as nat
}

/// Every character of `s` is a decimal digit.
pub open spec fn spec_all_digits(s: Seq<char>) -> bool {
    forall|i: int| 0 <= i < s.len() ==> spec_is_digit(#[trigger] s[i])
}

/// The number denoted by the digit string `s`, most significant digit
/// first.
pub open spec fn spec_digits_val(s: Seq<char>) -> nat
    decreases s.len(),
{
    if s.len() == 0 {
        0
    } else {
        spec_digits_val(s.drop_last()) * 10 + spec_digit_val(s.last())
    }
}

/// A byte written in decimal, with an optional leading plus sign: at least
/// one digit, nothing but digits, and a value of at most 255.
pub open spec fn spec_parse_u8(s: Seq<char>) -> Option<u8> {
    let t = if s.len() >= 1 && s[0] == '+' {
        s.drop_first()
    } else {
        s
    };
    if t.len() >= 1 && spec_all_digits(t) && spec_digits_val(t) <= 255 {
        Some(spec_digits_val(t) as u8)
    } else {
        None
    }
}

/// `s` with leading and trailing whitespace removed.
pub open spec fn spec_trim(s: Seq<char>) -> Seq<char>
    decreases s.len(),
{
    if s.len() > 0 && spec_is_whitespace(s[0]) {
        spec_trim(s.drop_first())
    } else if s.len() > 0 && spec_is_whitespace(s.last()) {
        spec_trim(s.drop_last())
    } else {
        s
    }
}

/// Index of the first occurrence of `c` in `s`, or -1 when absent.
pub open spec fn spec_find(s: Seq<char>, c: char) -> int
    decreases s.len(),
{
    if s.len() == 0 {
        -1
    } else if s[0] == c {
        0
    } else {
        let r = spec_find(s.drop_first(), c);
        if r == -1 {
            -1
        } else {
            r + 1
        }
    }
}

proof fn lemma_find_props(s: Seq<char>, c: char)
    ensures
        spec_find(s, c) == -1 ==> forall|j: int| 0 <= j < s.len() ==> s[j] != c,
        spec_find(s, c) != -1 ==> {
            let i = spec_find(s, c);
            &&& 0 <= i < s.len()
            &&& s[i] == c
            &&& forall|j: int| 0 <= j < i ==> s[j] != c
        },
    decreases s.len(),
{
    if s.len() > 0 && s[0] != c {
        lemma_find_props(s.drop_first(), c);
        let r = spec_find(s.drop_first(), c);
        if r == -1 {
            assert forall|j: int| 0 <= j < s.len() implies s[j] != c by {
                if j > 0 {
                    assert(s.drop_first()[j - 1] == s[j]);
                }
            }
        } else {
            assert(s[r + 1] == s.drop_first()[r]);
            assert forall|j: int| 0 <= j < r + 1 implies s[j] != c by {
                if j > 0 {
                    assert(s.drop_first()[j - 1] == s[j]);
                }
            }
        }
    }
}

/// The value of one separated token: the raw characters, or the trimmed
/// characters where the grammar trims.
pub open spec fn spec_token_u8(tok: Seq<char>, trim_tokens: bool) -> Option<u8> {
    if trim_tokens {
        spec_parse_u8(spec_trim(tok))
    } else {
        spec_parse_u8(tok)
    }
}

/// `s` split at every `sep`, each token read as a decimal byte; nothing
/// when any token fails. Splitting never drops a token, so an empty string
/// is one empty token and fails.
pub open spec fn spec_parse_list(s: Seq<char>, sep: char, trim_tokens: bool) -> Option<Seq<u8>>
    decreases s.len(),
    via spec_parse_list_decreases
{
    let i = spec_find(s, sep);
    if i == -1 {
        match spec_token_u8(s, trim_tokens) {
            Some(v) => Some(seq![v]),
            None => None,
        }
    } else {
        match spec_token_u8(s.take(i), trim_tokens) {
            None => None,
            Some(v) => match spec_parse_list(s.skip(i + 1), sep, trim_tokens) {
                None => None,
                Some(rest) => Some(seq![v] + rest),
            },
        }
    }
}

#[via_fn]
proof fn spec_parse_list_decreases(s: Seq<char>, sep: char, trim_tokens: bool) {
    lemma_find_props(s, sep);
}

/// `s` with one leading '[' removed if present, then one trailing ']'
/// removed from what is left, if present.
pub open spec fn spec_strip_brackets(s: Seq<char>) -> Seq<char> {
    let t = if s.len() >= 1 && s[0] == '[' {
        s.drop_first()
    } else {
        s
    };
    if t.len() >= 1 && t.last() == ']' {
        t.drop_last()
    } else {
        t
    }
}

/// The space-separated decimal notation: optionally bracketed, tokens
/// split at single spaces and not trimmed.
pub open spec fn spec_parse_golang_print(s: Seq<char>) -> Option<Seq<u8>> {
    spec_parse_list(spec_strip_brackets(s), ' ', false)
}

/// The comma-separated decimal notation: optionally bracketed, tokens
/// split at commas and trimmed of surrounding whitespace.
pub open spec fn spec_parse_rust_print(s: Seq<char>) -> Option<Seq<u8>> {
    spec_parse_list(spec_strip_brackets(s), ',', true)
}

/// Numeric value of a hexadecimal digit, upper or lower case.
pub open spec fn spec_hex_digit(c: char) -> Option<u8> {
    let d = c as u32;
    if 48 <= d && d <= 57 {
        Some((d - 48) as u8)
    } else if 97 <= d && d <= 102 {
        Some((d - 87) as u8)
    } else if 65 <= d && d <= 70 {
        Some((d - 55) as u8)
    } else {
        None
    }
}

/// Hexadecimal notation: an even number of hex digits, two per byte, the
/// high digit first.
pub open spec fn spec_parse_hex(s: Seq<char>) -> Option<Seq<u8>>
    decreases s.len(),
{
    if s.len() == 0 {
        Some(Seq::<u8>::empty())
    } else if s.len() == 1 {
        None
    } else {
        match (spec_hex_digit(s[0]), spec_hex_digit(s[1])) {
            (Some(h), Some(l)) => match spec_parse_hex(s.skip(2)) {
                Some(rest) => Some(seq![(h * 16 + l) as u8] + rest),
                None => None,
            },
            _ => None,
        }
    }
}

proof fn lemma_digits_val_grows(s: Seq<char>, k: int)
    requires
        0 <= k <= s.len(),
    ensures
        spec_digits_val(s.take(k)) <= spec_digits_val(s),
    decreases s.len(),
{
    if k == s.len() {
        assert(s.take(k) =~= s);
    } else {
        assert(s.take(k) =~= s.drop_last().take(k));
        lemma_digits_val_grows(s.drop_last(), k);
    }
}

/// Whether `c` has the Unicode White_Space property.
fn is_whitespace_char(c: char) -> (r: bool)
    ensures
        r == spec_is_whitespace(c),
{
    let d = c as u32;
    d == 9 || d == 10 || d == 11 || d == 12 || d == 13 || d == 32 || d == 0x85 || d == 0xa0
        || d == 0x1680 || (0x2000 <= d && d <= 0x200a) || d == 0x2028 || d == 0x2029 || d == 0x202f
        || d == 0x205f || d == 0x3000
}

fn trim_range(s: &str, a: usize, b: usize) -> (r: (usize, usize))
    requires
        a <= b <= s@.len(),
    ensures
        a <= r.0 <= r.1 <= b,
        s@.subrange(r.0 as int, r.1 as int) == spec_trim(s@.subrange(a as int, b as int)),
{
    let mut a1 = a;
    while a1 < b && is_whitespace_char(s.get_char(a1))
        invariant
            a <= a1 <= b <= s@.len(),
            spec_trim(s@.subrange(a as int, b as int)) == spec_trim(
                s@.subrange(a1 as int, b as int),
            ),
        decreases b - a1,
    {
        proof {
            let cur = s@.subrange(a1 as int, b as int);
            assert(cur[0] == s@[a1 as int]);
            assert(cur.drop_first() =~= s@.subrange(a1 as int + 1, b as int));
        }
        a1 = a1 + 1;
    }
    let mut b1 = b;
    while b1 > a1 && is_whitespace_char(s.get_char(b1 - 1))
        invariant
            a <= a1 <= b1 <= b <= s@.len(),
            a1 == b || !spec_is_whitespace(s@[a1 as int]),
            spec_trim(s@.subrange(a as int, b as int)) == spec_trim(
                s@.subrange(a1 as int, b1 as int),
            ),
        decreases b1,
    {
        proof {
            let cur = s@.subrange(a1 as int, b1 as int);
            assert(cur[0] == s@[a1 as int]);
            assert(cur.last() == s@[b1 as int - 1]);
            assert(cur.drop_last() =~= s@.subrange(a1 as int, b1 as int - 1));
        }
        b1 = b1 - 1;
    }
    proof {
        let cur = s@.subrange(a1 as int, b1 as int);
        if cur.len() > 0 {
            assert(cur[0] == s@[a1 as int]);
            assert(cur.last() == s@[b1 as int - 1]);
        }
        assert(spec_trim(cur) == cur);
    }
    (a1, b1)
}

fn parse_u8_chars(s: &str, from: usize, to: usize) -> (r: Option<u8>)
    requires
        from <= to <= s@.len(),
    ensures
        r == spec_parse_u8(s@.subrange(from as int, to as int)),
{
    let ghost t0 = s@.subrange(from as int, to as int);
    let mut i = from;
    if i < to && s.get_char(i) == '+' {
        i = i + 1;
    }
    let ghost t = s@.subrange(i as int, to as int);
    proof {
        if from < to {
            assert(t0[0] == s@[from as int]);
        }
        if i != from {
            assert(t0.drop_first() =~= t);
        } else {
            assert(t0 =~= t);
        }
        assert(spec_parse_u8(t0) == (if t.len() >= 1 && spec_all_digits(t) && spec_digits_val(t)
            <= 255 {
            Some(spec_digits_val(t) as u8)
        } else {
            None::<u8>
        }));
    }
    if i == to {
        return None;
    }
    let mut acc: u32 = 0;
    let mut j = i;
    while j < to
        invariant
            i <= j <= to <= s@.len(),
            t == s@.subrange(i as int, to as int),
            acc <= 255,
            spec_all_digits(t.take(j - i)),
            acc == spec_digits_val(t.take(j - i)),
            t.len() >= 1,
            spec_parse_u8(s@.subrange(from as int, to as int)) == (if t.len() >= 1
                && spec_all_digits(t) && spec_digits_val(t) <= 255 {
                Some(spec_digits_val(t) as u8)
            } else {
                None::<u8>
            }),
        decreases to - j,
    {
        let c = s.get_char(j);
        let d = c as u32;
        proof {
            assert(t[j - i] == c);
        }
        if d < 48 || d > 57 {
            proof {
                assert(!spec_is_digit(t[j - i]));
                assert(!spec_all_digits(t));
            }
            return None;
        }
        let v = acc * 10 + (d - 48);
        proof {
            assert(t.take(j - i + 1).drop_last() =~= t.take(j - i));
            assert(t.take(j - i + 1).last() == t[j - i]);
            assert(spec_digits_val(t.take(j - i + 1)) == acc * 10 + (d - 48));
            assert forall|m: int| 0 <= m < j - i + 1 implies spec_is_digit(
                #[trigger] t.take(j - i + 1)[m],
            ) by {
                if m < j - i {
                    assert(t.take(j - i + 1)[m] == t.take(j - i)[m]);
                } else {
                    assert(t.take(j - i + 1)[m] == t[j - i]);
                }
            }
        }
        if v > 255 {
            proof {
                lemma_digits_val_grows(t, j - i + 1);
                assert(spec_digits_val(t) > 255);
            }
            return None;
        }
        acc = v;
        j = j + 1;
    }
    proof {
        assert(t.take(to - i) =~= t);
    }
    Some(acc as u8)
}

fn parse_byte_list(s: &str, lo: usize, hi: usize, sep: char, trim_tokens: bool) -> (r: Option<
    Vec<u8>,
>)
    requires
        lo <= hi <= s@.len(),
    ensures
        match spec_parse_list(s@.subrange(lo as int, hi as int), sep, trim_tokens) {
            Some(v) => r matches Some(rv) && rv@ == v,
            None => r is None,
        },
{
    let ghost full = s@.subrange(lo as int, hi as int);
    let mut out: Vec<u8> = Vec::new();
    let mut t = lo;
    let mut j = lo;
    proof {
        match spec_parse_list(full, sep, trim_tokens) {
            Some(rest) => {
                assert(Seq::<u8>::empty() + rest =~= rest);
            },
            None => {},
        }
    }
    while j < hi
        invariant
            lo <= t <= j <= hi <= s@.len(),
            full == s@.subrange(lo as int, hi as int),
            forall|m: int| t <= m < j ==> s@[m] != sep,
            spec_parse_list(full, sep, trim_tokens) == match spec_parse_list(
                s@.subrange(t as int, hi as int),
                sep,
                trim_tokens,
            ) {
                None => None::<Seq<u8>>,
                Some(rest) => Some(out@ + rest),
            },
        decreases hi - j,
    {
        let c = s.get_char(j);
        if c == sep {
            let ghost seg = s@.subrange(t as int, hi as int);
            proof {
                lemma_find_props(seg, sep);
                assert(seg[j - t] == s@[j as int]);
                assert(forall|m: int| 0 <= m < j - t ==> seg[m] == s@[t + m] && s@[t + m] != sep);
                assert(spec_find(seg, sep) == j - t);
                assert(seg.take(j - t) =~= s@.subrange(t as int, j as int));
            }
            let tok = if trim_tokens {
                let (ta, tb) = trim_range(s, t, j);
                parse_u8_chars(s, ta, tb)
            } else {
                parse_u8_chars(s, t, j)
            };
            match tok {
                None => {
                    return None;
                },
                Some(x) => {
                    let ghost out0 = out@;
                    out.push(x);
                    proof {
                        assert(seg.skip(j - t + 1) =~= s@.subrange(j as int + 1, hi as int));
                        match spec_parse_list(
                            s@.subrange(j as int + 1, hi as int),
                            sep,
                            trim_tokens,
                        ) {
                            Some(rest) => {
                                assert(out0 + (seq![x] + rest) =~= out@ + rest);
                            },
                            None => {},
                        }
                    }
                    t = j + 1;
                },
            }
        }
        j = j + 1;
    }
    let ghost seg = s@.subrange(t as int, hi as int);
    proof {
        lemma_find_props(seg, sep);
        assert(forall|m: int| 0 <= m < seg.len() ==> seg[m] == s@[t + m] && s@[t + m] != sep);
        assert(spec_find(seg, sep) == -1);
    }
    let tok = if trim_tokens {
        let (ta, tb) = trim_range(s, t, hi);
        parse_u8_chars(s, ta, tb)
    } else {
        parse_u8_chars(s, t, hi)
    };
    match tok {
        None => None,
        Some(x) => {
            let ghost out0 = out@;
            out.push(x);
            proof {
                assert(out0 + seq![x] =~= out@);
            }
            Some(out)
        },
    }
}

fn bracket_range(code: &str) -> (r: (usize, usize))
    ensures
        r.0 <= r.1 <= code@.len(),
        code@.subrange(r.0 as int, r.1 as int) == spec_strip_brackets(code@),
{
    let n = code.unicode_len();
    let lo: usize = if n >= 1 && code.get_char(0) == '[' {
        1
    } else {
        0
    };
    let hi: usize = if n > lo && code.get_char(n - 1) == ']' {
        n - 1
    } else {
        n
    };
    proof {
        let s = code@;
        let t = if s.len() >= 1 && s[0] == '[' {
            s.drop_first()
        } else {
            s
        };
        assert(t =~= s.subrange(lo as int, n as int));
        if t.len() >= 1 {
            assert(t.last() == s[n - 1]);
        }
        if t.len() >= 1 && t.last() == ']' {
            assert(t.drop_last() =~= s.subrange(lo as int, hi as int));
        }
        assert(s.subrange(lo as int, hi as int) =~= spec_strip_brackets(s));
    }
    (lo, hi)
}

/// Parses the space-separated decimal byte notation, optionally bracketed;
/// each token must be a decimal byte.
pub fn parse_golang_fmt_print(code: &str) -> (r: Result<Vec<u8>, InputError>)
    ensures
        match spec_parse_golang_print(code@) {
            Some(v) => r matches Ok(rv) && rv@ == v,
            None => r == Err::<Vec<u8>, InputError>(InputError::BadGolangPrint),
        },
{
    let (lo, hi) = bracket_range(code);
    match parse_byte_list(code, lo, hi, ' ', false) {
        Some(v) => Ok(v),
        None => Err(InputError::BadGolangPrint),
    }
}

/// Parses the comma-separated decimal byte notation, optionally bracketed;
/// each token is trimmed of surrounding whitespace before it is read.
pub fn parse_rust_print(code: &str) -> (r: Result<Vec<u8>, InputError>)
    ensures
        match spec_parse_rust_print(code@) {
            Some(v) => r matches Ok(rv) && rv@ == v,
            None => r == Err::<Vec<u8>, InputError>(InputError::BadRustPrint),
        },
{
    let (lo, hi) = bracket_range(code);
    match parse_byte_list(code, lo, hi, ',', true) {
        Some(v) => Ok(v),
        None => Err(InputError::BadRustPrint),
    }
}

fn hex_digit(c: char) -> (r: Option<u8>)
    ensures
        r == spec_hex_digit(c),
        r matches Some(v) ==> v < 16,
{
    let d = c as u32;
    if 48 <= d && d <= 57 {
        Some((d - 48) as u8)
    } else if 97 <= d && d <= 102 {
        Some((d - 87) as u8)
    } else if 65 <= d && d <= 70 {
        Some((d - 55) as u8)
    } else {
        None
    }
}

/// Parses a hexadecimal string into its bytes: an even number of hex
/// digits, upper or lower case, two per byte.
pub fn parse_hex_encoded(code: &str) -> (r: Result<Vec<u8>, InputError>)
    ensures
        match spec_parse_hex(code@) {
            Some(v) => r matches Ok(rv) && rv@ == v,
            None => r == Err::<Vec<u8>, InputError>(InputError::BadHex),
        },
{
    let n = code.unicode_len();
    let mut out: Vec<u8> = Vec::new();
    let mut j: usize = 0;
    proof {
        assert(code@.skip(0) =~= code@);
        match spec_parse_hex(code@) {
            Some(rest) => {
                assert(Seq::<u8>::empty() + rest =~= rest);
            },
            None => {},
        }
    }
    while n - j >= 2
        invariant
            j <= n,
            n == code@.len(),
            spec_parse_hex(code@) == match spec_parse_hex(code@.skip(j as int)) {
                None => None::<Seq<u8>>,
                Some(rest) => Some(out@ + rest),
            },
        decreases n - j,
    {
        let ghost seg = code@.skip(j as int);
        proof {
            assert(seg[0] == code@[j as int]);
            assert(seg[1] == code@[j as int + 1]);
        }
        let h = match hex_digit(code.get_char(j)) {
            Some(h) => h,
            None => {
                return Err(InputError::BadHex);
            },
        };
        let l = match hex_digit(code.get_char(j + 1)) {
            Some(l) => l,
            None => {
                return Err(InputError::BadHex);
            },
        };
        let ghost out0 = out@;
        out.push(h * 16 + l);
        j = j + 2;
        proof {
            assert(seg.skip(2) =~= code@.skip(j as int));
            match spec_parse_hex(code@.skip(j as int)) {
                Some(rest) => {
                    assert(out0 + (seq![(h * 16 + l) as u8] + rest) =~= out@ + rest);
                },
                None => {},
            }
        }
    }
    if j == n {
        proof {
            assert(code@.skip(n as int).len() == 0);
            match spec_parse_hex(code@) {
                Some(v) => {
                    assert(out@ + Seq::<u8>::empty() =~= out@);
                },
                None => {},
            }
        }
        Ok(out)
    } else {
        proof {
            assert(code@.skip(j as int).len() == 1);
        }
        Err(InputError::BadHex)
    }
}

/// Tries each human-readable notation in a fixed priority order — the
/// comma-separated list, then the space-separated list, then hexadecimal —
/// and returns the first successful parse.
pub fn parse_input(code: &str) -> (r: Result<Vec<u8>, InputError>)
    ensures
        match spec_parse_rust_print(code@) {
            Some(v) => r matches Ok(rv) && rv@ == v,
            None => match spec_parse_golang_print(code@) {
                Some(v) => r matches Ok(rv) && rv@ == v,
                None => match spec_parse_hex(code@) {
                    Some(v) => r matches Ok(rv) && rv@ == v,
                    None => r == Err::<Vec<u8>, InputError>(InputError::Unrecognized),
                },
            },
        },
{
    match parse_rust_print(code) {
        Ok(v) => Ok(v),
        Err(_) => match parse_golang_fmt_print(code) {
            Ok(v) => Ok(v),
            Err(_) => match parse_hex_encoded(code) {
                Ok(v) => Ok(v),
                Err(_) => Err(InputError::Unrecognized),
            },
        },
    }
}

} // verus!
