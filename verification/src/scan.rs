//! Scanning text character by character: classes of characters, runs of
//! them, numbers, and the lines of a text.
use vstd::prelude::*;
use vstd::string::StrSliceExecFns;
use crate::text::push_char;

verus! {

/// Space or tab.
pub open spec fn is_blank(c: char) -> bool {
    c == ' ' || c == '\t'
}

pub open spec fn is_ascii_digit(c: char) -> bool {
    '0' <= c <= '9'
}

pub open spec fn is_ascii_alpha(c: char) -> bool {
    ('a' <= c <= 'z') || ('A' <= c <= 'Z')
}

/// Letters, digits and underscores make up identifiers.
pub open spec fn is_ident_char(c: char) -> bool {
    is_ascii_alpha(c) || is_ascii_digit(c) || c == '_'
}

/// Characters with the Unicode `White_Space` property.
pub open spec fn is_unicode_whitespace(c: char) -> bool {
    let n = c as u32;
    ||| 0x09 <= n <= 0x0d
    ||| n == 0x20
    ||| n == 0x85
    ||| n == 0xa0
    ||| n == 0x1680
    ||| 0x2000 <= n <= 0x200a
    ||| n == 0x2028
    ||| n == 0x2029
    ||| n == 0x202f
    ||| n == 0x205f
    ||| n == 0x3000
}

/// Whether `char::is_alphanumeric` holds of `c` (Unicode `Alphabetic` or
/// `Numeric`).
pub uninterp spec fn char_alphanumeric(c: char) -> bool;

/// `char::is_alphanumeric` of std.
#[verifier::external_body]
pub fn is_alphanumeric(c: char) -> (r: bool)
    ensures
        r == char_alphanumeric(c),
{
    c.is_alphanumeric()
}

/// Whether `char::is_alphabetic` holds of `c` (Unicode `Alphabetic`).
pub uninterp spec fn char_alphabetic(c: char) -> bool;

/// `char::is_alphabetic` of std.
#[verifier::external_body]
pub fn is_alphabetic(c: char) -> (r: bool)
    ensures
        r == char_alphabetic(c),
{
    c.is_alphabetic()
}

pub fn is_unicode_whitespace_exec(c: char) -> (r: bool)
    ensures
        r == is_unicode_whitespace(c),
{
    let n = c as u32;
    (0x09 <= n && n <= 0x0d) || n == 0x20 || n == 0x85 || n == 0xa0 || n == 0x1680 || (0x2000
        <= n && n <= 0x200a) || n == 0x2028 || n == 0x2029 || n == 0x202f || n == 0x205f || n
        == 0x3000
}

/// End of the run of characters satisfying `p` that starts at `i`.
pub open spec fn run_end(s: Seq<char>, i: int, p: spec_fn(char) -> bool) -> int
    decreases s.len() - i,
{
    if 0 <= i < s.len() && p(s[i]) {
        run_end(s, i + 1, p)
    } else {
        i
    }
}

pub proof fn lemma_run_end(s: Seq<char>, i: int, p: spec_fn(char) -> bool)
    requires
        0 <= i <= s.len(),
    ensures
        i <= run_end(s, i, p) <= s.len(),
        forall|j: int| i <= j < run_end(s, i, p) ==> p(s[j]),
        run_end(s, i, p) < s.len() ==> !p(s[run_end(s, i, p)]),
    decreases s.len() - i,
{
    if i < s.len() && p(s[i]) {
        lemma_run_end(s, i + 1, p);
    }
}

pub open spec fn blank_pred() -> spec_fn(char) -> bool {
    |c: char| is_blank(c)
}

pub open spec fn digit_pred() -> spec_fn(char) -> bool {
    |c: char| is_ascii_digit(c)
}

pub open spec fn alpha_pred() -> spec_fn(char) -> bool {
    |c: char| is_ascii_alpha(c)
}

pub open spec fn ident_pred() -> spec_fn(char) -> bool {
    |c: char| is_ident_char(c)
}

/// Characters that may occur in the text of a type in a symbol file.
pub open spec fn is_type_char(c: char) -> bool {
    char_alphanumeric(c) || c == '<' || c == '>' || c == '_' || c == ';' || c == ' ' || c == '['
        || c == ']' || c == '*' || c == '&'
}

pub open spec fn type_char_pred() -> spec_fn(char) -> bool {
    |c: char| is_type_char(c)
}

pub open spec fn not_newline_pred() -> spec_fn(char) -> bool {
    |c: char| c != '\n'
}

pub open spec fn whitespace_pred() -> spec_fn(char) -> bool {
    |c: char| is_unicode_whitespace(c)
}

/// After the characters of a type at `i`.
pub fn skip_type_chars(s: &Vec<char>, i: usize) -> (r: usize)
    requires
        i <= s.len(),
    ensures
        r == run_end(s@, i as int, type_char_pred()),
        i <= r <= s.len(),
{
    let mut j = i;
    while j < s.len() && is_type_char_exec(s[j])
        invariant
            i <= j <= s.len(),
            run_end(s@, i as int, type_char_pred()) == run_end(s@, j as int, type_char_pred()),
        decreases s.len() - j,
    {
        j = j + 1;
    }
    j
}

pub fn is_type_char_exec(c: char) -> (r: bool)
    ensures
        r == is_type_char(c),
{
    is_alphanumeric(c) || c == '<' || c == '>' || c == '_' || c == ';' || c == ' ' || c == '['
        || c == ']' || c == '*' || c == '&'
}

/// The end of the line that starts at `i`: the position of the next newline,
/// or the end of the text.
pub fn skip_to_newline(s: &Vec<char>, i: usize) -> (r: usize)
    requires
        i <= s.len(),
    ensures
        r == run_end(s@, i as int, not_newline_pred()),
        i <= r <= s.len(),
{
    let mut j = i;
    while j < s.len() && s[j] != '\n'
        invariant
            i <= j <= s.len(),
            run_end(s@, i as int, not_newline_pred()) == run_end(s@, j as int, not_newline_pred()),
        decreases s.len() - j,
    {
        j = j + 1;
    }
    j
}

/// End of the run of whitespace that ends at `b` and starts no earlier than
/// `a`, read backwards: the end of `s[a..b]` without its trailing whitespace.
pub open spec fn trail_ws_end(s: Seq<char>, a: int, b: int) -> int
    decreases b - a,
{
    if a < b && is_unicode_whitespace(s[b - 1]) {
        trail_ws_end(s, a, b - 1)
    } else {
        b
    }
}

/// Bounds of `s[lo..hi]` without leading and trailing whitespace
/// (`str::trim`).
pub open spec fn trim_bounds(s: Seq<char>, lo: int, hi: int) -> (int, int) {
    let a = bounded_run_end(s, lo, hi, whitespace_pred());
    (a, trail_ws_end(s, a, hi))
}

/// End of the run of characters satisfying `p` in `s[i..hi]`.
pub open spec fn bounded_run_end(s: Seq<char>, i: int, hi: int, p: spec_fn(char) -> bool) -> int
    decreases hi - i,
{
    if i < hi && p(s[i]) {
        bounded_run_end(s, i + 1, hi, p)
    } else {
        i
    }
}

/// `str::trim` on the characters `s[lo..hi]`.
pub fn trim_range(s: &Vec<char>, lo: usize, hi: usize) -> (r: (usize, usize))
    requires
        lo <= hi <= s.len(),
    ensures
        r.0 == trim_bounds(s@, lo as int, hi as int).0,
        r.1 == trim_bounds(s@, lo as int, hi as int).1,
        lo <= r.0 <= r.1 <= hi,
{
    let mut a = lo;
    while a < hi && is_unicode_whitespace_exec(s[a])
        invariant
            lo <= a <= hi <= s.len(),
            bounded_run_end(s@, lo as int, hi as int, whitespace_pred()) == bounded_run_end(
                s@,
                a as int,
                hi as int,
                whitespace_pred(),
            ),
        decreases hi - a,
    {
        a = a + 1;
    }
    let mut b = hi;
    while a < b && is_unicode_whitespace_exec(s[b - 1])
        invariant
            lo <= a <= b <= hi <= s.len(),
            trail_ws_end(s@, a as int, hi as int) == trail_ws_end(s@, a as int, b as int),
        decreases b - a,
    {
        b = b - 1;
    }
    (a, b)
}

/// After the spaces and tabs at `i`.
pub fn skip_blanks(s: &Vec<char>, i: usize) -> (r: usize)
    requires
        i <= s.len(),
    ensures
        r == run_end(s@, i as int, blank_pred()),
        i <= r <= s.len(),
{
    let mut j = i;
    while j < s.len() && (s[j] == ' ' || s[j] == '\t')
        invariant
            i <= j <= s.len(),
            run_end(s@, i as int, blank_pred()) == run_end(s@, j as int, blank_pred()),
        decreases s.len() - j,
    {
        j = j + 1;
    }
    j
}

/// After the ASCII digits at `i`.
pub fn skip_digits(s: &Vec<char>, i: usize) -> (r: usize)
    requires
        i <= s.len(),
    ensures
        r == run_end(s@, i as int, digit_pred()),
        i <= r <= s.len(),
{
    let mut j = i;
    while j < s.len() && '0' <= s[j] && s[j] <= '9'
        invariant
            i <= j <= s.len(),
            run_end(s@, i as int, digit_pred()) == run_end(s@, j as int, digit_pred()),
        decreases s.len() - j,
    {
        j = j + 1;
    }
    j
}

/// After the ASCII letters at `i`.
pub fn skip_alpha(s: &Vec<char>, i: usize) -> (r: usize)
    requires
        i <= s.len(),
    ensures
        r == run_end(s@, i as int, alpha_pred()),
        i <= r <= s.len(),
{
    let mut j = i;
    while j < s.len() && (('a' <= s[j] && s[j] <= 'z') || ('A' <= s[j] && s[j] <= 'Z'))
        invariant
            i <= j <= s.len(),
            run_end(s@, i as int, alpha_pred()) == run_end(s@, j as int, alpha_pred()),
        decreases s.len() - j,
    {
        j = j + 1;
    }
    j
}

/// After the identifier characters at `i`.
pub fn skip_ident(s: &Vec<char>, i: usize) -> (r: usize)
    requires
        i <= s.len(),
    ensures
        r == run_end(s@, i as int, ident_pred()),
        i <= r <= s.len(),
{
    let mut j = i;
    while j < s.len() && (('a' <= s[j] && s[j] <= 'z') || ('A' <= s[j] && s[j] <= 'Z') || ('0'
        <= s[j] && s[j] <= '9') || s[j] == '_')
        invariant
            i <= j <= s.len(),
            run_end(s@, i as int, ident_pred()) == run_end(s@, j as int, ident_pred()),
        decreases s.len() - j,
    {
        j = j + 1;
    }
    j
}

/// Decimal value of the digits `s[i..j]`.
pub open spec fn digits_value(s: Seq<char>, i: int, j: int) -> nat
    decreases j - i,
{
    if j <= i {
        0
    } else {
        digits_value(s, i, j - 1) * 10 + ((s[j - 1] as nat) - ('0' as nat)) as nat
    }
}

/// A parse result with its position as an `int`.
pub open spec fn at_int<T>(r: Option<(T, usize)>) -> Option<(T, int)> {
    match r {
        Some((v, j)) => Some((v, j as int)),
        None => None,
    }
}

/// An unsigned number at `i`: its value and the position after it.
pub open spec fn spec_parse_usize(s: Seq<char>, i: int) -> Option<(usize, int)> {
    let j = run_end(s, i, digit_pred());
    if j == i || digits_value(s, i, j) > usize::MAX {
        None
    } else {
        Some((digits_value(s, i, j) as usize, j))
    }
}

/// A number with an optional minus sign at `i`.
pub open spec fn spec_parse_i128(s: Seq<char>, i: int) -> Option<(i128, int)> {
    if 0 <= i < s.len() && s[i] == '-' {
        let j = run_end(s, i + 1, digit_pred());
        if j == i + 1 || digits_value(s, i + 1, j) > 0x8000_0000_0000_0000_0000_0000_0000_0000 {
            None
        } else {
            Some((-(digits_value(s, i + 1, j) as int) as i128, j))
        }
    } else {
        let j = run_end(s, i, digit_pred());
        if j == i || digits_value(s, i, j) > i128::MAX {
            None
        } else {
            Some((digits_value(s, i, j) as i128, j))
        }
    }
}

proof fn lemma_digits_grow(s: Seq<char>, i: int, j: int, k: int)
    requires
        i <= j <= k,
        forall|m: int| i <= m < k ==> is_ascii_digit(#[trigger] s[m]),
    ensures
        digits_value(s, i, j) <= digits_value(s, i, k),
    decreases k - j,
{
    if j < k {
        lemma_digits_grow(s, i, j, k - 1);
        assert(digits_value(s, i, k) == digits_value(s, i, k - 1) * 10 + ((s[k - 1] as nat) - (
        '0' as nat)));
    }
}

/// Value of the digits `s[i..j]`, or `None` when it exceeds `bound`.
fn digits_up_to(s: &Vec<char>, i: usize, j: usize, bound: u128) -> (r: Option<u128>)
    requires
        i <= j <= s.len(),
        forall|m: int| i <= m < j ==> is_ascii_digit(#[trigger] s@[m]),
    ensures
        match r {
            Some(v) => v == digits_value(s@, i as int, j as int) && v <= bound,
            None => digits_value(s@, i as int, j as int) > bound,
        },
{
    let mut v: u128 = 0;
    let mut k = i;
    while k < j
        invariant
            i <= k <= j <= s.len(),
            forall|m: int| i <= m < j ==> is_ascii_digit(#[trigger] s@[m]),
            v == digits_value(s@, i as int, k as int),
            v <= bound,
        decreases j - k,
    {
        let d = (s[k] as u32 - '0' as u32) as u128;
        assert(d <= 9);
        if d > bound || v > (bound - d) / 10 {
            proof {
                if d <= bound {
                    assert(v * 10 + d > bound) by (nonlinear_arith)
                        requires
                            v > (bound - d) / 10,
                            d <= bound,
                    ;
                }
                lemma_digits_grow(s@, i as int, (k + 1) as int, j as int);
            }
            return None;
        }
        assert(v * 10 + d <= bound) by (nonlinear_arith)
            requires
                v <= (bound - d) / 10,
                d <= bound,
        ;
        v = v * 10 + d;
        k = k + 1;
    }
    Some(v)
}

/// An unsigned number at `i`.
pub fn parse_usize_at(s: &Vec<char>, i: usize) -> (r: Option<(usize, usize)>)
    requires
        i <= s.len(),
    ensures
        at_int(r) == spec_parse_usize(s@, i as int),
        r matches Some((_, j)) ==> i < j <= s.len(),
{
    let j = skip_digits(s, i);
    proof {
        lemma_run_end(s@, i as int, digit_pred());
    }
    if j == i {
        return None;
    }
    match digits_up_to(s, i, j, usize::MAX as u128) {
        Some(v) => Some((v as usize, j)),
        None => None,
    }
}

/// A number with an optional minus sign at `i`.
pub fn parse_i128_at(s: &Vec<char>, i: usize) -> (r: Option<(i128, usize)>)
    requires
        i <= s.len(),
    ensures
        at_int(r) == spec_parse_i128(s@, i as int),
        r matches Some((_, j)) ==> i < j <= s.len(),
{
    if i < s.len() && s[i] == '-' {
        let j = skip_digits(s, i + 1);
        proof {
            lemma_run_end(s@, i + 1, digit_pred());
        }
        if j == i + 1 {
            return None;
        }
        match digits_up_to(s, i + 1, j, 0x8000_0000_0000_0000_0000_0000_0000_0000u128) {
            Some(v) => {
                if v == 0x8000_0000_0000_0000_0000_0000_0000_0000u128 {
                    Some((i128::MIN, j))
                } else {
                    Some((-(v as i128), j))
                }
            },
            None => None,
        }
    } else {
        let j = skip_digits(s, i);
        proof {
            lemma_run_end(s@, i as int, digit_pred());
        }
        if j == i {
            return None;
        }
        match digits_up_to(s, i, j, i128::MAX as u128) {
            Some(v) => Some((v as i128, j)),
            None => None,
        }
    }
}

/// Whether `t` occurs in `s` at `i`.
pub open spec fn has_at(s: Seq<char>, i: int, t: Seq<char>) -> bool {
    0 <= i && i + t.len() <= s.len() && s.subrange(i, i + t.len()) == t
}

pub fn has_at_exec(s: &Vec<char>, i: usize, t: &str) -> (r: bool)
    requires
        i <= s.len(),
    ensures
        r == has_at(s@, i as int, t@),
{
    let n = t.unicode_len();
    if n > s.len() - i {
        return false;
    }
    let mut k: usize = 0;
    while k < n
        invariant
            n == t@.len(),
            i + n <= s.len(),
            k <= n,
            forall|m: int| 0 <= m < k ==> s@[i + m] == t@[m],
        decreases n - k,
    {
        if s[i + k] != t.get_char(k) {
            assert(s@.subrange(i as int, i + n)[k as int] != t@[k as int]);
            return false;
        }
        k = k + 1;
    }
    assert(s@.subrange(i as int, i + n) =~= t@);
    true
}

/// The characters of `s`.
pub fn chars_of(s: &str) -> (r: Vec<char>)
    ensures
        r@ == s@,
{
    let n = s.unicode_len();
    let mut v: Vec<char> = Vec::new();
    let mut k: usize = 0;
    while k < n
        invariant
            n == s@.len(),
            k <= n,
            v@ == s@.subrange(0, k as int),
        decreases n - k,
    {
        v.push(s.get_char(k));
        k = k + 1;
        assert(v@ =~= s@.subrange(0, k as int));
    }
    assert(v@ =~= s@);
    v
}

/// A string of the characters `s[i..j]`.
pub fn string_of(s: &Vec<char>, i: usize, j: usize) -> (r: String)
    requires
        i <= j <= s.len(),
    ensures
        r@ == s@.subrange(i as int, j as int),
{
    let mut out = String::new();
    let mut k = i;
    while k < j
        invariant
            i <= k <= j <= s.len(),
            out@ == s@.subrange(i as int, k as int),
        decreases j - k,
    {
        push_char(&mut out, s[k]);
        k = k + 1;
        assert(out@ =~= s@.subrange(i as int, k as int));
    }
    out
}

} // verus!
