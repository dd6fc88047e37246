//! Line- and token-level text utilities shared by all format parsers.
//!
//! Every function is specified against a spec-level model over `Seq<char>`:
//! lines are split the way `str::lines` documents it, tokens are maximal
//! runs of non-whitespace characters, and integers follow the decimal
//! grammar of std's `FromStr` for unsigned and signed integers.

use vstd::prelude::*;
use vstd::slice::*;
use vstd::string::*;

verus! {

/// ASCII whitespace: the separators the formats use between fields.
pub open spec fn is_ws(c: char) -> bool {
    c == ' ' || c == '\t' || c == '\n' || c == '\r' || c == '\u{000C}'
}

fn is_ws_char(c: char) -> (b: bool)
    ensures
        b == is_ws(c),
{
    c == ' ' || c == '\t' || c == '\n' || c == '\r' || c == '\u{000C}'
}

/// All characters of the content, in order.
pub fn to_chars(s: &str) -> (r: Vec<char>)
    ensures
        r@ == s@,
{
    let n = s.unicode_len();
    let mut r: Vec<char> = Vec::new();
    let mut i: usize = 0;
    while i < n
        invariant
            i <= n,
            n == s@.len(),
            r@ == s@.subrange(0, i as int),
        decreases n - i,
    {
        let c = s.get_char(i);
        r.push(c);
        proof {
            assert(s@.subrange(0, i as int).push(s@[i as int]) =~= s@.subrange(0, i + 1 as int));
        }
        i += 1;
    }
    proof {
        assert(r@ =~= s@);
    }
    r
}

/// The characters, collected back into an owned string.
pub fn chars_to_string(cs: &[char]) -> (r: String)
    ensures
        r@ == cs@,
{
    let mut r = String::new();
    let mut i: usize = 0;
    while i < cs.len()
        invariant
            i <= cs@.len(),
            r@ == cs@.subrange(0, i as int),
        decreases cs@.len() - i,
    {
        r.push(cs[i]);
        proof {
            assert(cs@.subrange(0, i as int).push(cs@[i as int]) =~= cs@.subrange(
                0,
                i + 1 as int,
            ));
        }
        i += 1;
    }
    proof {
        assert(r@ =~= cs@);
    }
    r
}

pub open spec fn spec_trim_start(s: Seq<char>) -> Seq<char>
    decreases s.len(),
{
    if s.len() > 0 && is_ws(s[0]) {
        spec_trim_start(s.drop_first())
    } else {
        s
    }
}

pub open spec fn spec_trim_end(s: Seq<char>) -> Seq<char>
    decreases s.len(),
{
    if s.len() > 0 && is_ws(s.last()) {
        spec_trim_end(s.drop_last())
    } else {
        s
    }
}

/// The line with leading and trailing whitespace removed.
pub open spec fn spec_trim(s: Seq<char>) -> Seq<char> {
    spec_trim_end(spec_trim_start(s))
}

/// Removes leading and trailing whitespace, as `str::trim` does for ASCII.
pub fn trim(cs: &[char]) -> (r: Vec<char>)
    ensures
        r@ == spec_trim(cs@),
{
    let n = cs.len();
    let mut a: usize = 0;
    proof {
        assert(cs@.skip(0) =~= cs@);
    }
    while a < n && is_ws_char(*slice_index_get(cs, a))
        invariant
            a <= n,
            n == cs@.len(),
            spec_trim_start(cs@) == spec_trim_start(cs@.skip(a as int)),
        decreases n - a,
    {
        proof {
            assert(cs@.skip(a as int).drop_first() =~= cs@.skip(a + 1 as int));
        }
        a += 1;
    }
    proof {
        assert(cs@.skip(a as int).len() > 0 ==> cs@.skip(a as int)[0] == cs@[a as int]);
        assert(spec_trim_start(cs@) == cs@.skip(a as int));
    }
    let mut b: usize = n;
    while b > a && is_ws_char(*slice_index_get(cs, b - 1))
        invariant
            a <= b <= n,
            n == cs@.len(),
            spec_trim_start(cs@) == cs@.skip(a as int),
            spec_trim_end(cs@.skip(a as int)) == spec_trim_end(cs@.subrange(a as int, b as int)),
        decreases b,
    {
        proof {
            assert(cs@.subrange(a as int, b as int).drop_last() =~= cs@.subrange(
                a as int,
                b - 1 as int,
            ));
        }
        b -= 1;
    }
    proof {
        if b > a {
            assert(cs@.subrange(a as int, b as int).last() == cs@[b - 1 as int]);
        }
        assert(spec_trim_end(cs@.subrange(a as int, b as int)) == cs@.subrange(a as int, b as int));
    }
    let r = slice_to_vec(slice_subrange(cs, a, b));
    r
}

/// End (exclusive) of the maximal non-whitespace run that starts at `i`.
pub open spec fn tok_end(s: Seq<char>, i: int) -> int
    decreases s.len() - i,
{
    if 0 <= i < s.len() && !is_ws(s[i]) {
        tok_end(s, i + 1)
    } else {
        i
    }
}

pub proof fn lemma_tok_end_bounds(s: Seq<char>, i: int)
    requires
        0 <= i <= s.len(),
    ensures
        i <= tok_end(s, i) <= s.len(),
    decreases s.len() - i,
{
    if i < s.len() && !is_ws(s[i]) {
        lemma_tok_end_bounds(s, i + 1);
    }
}

/// The whitespace-separated tokens of `s`, from position `i` on.
pub open spec fn spec_tokens_from(s: Seq<char>, i: int) -> Seq<Seq<char>>
    decreases s.len() - i,
    when 0 <= i
    via spec_tokens_from_dec
{
    if i >= s.len() {
        seq![]
    } else if is_ws(s[i]) {
        spec_tokens_from(s, i + 1)
    } else {
        seq![s.subrange(i, tok_end(s, i))] + spec_tokens_from(s, tok_end(s, i))
    }
}

#[via_fn]
proof fn spec_tokens_from_dec(s: Seq<char>, i: int) {
    if 0 <= i < s.len() && !is_ws(s[i]) {
        lemma_tok_end_bounds(s, i + 1);
        assert(tok_end(s, i) == tok_end(s, i + 1));
    }
}

/// The tokens of the whole line, as `str::split_whitespace` lists them.
pub open spec fn spec_tokens(s: Seq<char>) -> Seq<Seq<char>> {
    spec_tokens_from(s, 0)
}

/// Splits the line into its whitespace-separated tokens.
pub fn tokens(cs: &[char]) -> (r: Vec<Vec<char>>)
    ensures
        r.deep_view() == spec_tokens(cs@),
{
    let n = cs.len();
    let mut r: Vec<Vec<char>> = Vec::new();
    let mut i: usize = 0;
    while i < n
        invariant
            i <= n,
            n == cs@.len(),
            spec_tokens(cs@) == r.deep_view() + spec_tokens_from(cs@, i as int),
        decreases n - i,
    {
        if is_ws_char(*slice_index_get(cs, i)) {
            i += 1;
        } else {
            let start = i;
            let mut j = i + 1;
            proof {
                assert(tok_end(cs@, i as int) == tok_end(cs@, j as int));
            }
            while j < n && !is_ws_char(*slice_index_get(cs, j))
                invariant
                    i < j <= n,
                    n == cs@.len(),
                    tok_end(cs@, i as int) == tok_end(cs@, j as int),
                decreases n - j,
            {
                proof {
                    assert(tok_end(cs@, j as int) == tok_end(cs@, j + 1 as int));
                }
                j += 1;
            }
            proof {
                assert(tok_end(cs@, j as int) == j as int);
            }
            let tok = slice_to_vec(slice_subrange(cs, start, j));
            let ghost old_deep = r.deep_view();
            r.push(tok);
            proof {
                assert(r.deep_view() =~~= old_deep.push(cs@.subrange(start as int, j as int)));
                assert(r.deep_view() + spec_tokens_from(cs@, j as int) =~~= old_deep + (seq![
                    cs@.subrange(start as int, j as int),
                ] + spec_tokens_from(cs@, j as int)));
            }
            i = j;
        }
    }
    proof {
        assert(spec_tokens(cs@) =~~= r.deep_view());
    }
    r
}

/// Position of the first line feed at or after `i`, or the length.
pub open spec fn line_end(s: Seq<char>, i: int) -> int
    decreases s.len() - i,
{
    if 0 <= i < s.len() && s[i] != '\n' {
        line_end(s, i + 1)
    } else {
        i
    }
}

pub proof fn lemma_line_end_bounds(s: Seq<char>, i: int)
    requires
        0 <= i <= s.len(),
    ensures
        i <= line_end(s, i) <= s.len(),
    decreases s.len() - i,
{
    if i < s.len() && s[i] != '\n' {
        lemma_line_end_bounds(s, i + 1);
    }
}

/// One line as delivered: a carriage return directly before the line feed is
/// dropped.
pub open spec fn strip_cr(l: Seq<char>) -> Seq<char> {
    if l.len() > 0 && l.last() == '\r' {
        l.drop_last()
    } else {
        l
    }
}

/// The lines of `s` from position `i` on, split as `str::lines` does it:
/// segments end at a line feed (with a directly preceding carriage return
/// removed), and a final segment without a line feed is kept as it stands.
pub open spec fn spec_lines_from(s: Seq<char>, i: int) -> Seq<Seq<char>>
    decreases s.len() - i,
    when 0 <= i
    via spec_lines_from_dec
{
    if i >= s.len() {
        seq![]
    } else {
        let e = line_end(s, i);
        if e < s.len() {
            seq![strip_cr(s.subrange(i, e))] + spec_lines_from(s, e + 1)
        } else {
            seq![s.subrange(i, e)]
        }
    }
}

#[via_fn]
proof fn spec_lines_from_dec(s: Seq<char>, i: int) {
    if 0 <= i < s.len() {
        lemma_line_end_bounds(s, i);
    }
}

/// The lines of the whole content.
pub open spec fn spec_lines(s: Seq<char>) -> Seq<Seq<char>> {
    spec_lines_from(s, 0)
}

/// Splits the content into lines, as `str::lines` does.
pub fn split_lines(cs: &[char]) -> (r: Vec<Vec<char>>)
    ensures
        r.deep_view() == spec_lines(cs@),
{
    let n = cs.len();
    let mut r: Vec<Vec<char>> = Vec::new();
    let mut i: usize = 0;
    while i < n
        invariant
            i <= n,
            n == cs@.len(),
            spec_lines(cs@) == r.deep_view() + spec_lines_from(cs@, i as int),
        decreases n - i,
    {
        let start = i;
        let mut j = i;
        proof {
            assert(line_end(cs@, i as int) == line_end(cs@, j as int));
        }
        while j < n && *slice_index_get(cs, j) != '\n'
            invariant
                i <= j <= n,
                n == cs@.len(),
                line_end(cs@, i as int) == line_end(cs@, j as int),
            decreases n - j,
        {
            proof {
                assert(line_end(cs@, j as int) == line_end(cs@, j + 1 as int));
            }
            j += 1;
        }
        proof {
            assert(line_end(cs@, j as int) == j as int);
        }
        let mut end = j;
        if j < n && end > start && *slice_index_get(cs, end - 1) == '\r' {
            end -= 1;
        }
        let line = slice_to_vec(slice_subrange(cs, start, end));
        let ghost old_deep = r.deep_view();
        r.push(line);
        proof {
            assert(r.deep_view() =~~= old_deep.push(cs@.subrange(start as int, end as int)));
            if (j as int) < cs@.len() {
                assert(cs@.subrange(start as int, end as int) == strip_cr(
                    cs@.subrange(start as int, j as int),
                )) by {
                    let l = cs@.subrange(start as int, j as int);
                    if l.len() > 0 && l.last() == '\r' {
                        assert(l.drop_last() =~= cs@.subrange(start as int, j - 1 as int));
                    }
                }
            }
        }
        if j < n {
            i = j + 1;
        } else {
            i = n;
            proof {
                assert(spec_lines_from(cs@, i as int) =~= Seq::<Seq<char>>::empty());
                assert(r.deep_view() + spec_lines_from(cs@, i as int) =~~= r.deep_view());
            }
        }
    }
    proof {
        assert(spec_lines(cs@) =~~= r.deep_view());
    }
    r
}

/// `needle` occurs as a contiguous run somewhere in `hay`.
pub open spec fn spec_contains(hay: Seq<char>, needle: Seq<char>) -> bool {
    exists|k: int|
        0 <= k && k + needle.len() <= hay.len() && #[trigger] hay.subrange(k, k + needle.len())
            == needle
}

/// Whether `needle` occurs in `hay`, as `str::contains` decides it.
pub fn contains(hay: &[char], needle: &[char]) -> (r: bool)
    ensures
        r == spec_contains(hay@, needle@),
{
    let n = hay.len();
    let m = needle.len();
    if m > n {
        proof {
            assert(!spec_contains(hay@, needle@));
        }
        return false;
    }
    let mut k: usize = 0;
    loop
        invariant
            m <= n,
            n == hay@.len(),
            m == needle@.len(),
            k <= n - m,
            forall|p: int|
                0 <= p < k ==> #[trigger] hay@.subrange(p, p + needle@.len()) != needle@,
        decreases n - m - k,
    {
        if match_at(hay, k, needle) {
            return true;
        }
        if k == n - m {
            proof {
                assert(forall|p: int|
                    0 <= p <= n - m ==> #[trigger] hay@.subrange(p, p + needle@.len()) != needle@);
                assert(!spec_contains(hay@, needle@));
            }
            return false;
        }
        k += 1;
    }
}

pub open spec fn is_digit(c: char) -> bool {
    '0' <= c && c <= '9'
}

pub open spec fn digit_val(c: char) -> int {
    c as int - '0' as int
}

pub open spec fn all_digits(s: Seq<char>) -> bool {
    forall|i: int| 0 <= i < s.len() ==> is_digit(#[trigger] s[i])
}

/// The number the digit run denotes, most significant digit first.
pub open spec fn digits_val(s: Seq<char>) -> int
    decreases s.len(),
{
    if s.len() == 0 {
        0
    } else {
        digits_val(s.drop_last()) * 10 + digit_val(s.last())
    }
}

pub proof fn lemma_digits_val_nonneg(s: Seq<char>)
    requires
        all_digits(s),
    ensures
        digits_val(s) >= 0,
    decreases s.len(),
{
    if s.len() > 0 {
        assert(all_digits(s.drop_last()));
        lemma_digits_val_nonneg(s.drop_last());
    }
}

/// Extending a digit run to the right never makes its value smaller.
pub proof fn lemma_digits_val_take_le(s: Seq<char>, i: int)
    requires
        all_digits(s),
        0 <= i <= s.len(),
    ensures
        digits_val(s.take(i)) <= digits_val(s),
    decreases s.len() - i,
{
    assert(all_digits(s.take(i)));
    if i < s.len() {
        lemma_digits_val_take_le(s, i + 1);
        assert(s.take(i + 1).drop_last() =~= s.take(i));
        lemma_digits_val_nonneg(s.take(i));
    } else {
        assert(s.take(i) =~= s);
    }
}

/// Largest cap `parse_digits_capped` accepts; far above every use.
pub open spec fn digit_cap_limit() -> int {
    0x1000_0000_0000_0000_0000_0000_0000
}

/// Value of a run of decimal digits, refused above `cap`.
pub(crate) fn parse_digits_capped(t: &[char], cap: u128) -> (r: Option<u128>)
    requires
        cap as int <= digit_cap_limit(),
    ensures
        r is Some <==> (t@.len() > 0 && all_digits(t@) && digits_val(t@) <= cap as int),
        r is Some ==> r->0 as int == digits_val(t@),
{
    let n = t.len();
    if n == 0 {
        return None;
    }
    let mut acc: u128 = 0;
    let mut i: usize = 0;
    while i < n
        invariant
            i <= n,
            n == t@.len(),
            cap as int <= digit_cap_limit(),
            all_digits(t@.take(i as int)),
            acc as int == digits_val(t@.take(i as int)),
            acc <= cap,
        decreases n - i,
    {
        let c = *slice_index_get(t, i);
        if c < '0' || c > '9' {
            return None;
        }
        let d: u128 = (c as u32 - 48) as u128;
        proof {
            assert(t@.take(i + 1 as int).drop_last() =~= t@.take(i as int));
            assert(all_digits(t@.take(i + 1 as int)));
        }
        let next: u128 = acc * 10 + d;
        if next > cap {
            proof {
                if all_digits(t@) {
                    lemma_digits_val_take_le(t@, i + 1);
                    assert(t@.take(t@.len() as int) =~= t@);
                }
            }
            return None;
        }
        acc = next;
        i += 1;
    }
    proof {
        assert(t@.take(n as int) =~= t@);
    }
    Some(acc)
}

/// What `str::parse::<usize>` yields on the token: an optional plus sign,
/// then at least one digit, value at most `max`.
pub open spec fn spec_parse_uint(s: Seq<char>, max: int) -> Option<int> {
    let d = if s.len() > 0 && s[0] == '+' {
        s.drop_first()
    } else {
        s
    };
    if d.len() > 0 && all_digits(d) && digits_val(d) <= max {
        Some(digits_val(d))
    } else {
        None
    }
}

/// Parses an unsigned decimal count, as `str::parse::<usize>` does.
pub fn parse_usize(t: &[char]) -> (r: Option<usize>)
    ensures
        r is Some <==> spec_parse_uint(t@, usize::MAX as int) is Some,
        r is Some ==> r->0 as int == spec_parse_uint(t@, usize::MAX as int)->0,
{
    let digits: &[char] = if t.len() > 0 && *slice_index_get(t, 0) == '+' {
        proof {
            assert(t@.subrange(1, t@.len() as int) =~= t@.drop_first());
        }
        slice_subrange(t, 1, t.len())
    } else {
        t
    };
    match parse_digits_capped(digits, usize::MAX as u128) {
        Some(v) => Some(v as usize),
        None => None,
    }
}

/// What `str::parse::<i32>` yields on the token: an optional sign, then at
/// least one digit, within the `i32` range.
pub open spec fn spec_parse_i32(s: Seq<char>) -> Option<int> {
    let neg = s.len() > 0 && s[0] == '-';
    let d = if s.len() > 0 && (s[0] == '+' || s[0] == '-') {
        s.drop_first()
    } else {
        s
    };
    if d.len() > 0 && all_digits(d) {
        let v = if neg {
            -digits_val(d)
        } else {
            digits_val(d)
        };
        if i32::MIN <= v <= i32::MAX {
            Some(v)
        } else {
            None
        }
    } else {
        None
    }
}

/// Parses a signed decimal integer, as `str::parse::<i32>` does.
pub fn parse_i32(t: &[char]) -> (r: Option<i32>)
    ensures
        r is Some <==> spec_parse_i32(t@) is Some,
        r is Some ==> r->0 as int == spec_parse_i32(t@)->0,
{
    let mut neg = false;
    let digits: &[char] = if t.len() > 0 && (*slice_index_get(t, 0) == '+' || *slice_index_get(
        t,
        0,
    ) == '-') {
        neg = *slice_index_get(t, 0) == '-';
        proof {
            assert(t@.subrange(1, t@.len() as int) =~= t@.drop_first());
        }
        slice_subrange(t, 1, t.len())
    } else {
        t
    };
    match parse_digits_capped(digits, 0x8000_0000u128) {
        Some(v) => {
            if neg {
                if v > 0x8000_0000u128 {
                    None
                } else {
                    let w: i64 = -(v as i64);
                    proof {
                        assert(i32::MIN <= w <= i32::MAX);
                    }
                    Some(w as i32)
                }
            } else {
                if v > 0x7FFF_FFFFu128 {
                    None
                } else {
                    Some(v as i32)
                }
            }
        },
        None => None,
    }
}

/// The decimal digits of `n`, most significant first.
pub open spec fn spec_digits(n: int) -> Seq<char>
    decreases n,
{
    if n < 10 {
        seq![((48 + if n >= 0 { n } else { 0 }) as u8) as char]
    } else {
        spec_digits(n / 10) + seq![((48 + n % 10) as u8) as char]
    }
}

/// Renders a count in decimal, as formatting it would.
pub fn digits_string(n: usize) -> (r: String)
    ensures
        r@ == spec_digits(n as int),
    decreases n,
{
    if n < 10 {
        let mut s = String::new();
        s.push((48 + n as u8) as char);
        proof {
            assert(s@ =~= spec_digits(n as int));
        }
        s
    } else {
        let mut s = digits_string(n / 10);
        s.push((48 + (n % 10) as u8) as char);
        proof {
            assert(s@ =~= spec_digits(n as int));
        }
        s
    }
}

/// Whether the string and the characters agree exactly.
pub fn str_eq_chars(s: &str, cs: &[char]) -> (r: bool)
    ensures
        r == (s@ == cs@),
{
    let n = s.unicode_len();
    if n != cs.len() {
        return false;
    }
    let mut i: usize = 0;
    while i < n
        invariant
            i <= n,
            n == s@.len(),
            n == cs@.len(),
            forall|p: int| 0 <= p < i ==> s@[p] == cs@[p],
        decreases n - i,
    {
        if s.get_char(i) != cs[i] {
            return false;
        }
        i += 1;
    }
    proof {
        assert(s@ =~= cs@);
    }
    true
}

/// Whether `needle` occurs at exactly position `k` of `hay`.
fn match_at(hay: &[char], k: usize, needle: &[char]) -> (r: bool)
    requires
        k + needle@.len() <= hay@.len(),
    ensures
        r == (hay@.subrange(k as int, k + needle@.len()) == needle@),
{
    let m = needle.len();
    let h = hay.len();
    let mut t: usize = 0;
    while t < m
        invariant
            m == needle@.len(),
            h == hay@.len(),
            k + m <= h,
            t <= m,
            forall|p: int| 0 <= p < t ==> hay@[k + p] == needle@[p],
        decreases m - t,
    {
        if *slice_index_get(hay, k + t) != *slice_index_get(needle, t) {
            proof {
                assert(hay@.subrange(k as int, k + needle@.len())[t as int] == hay@[k + t]);
            }
            return false;
        }
        t += 1;
    }
    proof {
        assert(hay@.subrange(k as int, k + needle@.len()) =~= needle@);
    }
    true
}

} // verus!
