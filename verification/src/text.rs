//! Character-level text utilities: decimal digits, whole-string parsers for
//! the scalar field kinds, string comparison, and case-insensitive substring
//! search. Everything here is verified against character-sequence models.

use vstd::prelude::*;

verus! {

/// A decimal digit, `'0'` through `'9'`.
pub open spec fn is_digit(c: char) -> bool {
    48 <= (c as u32) && (c as u32) <= 57
}

/// Numeric value of a decimal digit character.
pub open spec fn digit_val(c: char) -> nat {
    ((c as u32) - 48) as nat
}

/// The digit character for a value below ten.
pub open spec fn digit_char(d: nat) -> char {
    ((d + 48) as u8) as char
}

/// Every character of `s` is a decimal digit.
pub open spec fn all_digits(s: Seq<char>) -> bool {
    forall|i: int| 0 <= i < s.len() ==> is_digit(#[trigger] s[i])
}

/// The number denoted by a digit sequence, most significant digit first.
pub open spec fn digits_val(s: Seq<char>) -> nat
    decreases s.len(),
{
    if s.len() == 0 {
        0
    } else {
        digits_val(s.drop_last()) * 10 + digit_val(s.last())
    }
}

/// The canonical decimal rendering of a number: no leading zero except for
/// the number zero itself.
pub open spec fn dec_digits(n: nat) -> Seq<char>
    decreases n,
{
    if n < 10 {
        seq![digit_char(n)]
    } else {
        dec_digits(n / 10).push(digit_char(n % 10))
    }
}

pub proof fn lemma_dec_digits_wf(n: nat)
    ensures
        dec_digits(n).len() >= 1,
        all_digits(dec_digits(n)),
        digits_val(dec_digits(n)) == n,
    decreases n,
{
    if n < 10 {
        assert(dec_digits(n) =~= seq![digit_char(n)]);
        assert(seq![digit_char(n)].drop_last() =~= Seq::<char>::empty());
        assert(digits_val(Seq::<char>::empty()) == 0);
        assert(digit_val(digit_char(n)) == n);
    } else {
        lemma_dec_digits_wf(n / 10);
        let s = dec_digits(n);
        assert(s.drop_last() =~= dec_digits(n / 10));
        assert(digits_val(s) == digits_val(dec_digits(n / 10)) * 10 + digit_val(digit_char(n % 10)));
        assert(forall|i: int| 0 <= i < s.len() ==> is_digit(#[trigger] s[i])) by {
            assert(forall|i: int|
                0 <= i < s.len() - 1 ==> s[i] == #[trigger] dec_digits(n / 10)[i]);
        }
    }
}

/// Parsing a digit string: defined whenever the string is non-empty and all
/// digits and the value fits in a `u64`.
pub open spec fn spec_parse_u64(s: Seq<char>) -> Option<u64> {
    if s.len() > 0 && all_digits(s) && digits_val(s) <= u64::MAX {
        Some(digits_val(s) as u64)
    } else {
        None
    }
}

/// Appending one more digit can only grow the denoted value.
proof fn lemma_digits_val_push(s: Seq<char>, c: char)
    ensures
        digits_val(s.push(c)) == digits_val(s) * 10 + digit_val(c),
{
    assert(s.push(c).drop_last() =~= s);
    assert(s.push(c).last() == c);
}

/// Render a number in decimal.
pub fn format_u64(n: u64) -> (r: Vec<char>)
    ensures
        r@ == dec_digits(n as nat),
    decreases n,
{
    if n < 10 {
        let c: char = ((n as u8) + 48) as char;
        let mut r: Vec<char> = Vec::new();
        r.push(c);
        assert(r@ =~= dec_digits(n as nat));
        r
    } else {
        let mut r = format_u64(n / 10);
        let c: char = (((n % 10) as u8) + 48) as char;
        r.push(c);
        assert(r@ =~= dec_digits(n as nat));
        r
    }
}

/// Parse the characters from `start` on as a `u64`, rejecting empty input,
/// non-digits, and overflow, exactly as `spec_parse_u64` says.
pub fn parse_u64_from(s: &[char], start: usize) -> (r: Option<u64>)
    requires
        start <= s@.len(),
    ensures
        r == spec_parse_u64(s@.subrange(start as int, s@.len() as int)),
{
    let ghost t = s@.subrange(start as int, s@.len() as int);
    if start >= s.len() {
        return None;
    }
    let mut acc: u64 = 0;
    let mut i: usize = start;
    while i < s.len()
        invariant
            start <= i <= s@.len(),
            t == s@.subrange(start as int, s@.len() as int),
            all_digits(t.subrange(0, i - start)),
            acc == digits_val(t.subrange(0, i - start)),
        decreases s@.len() - i,
    {
        let c = s[i];
        let u = c as u32;
        proof {
            assert(t[i - start] == s@[i as int]);
        }
        if !(48 <= u && u <= 57) {
            assert(!all_digits(t));
            return None;
        }
        let d: u64 = (u - 48) as u64;
        proof {
            lemma_digits_val_push(t.subrange(0, i - start), c);
            assert(t.subrange(0, i - start + 1) =~= t.subrange(0, i - start).push(c));
        }
        if acc > (u64::MAX - d) / 10 {
            proof {
                lemma_digits_prefix_bound(t, i - start + 1);
                assert(digits_val(t) > u64::MAX);
            }
            return None;
        }
        acc = acc * 10 + d;
        i = i + 1;
    }
    proof {
        assert(t.subrange(0, t.len() as int) =~= t);
    }
    Some(acc)
}

/// Parse a whole character slice as a `u64`.
pub fn parse_u64_chars(s: &[char]) -> (r: Option<u64>)
    ensures
        r == spec_parse_u64(s@),
{
    let r = parse_u64_from(s, 0);
    assert(s@.subrange(0, s@.len() as int) =~= s@);
    r
}

/// The value of a digit string is at least the value of any of its prefixes.
pub proof fn lemma_digits_prefix_bound(s: Seq<char>, k: int)
    requires
        0 <= k <= s.len(),
    ensures
        digits_val(s) >= digits_val(s.subrange(0, k)),
    decreases s.len() - k,
{
    if k < s.len() {
        lemma_digits_prefix_bound(s, k + 1);
        let p = s.subrange(0, k);
        let q = s.subrange(0, k + 1);
        assert(q.drop_last() =~= p);
        assert(digits_val(q) == digits_val(p) * 10 + digit_val(q.last()));
    } else {
        assert(s.subrange(0, k) =~= s);
    }
}

/// The signed decimal rendering of an `i32`.
pub open spec fn dec_digits_i32(n: i32) -> Seq<char> {
    if n < 0 {
        seq!['-'] + dec_digits((-(n as int)) as nat)
    } else {
        dec_digits(n as nat)
    }
}

/// Parsing a signed decimal string as an `i32`: an optional leading minus
/// sign, then digits; the value must be in range.
pub open spec fn spec_parse_i32(s: Seq<char>) -> Option<i32> {
    if s.len() > 0 && s[0] == '-' {
        let t = s.subrange(1, s.len() as int);
        if t.len() > 0 && all_digits(t) && digits_val(t) <= 0x8000_0000 {
            Some((-(digits_val(t) as int)) as i32)
        } else {
            None
        }
    } else {
        if s.len() > 0 && all_digits(s) && digits_val(s) <= 0x7fff_ffff {
            Some(digits_val(s) as i32)
        } else {
            None
        }
    }
}

/// Rendering then parsing an `i32` gives the value back.
pub proof fn lemma_i32_round_trip(n: i32)
    ensures
        spec_parse_i32(dec_digits_i32(n)) == Some(n),
{
    if n < 0 {
        let m = (-(n as int)) as nat;
        lemma_dec_digits_wf(m);
        let s = dec_digits_i32(n);
        assert(s.subrange(1, s.len() as int) =~= dec_digits(m));
    } else {
        lemma_dec_digits_wf(n as nat);
        let s = dec_digits_i32(n);
        assert(is_digit(s[0]));
        assert(s[0] != '-') by {
            assert(('-' as u32) == 45);
        }
    }
}

/// Render an `i32` in signed decimal.
pub fn format_i32(n: i32) -> (r: Vec<char>)
    ensures
        r@ == dec_digits_i32(n),
{
    if n < 0 {
        let mag: u64 = (-(n as i64)) as u64;
        let digits = format_u64(mag);
        let mut r: Vec<char> = Vec::new();
        r.push('-');
        let mut i: usize = 0;
        while i < digits.len()
            invariant
                0 <= i <= digits@.len(),
                digits@ == dec_digits(mag as nat),
                r@ == seq!['-'] + digits@.subrange(0, i as int),
            decreases digits@.len() - i,
        {
            r.push(digits[i]);
            assert(r@ =~= seq!['-'] + digits@.subrange(0, i + 1));
            i = i + 1;
        }
        assert(digits@.subrange(0, digits@.len() as int) =~= digits@);
        r
    } else {
        format_u64(n as u64)
    }
}

/// Parse a whole character slice as an `i32`, exactly as `spec_parse_i32`.
pub fn parse_i32_chars(s: &[char]) -> (r: Option<i32>)
    ensures
        r == spec_parse_i32(s@),
{
    if s.len() > 0 && s[0] == '-' {
        match parse_u64_from(s, 1) {
            Some(v) if v <= 0x8000_0000 => Some((-(v as i64)) as i32),
            _ => {
                proof {
                    let t = s@.subrange(1, s@.len() as int);
                    if t.len() > 0 && all_digits(t) && digits_val(t) <= 0x8000_0000 {
                        assert(spec_parse_u64(t) == Some(digits_val(t) as u64));
                    }
                }
                None
            },
        }
    } else {
        match parse_u64_chars(s) {
            Some(v) if v <= 0x7fff_ffff => Some(v as i32),
            _ => {
                proof {
                    if s@.len() > 0 && all_digits(s@) && digits_val(s@) <= 0x7fff_ffff {
                        assert(spec_parse_u64(s@) == Some(digits_val(s@) as u64));
                    }
                }
                None
            },
        }
    }
}

/// Parsing a whole character slice as a `usize` (the unsigned size kind).
pub open spec fn spec_parse_usize(s: Seq<char>) -> Option<usize> {
    if s.len() > 0 && all_digits(s) && digits_val(s) <= usize::MAX {
        Some(digits_val(s) as usize)
    } else {
        None
    }
}

/// Rendering then parsing a `usize` gives the value back.
pub proof fn lemma_usize_round_trip(n: usize)
    ensures
        spec_parse_usize(dec_digits(n as nat)) == Some(n),
{
    lemma_dec_digits_wf(n as nat);
}

/// Parse a whole character slice as a `usize`.
pub fn parse_usize_chars(s: &[char]) -> (r: Option<usize>)
    ensures
        r == spec_parse_usize(s@),
{
    match parse_u64_chars(s) {
        Some(v) => {
            if v <= (usize::MAX as u64) {
                Some(v as usize)
            } else {
                None
            }
        },
        None => None,
    }
}

/// How many characters of `s` equal `c`.
pub open spec fn count_char(s: Seq<char>, c: char) -> nat
    decreases s.len(),
{
    if s.len() == 0 {
        0
    } else {
        count_char(s.drop_last(), c) + if s.last() == c {
            1nat
        } else {
            0nat
        }
    }
}

proof fn lemma_count_char_push(s: Seq<char>, c: char, x: char)
    ensures
        count_char(s.push(x), c) == count_char(s, c) + if x == c {
            1nat
        } else {
            0nat
        },
{
    assert(s.push(x).drop_last() =~= s);
}

/// The digits-and-dot part of a float literal: non-empty, only digits and
/// at most one decimal point, and at least one digit.
pub open spec fn float_body_ok(t: Seq<char>) -> bool {
    &&& t.len() > 0
    &&& forall|i: int| 0 <= i < t.len() ==> is_digit(#[trigger] t[i]) || t[i] == '.'
    &&& count_char(t, '.') <= 1
    &&& exists|i: int| 0 <= i < t.len() && is_digit(#[trigger] t[i])
}

/// The textual form the library accepts for a floating-point field: an
/// optional minus sign, then digit characters with at most one decimal
/// point and at least one digit. This is deliberately narrower than the
/// platform's float parsing — exponent forms, infinity and not-a-number
/// words, and a leading plus sign are rejected — because floating-point
/// values themselves never enter verified code; a float-kind field holds
/// its validated literal.
pub open spec fn is_float_literal(s: Seq<char>) -> bool {
    if s.len() > 0 && s[0] == '-' {
        float_body_ok(s.subrange(1, s.len() as int))
    } else {
        float_body_ok(s)
    }
}

/// Check the float-literal grammar over the characters after any sign.
fn check_float_body(s: &[char], start: usize) -> (r: bool)
    requires
        start <= s@.len(),
    ensures
        r == float_body_ok(s@.subrange(start as int, s@.len() as int)),
{
    let ghost t = s@.subrange(start as int, s@.len() as int);
    if start >= s.len() {
        return false;
    }
    let mut dots: u64 = 0;
    let mut saw_digit: bool = false;
    let mut i: usize = start;
    while i < s.len()
        invariant
            start <= i <= s@.len(),
            t == s@.subrange(start as int, s@.len() as int),
            dots == count_char(t.subrange(0, i - start), '.'),
            dots <= i,
            saw_digit == exists|j: int| 0 <= j < i - start && is_digit(#[trigger] t[j]),
            forall|j: int| 0 <= j < i - start ==> is_digit(#[trigger] t[j]) || t[j] == '.',
        decreases s@.len() - i,
    {
        let c = s[i];
        proof {
            assert(t[i - start] == s@[i as int]);
            lemma_count_char_push(t.subrange(0, i - start), '.', c);
            assert(t.subrange(0, i - start + 1) =~= t.subrange(0, i - start).push(c));
        }
        if c == '.' {
            dots = dots + 1;
        } else {
            let u = c as u32;
            if 48 <= u && u <= 57 {
                saw_digit = true;
            } else {
                assert(!(is_digit(t[i - start]) || t[i - start] == '.'));
                return false;
            }
        }
        i = i + 1;
    }
    proof {
        assert(t.subrange(0, i - start) =~= t);
    }
    dots <= 1 && saw_digit
}

/// Check whether a character slice is an acceptable float literal.
pub fn is_float_literal_chars(s: &[char]) -> (r: bool)
    ensures
        r == is_float_literal(s@),
{
    if s.len() > 0 && s[0] == '-' {
        check_float_body(s, 1)
    } else {
        let r = check_float_body(s, 0);
        assert(s@.subrange(0, s@.len() as int) =~= s@);
        r
    }
}

/// Equality of two string slices, decided character by character.
pub fn str_eq(a: &str, b: &str) -> (r: bool)
    ensures
        r == (a@ == b@),
{
    let la = a.unicode_len();
    let lb = b.unicode_len();
    if la != lb {
        assert(a@ != b@);
        return false;
    }
    let mut i: usize = 0;
    while i < la
        invariant
            0 <= i <= la,
            la == a@.len(),
            la == b@.len(),
            forall|j: int| 0 <= j < i ==> a@[j] == b@[j],
        decreases la - i,
    {
        if a.get_char(i) != b.get_char(i) {
            return false;
        }
        i = i + 1;
    }
    proof {
        assert(a@ =~= b@);
    }
    true
}

/// The characters of a string slice, as a vector.
pub fn str_to_chars(s: &str) -> (r: Vec<char>)
    ensures
        r@ == s@,
{
    let n = s.unicode_len();
    let mut r: Vec<char> = Vec::new();
    let mut i: usize = 0;
    while i < n
        invariant
            0 <= i <= n,
            n == s@.len(),
            r@ == s@.subrange(0, i as int),
        decreases n - i,
    {
        r.push(s.get_char(i));
        assert(r@ =~= s@.subrange(0, i + 1));
        i = i + 1;
    }
    assert(r@ =~= s@);
    r
}

/// Relies on `String::from_iter` (via `Iterator::collect`): the returned
/// string holds exactly the given characters, in order.
#[verifier::external_body]
pub fn chars_to_string(v: &Vec<char>) -> (r: String)
    ensures
        r@ == v@,
{
    v.iter().copied().collect()
}

/// ASCII lowercase of one character; other characters are untouched.
pub open spec fn lower_char(c: char) -> char {
    if 65 <= (c as u32) && (c as u32) <= 90 {
        (((c as u32) + 32) as u8) as char
    } else {
        c
    }
}

/// ASCII lowercase of a character sequence.
pub open spec fn lower_seq(s: Seq<char>) -> Seq<char> {
    s.map_values(|c: char| lower_char(c))
}

/// Lower-case a character vector in ASCII.
pub fn to_lower_chars(s: &[char]) -> (r: Vec<char>)
    ensures
        r@ == lower_seq(s@),
{
    let mut r: Vec<char> = Vec::new();
    let mut i: usize = 0;
    while i < s.len()
        invariant
            0 <= i <= s@.len(),
            r@ == lower_seq(s@.subrange(0, i as int)),
        decreases s@.len() - i,
    {
        let c = s[i];
        let u = c as u32;
        let lc: char = if 65 <= u && u <= 90 {
            ((u + 32) as u8) as char
        } else {
            c
        };
        r.push(lc);
        assert(r@ =~= lower_seq(s@.subrange(0, i + 1))) by {
            assert(s@.subrange(0, i + 1) =~= s@.subrange(0, i as int).push(c));
            assert(lower_seq(s@.subrange(0, i as int).push(c)) =~= lower_seq(
                s@.subrange(0, i as int),
            ).push(lower_char(c)));
        }
        i = i + 1;
    }
    assert(s@.subrange(0, s@.len() as int) =~= s@);
    r
}

/// `needle` occurs contiguously inside `hay`.
pub open spec fn contains_seq(hay: Seq<char>, needle: Seq<char>) -> bool {
    exists|i: int|
        0 <= i && i + needle.len() <= hay.len() && #[trigger] hay.subrange(i, i + needle.len())
            == needle
}

/// `needle` occurs in `hay` exactly at position `i`.
fn matches_at(hay: &[char], needle: &[char], i: usize) -> (r: bool)
    requires
        i + needle@.len() <= hay@.len(),
        hay@.len() <= usize::MAX,
    ensures
        r == (hay@.subrange(i as int, i + needle@.len()) == needle@),
{
    let ghost w = hay@.subrange(i as int, i + needle@.len());
    let mut j: usize = 0;
    while j < needle.len()
        invariant
            0 <= j <= needle@.len(),
            i + needle@.len() <= hay@.len(),
            hay@.len() <= usize::MAX,
            w == hay@.subrange(i as int, i + needle@.len()),
            forall|m: int| 0 <= m < j ==> hay@[i + m] == needle@[m],
        decreases needle@.len() - j,
    {
        if hay[i + j] != needle[j] {
            assert(w[j as int] == hay@[i + j]);
            assert(w != needle@);
            return false;
        }
        j = j + 1;
    }
    assert(w =~= needle@);
    true
}

/// Decide contiguous containment by trying every start position.
pub fn contains_chars(hay: &[char], needle: &[char]) -> (r: bool)
    ensures
        r == contains_seq(hay@, needle@),
{
    if needle.len() > hay.len() {
        assert(!contains_seq(hay@, needle@));
        return false;
    }
    if needle.len() == 0 {
        assert(contains_seq(hay@, needle@)) by {
            assert(hay@.subrange(0, 0 + needle@.len() as int) =~= needle@);
        }
        return true;
    }
    let last = hay.len() - needle.len();
    let mut i: usize = 0;
    while i <= last
        invariant
            0 <= i,
            1 <= needle@.len() <= hay@.len(),
            hay@.len() <= usize::MAX,
            last == hay@.len() - needle@.len(),
            forall|k: int|
                0 <= k < i ==> #[trigger] hay@.subrange(k, k + needle@.len()) != needle@,
        decreases last + 1 - i,
    {
        if matches_at(hay, needle, i) {
            return true;
        }
        i = i + 1;
    }
    assert(forall|k: int|
        0 <= k && k + needle@.len() <= hay@.len() ==> #[trigger] hay@.subrange(
            k,
            k + needle@.len(),
        ) != needle@);
    false
}

/// A string with one character appended.
pub fn string_push_char(s: &str, c: char) -> (r: String)
    ensures
        r@ == s@.push(c),
{
    let mut one: Vec<char> = Vec::new();
    one.push(c);
    let tail = chars_to_string(&one);
    let mut whole = s.to_owned();
    whole.append(tail.as_str());
    proof {
        assert(whole@ =~= s@.push(c));
    }
    whole
}

/// A string without its last character (an empty one stays empty).
pub fn string_drop_last(s: &str) -> (r: String)
    ensures
        s@.len() == 0 ==> r@ == s@,
        s@.len() > 0 ==> r@ == s@.drop_last(),
{
    let chars = str_to_chars(s);
    if chars.len() == 0 {
        return s.to_owned();
    }
    let mut shorter: Vec<char> = Vec::new();
    let n = chars.len() - 1;
    let mut i: usize = 0;
    while i < n
        invariant
            0 <= i <= n,
            n == chars@.len() - 1,
            chars@ == s@,
            shorter@ == chars@.subrange(0, i as int),
        decreases n - i,
    {
        shorter.push(chars[i]);
        assert(shorter@ =~= chars@.subrange(0, i + 1));
        i = i + 1;
    }
    proof {
        assert(chars@.subrange(0, chars@.len() - 1) =~= s@.drop_last());
    }
    chars_to_string(&shorter)
}

} // verus!
