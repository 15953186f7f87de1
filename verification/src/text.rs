//! Small verified text utilities: trimming, searching, reading
//! unsigned and signed decimal numbers, and printing numbers.
//!
//! Numbers read from rule text are clamped far above any value that
//! can name a month, a day or an in-range day offset, so callers can
//! state their contracts over the exact mathematical value.

use vstd::prelude::*;
use crate::date::MAX_DAY_NUMBER;

verus! {

/// Whitespace recognised when trimming rule lines.
pub open spec fn is_space_char(c: char) -> bool {
    c == ' ' || c == '\t' || c == '\r' || c == '\n'
}

/// Decimal digit.
pub open spec fn is_digit_char(c: char) -> bool {
    48 <= c as u32 <= 57
}

/// The input without its leading whitespace.
pub open spec fn trim_front_spec(s: Seq<char>) -> Seq<char>
    decreases s.len(),
{
    if s.len() > 0 && is_space_char(s[0]) {
        trim_front_spec(s.drop_first())
    } else {
        s
    }
}

/// The input without its trailing whitespace.
pub open spec fn trim_back_spec(s: Seq<char>) -> Seq<char>
    decreases s.len(),
{
    if s.len() > 0 && is_space_char(s.last()) {
        trim_back_spec(s.drop_last())
    } else {
        s
    }
}

/// The input without leading and trailing whitespace.
pub open spec fn trim_spec(s: Seq<char>) -> Seq<char> {
    trim_back_spec(trim_front_spec(s))
}

fn is_space(c: char) -> (r: bool)
    ensures
        r == is_space_char(c),
{
    c == ' ' || c == '\t' || c == '\r' || c == '\n'
}

/// Whether `c` is a decimal digit.
pub fn is_digit(c: char) -> (r: bool)
    ensures
        r == is_digit_char(c),
{
    let u = c as u32;
    48 <= u && u <= 57
}

/// Trims leading and trailing whitespace.
pub fn trim_str<'a>(s: &'a str) -> (r: &'a str)
    ensures
        r@ == trim_spec(s@),
{
    let len = s.unicode_len();
    proof {
        assert(s@ =~= s@.subrange(0, len as int));
    }
    let mut lo: usize = 0;
    while lo < len && is_space(s.get_char(lo))
        invariant
            lo <= len,
            len == s@.len(),
            trim_front_spec(s@) == trim_front_spec(s@.subrange(lo as int, len as int)),
        decreases len - lo,
    {
        proof {
            assert(s@.subrange(lo as int, len as int).drop_first() =~= s@.subrange(
                lo as int + 1,
                len as int,
            ));
        }
        lo = lo + 1;
    }
    proof {
        assert(trim_front_spec(s@) =~= s@.subrange(lo as int, len as int));
    }
    let mut hi: usize = len;
    while hi > lo && is_space(s.get_char(hi - 1))
        invariant
            lo <= hi <= len,
            len == s@.len(),
            trim_front_spec(s@) == s@.subrange(lo as int, len as int),
            trim_spec(s@) == trim_back_spec(s@.subrange(lo as int, hi as int)),
        decreases hi,
    {
        proof {
            assert(s@.subrange(lo as int, hi as int).drop_last() =~= s@.subrange(
                lo as int,
                hi as int - 1,
            ));
        }
        hi = hi - 1;
    }
    proof {
        assert(trim_spec(s@) =~= s@.subrange(lo as int, hi as int));
    }
    s.substring_char(lo, hi)
}

/// Index of the first occurrence of `c` in `s`, if any.
pub fn find_char(s: &str, c: char) -> (r: Option<usize>)
    ensures
        match r {
            Some(i) => i < s@.len() && s@[i as int] == c && (forall|j: int|
                0 <= j < i ==> s@[j] != c),
            None => forall|j: int| 0 <= j < s@.len() ==> s@[j] != c,
        },
{
    let len = s.unicode_len();
    let mut i: usize = 0;
    while i < len
        invariant
            i <= len,
            len == s@.len(),
            forall|j: int| 0 <= j < i ==> s@[j] != c,
        decreases len - i,
    {
        if s.get_char(i) == c {
            return Some(i);
        }
        i = i + 1;
    }
    None
}

/// Index of the first occurrence of `c` in `s`, or `-1`.
pub open spec fn find_idx(s: Seq<char>, c: char) -> int
    decreases s.len(),
{
    if s.len() == 0 {
        -1
    } else if s[0] == c {
        0
    } else {
        let r = find_idx(s.drop_first(), c);
        if r < 0 {
            -1
        } else {
            r + 1
        }
    }
}

/// `find_idx` names the first occurrence, when there is one.
pub proof fn lemma_find_idx(s: Seq<char>, c: char)
    ensures
        find_idx(s, c) >= -1,
        find_idx(s, c) == -1 ==> forall|j: int| 0 <= j < s.len() ==> s[j] != c,
        find_idx(s, c) >= 0 ==> find_idx(s, c) < s.len() && s[find_idx(s, c)] == c && forall|
            j: int,
        | 0 <= j < find_idx(s, c) ==> s[j] != c,
    decreases s.len(),
{
    if s.len() > 0 && s[0] != c {
        lemma_find_idx(s.drop_first(), c);
        let r = find_idx(s.drop_first(), c);
        if r == -1 {
            assert forall|j: int| 0 <= j < s.len() implies s[j] != c by {
                if j >= 1 {
                    assert(s.drop_first()[j - 1] == s[j]);
                }
            }
        } else {
            assert(s[r + 1] == s.drop_first()[r]);
            assert forall|j: int| 0 <= j < r + 1 implies s[j] != c by {
                if j >= 1 {
                    assert(s.drop_first()[j - 1] == s[j]);
                }
            }
        }
    }
}

/// Index of the first occurrence of `c`, agreeing with `find_idx`.
pub fn find_char_idx(s: &str, c: char) -> (r: Option<usize>)
    ensures
        r is Some <==> find_idx(s@, c) >= 0,
        r is Some ==> r.unwrap() == find_idx(s@, c) && r.unwrap() < s@.len() && s@[r.unwrap() as int]
            == c,
{
    proof {
        lemma_find_idx(s@, c);
    }
    match find_char(s, c) {
        Some(i) => {
            proof {
                let fi = find_idx(s@, c);
                assert(s@[i as int] == c);
                assert(fi >= 0);
                assert(fi == i);
            }
            Some(i)
        },
        None => None,
    }
}

/// Index of the first whitespace character, or `-1`.
pub open spec fn find_space_idx(s: Seq<char>) -> int
    decreases s.len(),
{
    if s.len() == 0 {
        -1
    } else if is_space_char(s[0]) {
        0
    } else {
        let r = find_space_idx(s.drop_first());
        if r < 0 {
            -1
        } else {
            r + 1
        }
    }
}

/// Index of the first whitespace character, agreeing with
/// `find_space_idx`.
pub fn find_space(s: &str) -> (r: Option<usize>)
    ensures
        r is Some <==> find_space_idx(s@) >= 0,
        r is Some ==> r.unwrap() == find_space_idx(s@) && r.unwrap() < s@.len(),
{
    let len = s.unicode_len();
    let mut i: usize = 0;
    while i < len
        invariant
            i <= len,
            len == s@.len(),
            find_space_idx(s@) >= 0 ==> find_space_idx(s@) >= i,
            forall|j: int| 0 <= j < i ==> !is_space_char(s@[j]),
        decreases len - i,
    {
        if is_space(s.get_char(i)) {
            proof {
                lemma_find_space_idx_at(s@, i as int);
            }
            return Some(i);
        }
        proof {
            lemma_find_space_idx_skip(s@, i as int + 1);
        }
        i = i + 1;
    }
    proof {
        lemma_find_space_idx_skip(s@, len as int);
    }
    None
}

/// A prefix without whitespace keeps the first whitespace where it is.
proof fn lemma_find_space_idx_at(s: Seq<char>, i: int)
    requires
        0 <= i < s.len(),
        is_space_char(s[i]),
        forall|j: int| 0 <= j < i ==> !is_space_char(s[j]),
    ensures
        find_space_idx(s) == i,
    decreases i,
{
    if i > 0 {
        lemma_find_space_idx_at(s.drop_first(), i - 1);
        assert(forall|j: int| 0 <= j < i - 1 ==> s.drop_first()[j] == s[j + 1]);
        assert(s.drop_first()[i - 1] == s[i]);
    }
}

/// With no whitespace in the first `i` characters, none is found
/// before `i`.
proof fn lemma_find_space_idx_skip(s: Seq<char>, i: int)
    requires
        0 <= i <= s.len(),
        forall|j: int| 0 <= j < i ==> !is_space_char(s[j]),
    ensures
        find_space_idx(s) == -1 || find_space_idx(s) >= i,
        i == s.len() && find_space_idx(s) >= 0 ==> false,
    decreases i,
{
    if i > 0 {
        lemma_find_space_idx_skip(s.drop_first(), i - 1);
        assert(forall|j: int| 0 <= j < s.len() - 1 ==> s.drop_first()[j] == s[j + 1]);
        if i == s.len() && find_space_idx(s) >= 0 {
            assert(find_space_idx(s.drop_first()) >= 0 ==> find_space_idx(s.drop_first()) >= i - 1);
        }
    }
}

/// Character-for-character string equality.
pub fn str_eq(a: &str, b: &str) -> (r: bool)
    ensures
        r == (a@ == b@),
{
    let la = a.unicode_len();
    let lb = b.unicode_len();
    if la != lb {
        return false;
    }
    let mut i: usize = 0;
    while i < la
        invariant
            i <= la,
            la == a@.len(),
            la == b@.len(),
            forall|j: int| 0 <= j < i ==> a@[j] == b@[j],
        decreases la - i,
    {
        if a.get_char(i) != b.get_char(i) {
            return false;
        }
        i = i + 1;
    }
    proof {
        assert(a@ =~= b@);
    }
    true
}

/// Whether the text is one or more decimal digits.
pub fn is_digits_str(s: &str) -> (r: bool)
    ensures
        r == is_digits(s@),
{
    let len = s.unicode_len();
    if len == 0 {
        return false;
    }
    let mut i: usize = 0;
    while i < len
        invariant
            i <= len,
            len == s@.len(),
            forall|j: int| 0 <= j < i ==> is_digit_char(s@[j]),
        decreases len - i,
    {
        if !is_digit(s.get_char(i)) {
            return false;
        }
        i = i + 1;
    }
    true
}

/// Digit strings of up to four digits keep small values.
pub proof fn lemma_digits_val_small(s: Seq<char>)
    requires
        forall|j: int| 0 <= j < s.len() ==> is_digit_char(s[j]),
    ensures
        s.len() <= 1 ==> digits_val(s) < 10,
        s.len() <= 2 ==> digits_val(s) < 100,
        s.len() <= 3 ==> digits_val(s) < 1000,
        s.len() <= 4 ==> digits_val(s) < 10000,
        digits_val(s) >= 0,
    decreases s.len(),
{
    if s.len() > 0 {
        lemma_digits_val_small(s.drop_last());
    }
}

/// Number of occurrences of `c` in `s`.
pub open spec fn count_char_spec(s: Seq<char>, c: char) -> int
    decreases s.len(),
{
    if s.len() == 0 {
        0
    } else {
        count_char_spec(s.drop_last(), c) + (if s.last() == c {
            1int
        } else {
            0int
        })
    }
}

/// A character is absent exactly when its count is zero.
pub proof fn lemma_count_char_zero(s: Seq<char>, c: char)
    ensures
        count_char_spec(s, c) == 0 <==> (forall|j: int| 0 <= j < s.len() ==> s[j] != c),
        count_char_spec(s, c) >= 0,
    decreases s.len(),
{
    if s.len() > 0 {
        lemma_count_char_zero(s.drop_last(), c);
        assert(forall|j: int| 0 <= j < s.len() - 1 ==> s.drop_last()[j] == s[j]);
    }
}

/// Counts the occurrences of `c` in `s`.
pub fn count_char(s: &str, c: char) -> (r: usize)
    ensures
        r == count_char_spec(s@, c),
{
    let len = s.unicode_len();
    let mut i: usize = 0;
    let mut n: usize = 0;
    proof {
        assert(s@.subrange(0, 0) =~= Seq::<char>::empty());
    }
    while i < len
        invariant
            i <= len,
            len == s@.len(),
            n <= i,
            n == count_char_spec(s@.subrange(0, i as int), c),
        decreases len - i,
    {
        proof {
            assert(s@.subrange(0, i as int + 1).drop_last() =~= s@.subrange(0, i as int));
        }
        if s.get_char(i) == c {
            n = n + 1;
        }
        i = i + 1;
    }
    proof {
        assert(s@.subrange(0, len as int) =~= s@);
    }
    n
}

/// One or more decimal digits.
pub open spec fn is_digits(s: Seq<char>) -> bool {
    s.len() >= 1 && forall|j: int| 0 <= j < s.len() ==> is_digit_char(s[j])
}

/// Value of a digit string read in base ten.
pub open spec fn digits_val(s: Seq<char>) -> int
    decreases s.len(),
{
    if s.len() == 0 {
        0
    } else {
        digits_val(s.drop_last()) * 10 + (s.last() as u32 - 48)
    }
}

/// An unsigned decimal number: digits with an optional leading `+`.
pub open spec fn uint_grammar(s: Seq<char>) -> bool {
    if s.len() >= 1 && s[0] == '+' {
        is_digits(s.drop_first())
    } else {
        is_digits(s)
    }
}

/// The digits of an unsigned decimal number.
pub open spec fn uint_digits(s: Seq<char>) -> Seq<char> {
    if s.len() >= 1 && s[0] == '+' {
        s.drop_first()
    } else {
        s
    }
}

/// Value of an unsigned decimal number.
pub open spec fn uint_value(s: Seq<char>) -> int {
    digits_val(uint_digits(s))
}

/// A signed decimal number: digits with an optional leading sign.
pub open spec fn sint_grammar(s: Seq<char>) -> bool {
    if s.len() >= 1 && (s[0] == '+' || s[0] == '-') {
        is_digits(s.drop_first())
    } else {
        is_digits(s)
    }
}

/// Value of a signed decimal number.
pub open spec fn sint_value(s: Seq<char>) -> int {
    if s.len() >= 1 && s[0] == '-' {
        -digits_val(s.drop_first())
    } else if s.len() >= 1 && s[0] == '+' {
        digits_val(s.drop_first())
    } else {
        digits_val(s)
    }
}

/// A digit string's value is never negative.
pub proof fn lemma_digits_val_nonneg(s: Seq<char>)
    requires
        forall|j: int| 0 <= j < s.len() ==> is_digit_char(s[j]),
    ensures
        digits_val(s) >= 0,
    decreases s.len(),
{
    if s.len() > 0 {
        lemma_digits_val_nonneg(s.drop_last());
    }
}

/// Reads digits starting at `start`, clamping the value at `cap`.
/// Returns `None` when the range is empty or holds a non-digit.
fn digits_clamped(s: &str, start: usize, cap: u64) -> (r: Option<u64>)
    requires
        start <= s@.len(),
        1 <= cap <= 0xffff_ffff,
    ensures
        r is Some <==> is_digits(s@.subrange(start as int, s@.len() as int)),
        r is Some ==> r.unwrap() == vstd::math::min(
            digits_val(s@.subrange(start as int, s@.len() as int)),
            cap as int,
        ),
{
    let len = s.unicode_len();
    if start >= len {
        return None;
    }
    let ghost whole = s@.subrange(start as int, len as int);
    let mut acc: u64 = 0;
    let mut i: usize = start;
    while i < len
        invariant
            start <= i <= len,
            len == s@.len(),
            whole == s@.subrange(start as int, len as int),
            acc == vstd::math::min(digits_val(s@.subrange(start as int, i as int)), cap as int),
            forall|j: int| start <= j < i ==> is_digit_char(s@[j]),
            1 <= cap <= 0xffff_ffff,
        decreases len - i,
    {
        let c = s.get_char(i);
        if !is_digit(c) {
            proof {
                assert(whole[i - start] == c);
                assert(!is_digits(whole));
            }
            return None;
        }
        let d: u64 = (c as u32 - 48) as u64;
        proof {
            assert(s@.subrange(start as int, i as int + 1).drop_last() =~= s@.subrange(
                start as int,
                i as int,
            ));
            lemma_digits_val_nonneg(s@.subrange(start as int, i as int));
        }
        let next = acc * 10 + d;
        acc = if next > cap {
            cap
        } else {
            next
        };
        i = i + 1;
    }
    proof {
        assert(s@.subrange(start as int, i as int) =~= whole);
        assert(forall|j: int| 0 <= j < whole.len() ==> whole[j] == s@[start + j]);
    }
    Some(acc)
}

/// Reads an unsigned decimal number (optional leading `+`), clamping
/// the value at `u32::MAX`; `None` exactly when the text is not an
/// unsigned decimal number.
pub fn parse_u32_clamped(s: &str) -> (r: Option<u32>)
    ensures
        r is Some <==> uint_grammar(s@),
        r is Some ==> r.unwrap() == vstd::math::min(uint_value(s@), 0xffff_ffffint),
{
    let len = s.unicode_len();
    let start: usize = if len >= 1 && s.get_char(0) == '+' {
        1
    } else {
        0
    };
    proof {
        if start == 1 {
            assert(s@.drop_first() =~= s@.subrange(1, s@.len() as int));
        } else {
            assert(s@ =~= s@.subrange(0, s@.len() as int));
        }
    }
    match digits_clamped(s, start, 0xffff_ffff) {
        Some(v) => Some(v as u32),
        None => None,
    }
}

/// Clamp bound for day offsets: one past the largest meaningful
/// distance in days, so clamped values stay out of range exactly when
/// the true value is.
pub const DAYS_CLAMP: i64 = 3652059;

/// Clamps a day offset: values beyond the representable timeline keep
/// only their sign and their out-of-range-ness.
pub open spec fn clamp_days(v: int) -> int {
    if v > MAX_DAY_NUMBER {
        MAX_DAY_NUMBER + 1
    } else if v < -MAX_DAY_NUMBER {
        -MAX_DAY_NUMBER - 1
    } else {
        v
    }
}

/// Reads a signed decimal day offset (optional leading sign), clamping
/// just past the representable timeline; `None` exactly when the text
/// is not a signed decimal number.
pub fn parse_days_offset(s: &str) -> (r: Option<i64>)
    ensures
        r is Some <==> sint_grammar(s@),
        r is Some ==> r.unwrap() == clamp_days(sint_value(s@)),
{
    let len = s.unicode_len();
    let neg = len >= 1 && s.get_char(0) == '-';
    let start: usize = if len >= 1 && (s.get_char(0) == '+' || s.get_char(0) == '-') {
        1
    } else {
        0
    };
    proof {
        if start == 1 {
            assert(s@.drop_first() =~= s@.subrange(1, s@.len() as int));
        } else {
            assert(s@ =~= s@.subrange(0, s@.len() as int));
        }
    }
    match digits_clamped(s, start, DAYS_CLAMP as u64) {
        Some(v) => {
            if neg {
                Some(-(v as i64))
            } else {
                Some(v as i64)
            }
        },
        None => None,
    }
}

/// Decimal digit character of a value in `0 .. 10`.
pub open spec fn digit_char(v: int) -> char {
    if v == 0 {
        '0'
    } else if v == 1 {
        '1'
    } else if v == 2 {
        '2'
    } else if v == 3 {
        '3'
    } else if v == 4 {
        '4'
    } else if v == 5 {
        '5'
    } else if v == 6 {
        '6'
    } else if v == 7 {
        '7'
    } else if v == 8 {
        '8'
    } else {
        '9'
    }
}

/// Decimal text of a non-negative number, most significant digit
/// first, with no padding.
pub open spec fn dec_str(n: int) -> Seq<char>
    decreases n,
{
    if n < 0 {
        Seq::empty()
    } else if n < 10 {
        seq![digit_char(n)]
    } else {
        dec_str(n / 10).push(digit_char(n % 10))
    }
}

fn digit_str(v: u64) -> (r: &'static str)
    requires
        v < 10,
    ensures
        r@ =~= seq![digit_char(v as int)],
{
    proof {
        reveal_strlit("0");
        reveal_strlit("1");
        reveal_strlit("2");
        reveal_strlit("3");
        reveal_strlit("4");
        reveal_strlit("5");
        reveal_strlit("6");
        reveal_strlit("7");
        reveal_strlit("8");
        reveal_strlit("9");
    }
    if v == 0 {
        "0"
    } else if v == 1 {
        "1"
    } else if v == 2 {
        "2"
    } else if v == 3 {
        "3"
    } else if v == 4 {
        "4"
    } else if v == 5 {
        "5"
    } else if v == 6 {
        "6"
    } else if v == 7 {
        "7"
    } else if v == 8 {
        "8"
    } else {
        "9"
    }
}

/// Decimal text of a number, without padding.
pub fn uint_to_string(n: u64) -> (r: String)
    ensures
        r@ == dec_str(n as int),
    decreases n,
{
    if n < 10 {
        digit_str(n).to_owned()
    } else {
        proof {
            vstd::arithmetic::div_mod::lemma_fundamental_div_mod(n as int, 10);
        }
        let mut s = uint_to_string(n / 10);
        s.append(digit_str(n % 10));
        proof {
            assert(dec_str((n / 10) as int).push(digit_char(n as int % 10)) =~= dec_str(
                (n / 10) as int,
            ) + seq![digit_char(n as int % 10)]);
        }
        s
    }
}

/// `n` spaces.
pub open spec fn spaces_spec(n: int) -> Seq<char>
    decreases n,
{
    if n <= 0 {
        Seq::empty()
    } else {
        spaces_spec(n - 1).push(' ')
    }
}

/// A string of `n` spaces.
pub fn spaces(n: usize) -> (r: String)
    ensures
        r@ == spaces_spec(n as int),
{
    let mut s = String::new();
    let mut i: usize = 0;
    while i < n
        invariant
            i <= n,
            s@ == spaces_spec(i as int),
        decreases n - i,
    {
        s.append(" ");
        proof {
            reveal_strlit(" ");
            assert(spaces_spec(i as int + 1) =~= spaces_spec(i as int) + " "@);
        }
        i = i + 1;
    }
    s
}

} // verus!
