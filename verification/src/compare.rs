//! A natural ordering of names: ASCII symbols first, then letters (upper
//! case before lower case), then numbers, compared by their value, then all
//! other characters.
use vstd::prelude::*;
use std::cmp::Ordering;
use crate::sheet::v1::format::{char_lt, text_lt};
use crate::text::{all_digits, chars_of, digits_value, is_digit, lemma_digits_value_monotone, strings_view};

verus! {

/// Classification of a character for ordering, in ascending order.
#[derive(Debug, Clone, Copy, PartialEq, Eq, Structural, PartialOrd, Ord)]
pub enum CharGroup {
    /// ASCII punctuation: ``!"#$%&'()*+,-./:;<=>?@[\]^_`{|}~``.
    AsciiSymbol,
    /// `A`-`Z`, `a`-`z`.
    Letter,
    /// `0`-`9`.
    Digit,
    /// Everything else.
    Other,
}

/// Whether a character is ASCII punctuation.
pub open spec fn is_ascii_punct(c: char) -> bool {
    ('!' <= c <= '/') || (':' <= c <= '@') || ('[' <= c <= '`') || ('{' <= c <= '~')
}

/// Whether a character is an ASCII upper case letter.
pub open spec fn is_upper(c: char) -> bool {
    'A' <= c <= 'Z'
}

/// Whether a character is an ASCII lower case letter.
pub open spec fn is_lower(c: char) -> bool {
    'a' <= c <= 'z'
}

/// The group of a character.
pub open spec fn group_of(c: char) -> CharGroup {
    if is_ascii_punct(c) {
        CharGroup::AsciiSymbol
    } else if is_upper(c) || is_lower(c) {
        CharGroup::Letter
    } else if is_digit(c) {
        CharGroup::Digit
    } else {
        CharGroup::Other
    }
}

/// Rank of a group in the ordering.
pub open spec fn group_rank(g: CharGroup) -> int {
    match g {
        CharGroup::AsciiSymbol => 0,
        CharGroup::Letter => 1,
        CharGroup::Digit => 2,
        CharGroup::Other => 3,
    }
}

/// The group of a character.
pub fn char_group(c: char) -> (r: CharGroup)
    ensures
        r == group_of(c),
{
    if ('!' <= c && c <= '/') || (':' <= c && c <= '@') || ('[' <= c && c <= '`') || ('{' <= c
        && c <= '~') {
        CharGroup::AsciiSymbol
    } else if ('A' <= c && c <= 'Z') || ('a' <= c && c <= 'z') {
        CharGroup::Letter
    } else if '0' <= c && c <= '9' {
        CharGroup::Digit
    } else {
        CharGroup::Other
    }
}

fn rank(g: CharGroup) -> (r: u8)
    ensures
        r == group_rank(g),
{
    match g {
        CharGroup::AsciiSymbol => 0,
        CharGroup::Letter => 1,
        CharGroup::Digit => 2,
        CharGroup::Other => 3,
    }
}

/// The order of two values of a total order as a sign: -1, 0 or 1.
pub open spec fn sign_of(less: bool, equal: bool) -> int {
    if less {
        -1
    } else if equal {
        0
    } else {
        1
    }
}

/// The sign that an ordering stands for.
pub open spec fn ordering_sign(o: Ordering) -> int {
    match o {
        Ordering::Less => -1,
        Ordering::Equal => 0,
        Ordering::Greater => 1,
    }
}

/// The order of two characters, as a sign: by group; within letters upper
/// case first; otherwise by code point.
pub open spec fn char_precedence(a: char, b: char) -> int {
    let ga = group_rank(group_of(a));
    let gb = group_rank(group_of(b));
    if ga != gb {
        sign_of(ga < gb, false)
    } else if group_of(a) == CharGroup::Letter && is_upper(a) && is_lower(b) {
        -1
    } else if group_of(a) == CharGroup::Letter && is_lower(a) && is_upper(b) {
        1
    } else {
        sign_of(a < b, a == b)
    }
}

fn char_sign(a: char, b: char) -> (r: i8)
    ensures
        r == char_precedence(a, b),
        -1 <= r <= 1,
{
    let ra = rank(char_group(a));
    let rb = rank(char_group(b));
    if ra != rb {
        return if ra < rb {
            -1
        } else {
            1
        };
    }
    if ra == 1 && ('A' <= a && a <= 'Z') && ('a' <= b && b <= 'z') {
        -1
    } else if ra == 1 && ('a' <= a && a <= 'z') && ('A' <= b && b <= 'Z') {
        1
    } else if a < b {
        -1
    } else if a == b {
        0
    } else {
        1
    }
}

/// Compare two characters by the ordering.
pub fn compare_char(a: char, b: char) -> (r: Ordering)
    ensures
        ordering_sign(r) == char_precedence(a, b),
{
    let n = char_sign(a, b);
    if n < 0 {
        Ordering::Less
    } else if n == 0 {
        Ordering::Equal
    } else {
        Ordering::Greater
    }
}

/// End of the run of digits that starts at `i`.
pub open spec fn digit_run_end(s: Seq<char>, i: int) -> int
    decreases s.len() - i,
{
    if i < 0 || i >= s.len() || !is_digit(s[i]) {
        i
    } else {
        digit_run_end(s, i + 1)
    }
}

pub proof fn lemma_digit_run_end(s: Seq<char>, i: int)
    requires
        0 <= i <= s.len(),
    ensures
        i <= digit_run_end(s, i) <= s.len(),
        forall|k: int| i <= k < digit_run_end(s, i) ==> is_digit(#[trigger] s[k]),
        digit_run_end(s, i) < s.len() ==> !is_digit(s[digit_run_end(s, i)]),
    decreases s.len() - i,
{
    if i < s.len() && is_digit(s[i]) {
        lemma_digit_run_end(s, i + 1);
    }
}

/// The order of `a[i..]` and `b[j..]` as a sign: character by character,
/// except that where both hold a digit, the two runs of digits compare by
/// value. Nothing, when a run of digits that is compared exceeds
/// `u64::MAX`.
pub open spec fn text_precedence(a: Seq<char>, b: Seq<char>, i: int, j: int) -> Option<int>
    decreases a.len() - i + b.len() - j,
{
    if i < 0 || j < 0 || i > a.len() || j > b.len() {
        None
    } else if i == a.len() && j == b.len() {
        Some(0)
    } else if i == a.len() {
        Some(-1)
    } else if j == b.len() {
        Some(1)
    } else if is_digit(a[i]) && is_digit(b[j]) {
        proof {
            lemma_digit_run_end(a, i);
            lemma_digit_run_end(b, j);
            lemma_digit_run_end(a, i + 1);
            lemma_digit_run_end(b, j + 1);
        }
        let ea = digit_run_end(a, i);
        let eb = digit_run_end(b, j);
        let na = digits_value(a.subrange(i, ea));
        let nb = digits_value(b.subrange(j, eb));
        if na > u64::MAX || nb > u64::MAX {
            None
        } else if na < nb {
            Some(-1)
        } else if na > nb {
            Some(1)
        } else {
            text_precedence(a, b, ea, eb)
        }
    } else {
        let c = char_precedence(a[i], b[j]);
        if c != 0 {
            Some(c)
        } else {
            text_precedence(a, b, i + 1, j + 1)
        }
    }
}

/// Reads the run of digits that starts at `start`: its value and its end.
pub fn parse_number(chars: &Vec<char>, start: usize) -> (r: (u64, usize))
    requires
        start < chars.len(),
        is_digit(chars@[start as int]),
        digits_value(chars@.subrange(start as int, digit_run_end(chars@, start as int))) <= u64::MAX,
    ensures
        r.1 == digit_run_end(chars@, start as int),
        r.0 == digits_value(chars@.subrange(start as int, r.1 as int)),
{
    let ghost s = chars@;
    proof {
        lemma_digit_run_end(s, start as int);
    }
    let ghost e = digit_run_end(s, start as int);
    let ghost run = s.subrange(start as int, e);
    assert(all_digits(run));
    let mut num: u64 = 0;
    let mut i = start;
    while i < chars.len() && '0' <= chars[i] && chars[i] <= '9'
        invariant
            start <= i <= e,
            e <= chars.len(),
            s == chars@,
            e == digit_run_end(s, start as int),
            run == s.subrange(start as int, e),
            all_digits(run),
            forall|k: int| start <= k < e ==> is_digit(#[trigger] s[k]),
            e < s.len() ==> !is_digit(s[e]),
            digits_value(run) <= u64::MAX,
            num == digits_value(s.subrange(start as int, i as int)),
        decreases chars.len() - i,
    {
        assert(i < e);
        let ghost next = s.subrange(start as int, i + 1);
        assert(next.drop_last() =~= s.subrange(start as int, i as int));
        assert(run.take(i + 1 - start) =~= next);
        proof {
            lemma_digits_value_monotone(run, i + 1 - start);
        }
        let d = (chars[i] as u32 - '0' as u32) as u64;
        num = num * 10 + d;
        i = i + 1;
    }
    assert(i == e);
    (num, i)
}

fn string_sign(a: &str, b: &str) -> (r: i8)
    requires
        text_precedence(a@, b@, 0, 0) is Some,
    ensures
        text_precedence(a@, b@, 0, 0) == Some(r as int),
        -1 <= r <= 1,
{
    let av = chars_of(a);
    let bv = chars_of(b);
    let mut i: usize = 0;
    let mut j: usize = 0;
    loop
        invariant
            i <= av.len(),
            j <= bv.len(),
            av@ == a@,
            bv@ == b@,
            text_precedence(a@, b@, 0, 0) == text_precedence(a@, b@, i as int, j as int),
            text_precedence(a@, b@, 0, 0) is Some,
        decreases av.len() - i + bv.len() - j,
    {
        if i == av.len() && j == bv.len() {
            return 0;
        } else if i == av.len() {
            return -1;
        } else if j == bv.len() {
            return 1;
        }
        let ca = av[i];
        let cb = bv[j];
        if '0' <= ca && ca <= '9' && '0' <= cb && cb <= '9' {
            proof {
                lemma_digit_run_end(a@, i as int);
                lemma_digit_run_end(b@, j as int);
            }
            let (na, ea) = parse_number(&av, i);
            let (nb, eb) = parse_number(&bv, j);
            if na < nb {
                return -1;
            } else if na > nb {
                return 1;
            }
            i = ea;
            j = eb;
        } else {
            let c = char_sign(ca, cb);
            if c != 0 {
                return c;
            }
            i = i + 1;
            j = j + 1;
        }
    }
}

/// Compare two strings by the ordering; runs of digits compare by value.
pub fn compare_string(a: &str, b: &str) -> (r: Ordering)
    requires
        text_precedence(a@, b@, 0, 0) is Some,
    ensures
        text_precedence(a@, b@, 0, 0) == Some(ordering_sign(r)),
{
    let n = string_sign(a, b);
    if n < 0 {
        Ordering::Less
    } else if n == 0 {
        Ordering::Equal
    } else {
        Ordering::Greater
    }
}

/// The order of two sequences of texts from position `k`, as a sign: the
/// first texts that differ decide, else the shorter sequence comes first.
/// Nothing when a compared pair of texts has an oversized run of digits.
pub open spec fn texts_precedence(a: Seq<Seq<char>>, b: Seq<Seq<char>>, k: int) -> Option<int>
    decreases a.len() - k,
{
    if k < 0 || k >= a.len() || k >= b.len() {
        Some(sign_of(a.len() < b.len(), a.len() == b.len()))
    } else {
        match text_precedence(a[k], b[k], 0, 0) {
            None => None,
            Some(c) => if c == 0 {
                texts_precedence(a, b, k + 1)
            } else {
                Some(c)
            },
        }
    }
}

fn strings_sign(a: &[String], b: &[String]) -> (r: i8)
    requires
        texts_precedence(strings_view(a@), strings_view(b@), 0) is Some,
    ensures
        texts_precedence(strings_view(a@), strings_view(b@), 0) == Some(r as int),
        -1 <= r <= 1,
{
    let ghost av = strings_view(a@);
    let ghost bv = strings_view(b@);
    let mut k: usize = 0;
    while k < a.len() && k < b.len()
        invariant
            k <= a.len(),
            k <= b.len(),
            av == strings_view(a@),
            bv == strings_view(b@),
            texts_precedence(av, bv, 0) == texts_precedence(av, bv, k as int),
            texts_precedence(av, bv, 0) is Some,
        decreases a.len() - k,
    {
        assert(av[k as int] == a@[k as int]@ && bv[k as int] == b@[k as int]@);
        let c = string_sign(a[k].as_str(), b[k].as_str());
        if c != 0 {
            return c;
        }
        k = k + 1;
    }
    if a.len() < b.len() {
        -1
    } else if a.len() == b.len() {
        0
    } else {
        1
    }
}

/// Compare two sequences of strings element by element; when one is a
/// prefix of the other, the shorter comes first.
pub fn compare_vec_string(a: &[String], b: &[String]) -> (r: Ordering)
    requires
        texts_precedence(strings_view(a@), strings_view(b@), 0) is Some,
    ensures
        texts_precedence(strings_view(a@), strings_view(b@), 0) == Some(ordering_sign(r)),
{
    let n = strings_sign(a, b);
    if n < 0 {
        Ordering::Less
    } else if n == 0 {
        Ordering::Equal
    } else {
        Ordering::Greater
    }
}

proof fn lemma_char_precedence_flip(a: char, b: char)
    ensures
        char_precedence(a, b) == -char_precedence(b, a),
        char_precedence(a, b) == 0 <==> a == b,
{
}

proof fn lemma_text_precedence_flip(a: Seq<char>, b: Seq<char>, i: int, j: int)
    ensures
        text_precedence(a, b, i, j) matches Some(c) ==> text_precedence(b, a, j, i) == Some(-c),
    decreases a.len() - i + b.len() - j,
{
    if 0 <= i < a.len() && 0 <= j < b.len() {
        if is_digit(a[i]) && is_digit(b[j]) {
            lemma_digit_run_end(a, i);
            lemma_digit_run_end(b, j);
            lemma_digit_run_end(a, i + 1);
            lemma_digit_run_end(b, j + 1);
            lemma_text_precedence_flip(a, b, digit_run_end(a, i), digit_run_end(b, j));
        } else {
            lemma_char_precedence_flip(a[i], b[j]);
            lemma_text_precedence_flip(a, b, i + 1, j + 1);
        }
    }
}

/// The ordering of strings is antisymmetric: swapping the two strings
/// flips the result.
pub proof fn lemma_compare_string_antisymmetric(a: Seq<char>, b: Seq<char>)
    ensures
        text_precedence(a, b, 0, 0) matches Some(c) ==> text_precedence(b, a, 0, 0) == Some(-c),
{
    lemma_text_precedence_flip(a, b, 0, 0);
}

proof fn lemma_text_precedence_same(a: Seq<char>, i: int)
    requires
        0 <= i <= a.len(),
        text_precedence(a, a, i, i) is Some,
    ensures
        text_precedence(a, a, i, i) == Some(0int),
    decreases a.len() - i,
{
    if i < a.len() {
        if is_digit(a[i]) {
            lemma_digit_run_end(a, i);
            lemma_digit_run_end(a, i + 1);
            lemma_text_precedence_same(a, digit_run_end(a, i));
        } else {
            lemma_char_precedence_flip(a[i], a[i]);
            lemma_text_precedence_same(a, i + 1);
        }
    }
}

/// Every string that can be compared is equal to itself.
pub proof fn lemma_compare_string_reflexive(a: Seq<char>)
    requires
        text_precedence(a, a, 0, 0) is Some,
    ensures
        text_precedence(a, a, 0, 0) == Some(0int),
{
    lemma_text_precedence_same(a, 0);
}


proof fn lemma_char_precedence_trans(a: char, b: char, c: char)
    requires
        char_precedence(a, b) <= 0,
        char_precedence(b, c) <= 0,
    ensures
        char_precedence(a, c) <= 0,
        char_precedence(a, b) < 0 || char_precedence(b, c) < 0 ==> char_precedence(a, c) < 0,
{
}

/// A character is a digit exactly when it is in the digit group.
proof fn lemma_digit_group(a: char)
    ensures
        is_digit(a) <==> group_of(a) == CharGroup::Digit,
{
}

proof fn lemma_text_precedence_trans(x: Seq<char>, y: Seq<char>, z: Seq<char>, i: int, j: int, k: int)
    requires
        0 <= i <= x.len(),
        0 <= j <= y.len(),
        0 <= k <= z.len(),
        text_precedence(x, y, i, j) is Some,
        text_precedence(y, z, j, k) is Some,
        text_precedence(x, z, i, k) is Some,
        text_precedence(x, y, i, j)->0 <= 0,
        text_precedence(y, z, j, k)->0 <= 0,
    ensures
        text_precedence(x, z, i, k)->0 <= 0,
        text_precedence(x, y, i, j)->0 < 0 || text_precedence(y, z, j, k)->0 < 0 ==> text_precedence(x, z, i, k)->0 < 0,
    decreases x.len() - i,
{
    if i < x.len() && j < y.len() && k < z.len() {
        lemma_digit_group(x[i]);
        lemma_digit_group(y[j]);
        lemma_digit_group(z[k]);
        if is_digit(x[i]) && is_digit(y[j]) && is_digit(z[k]) {
            lemma_digit_run_end(x, i);
            lemma_digit_run_end(y, j);
            lemma_digit_run_end(z, k);
            lemma_digit_run_end(x, i + 1);
            lemma_digit_run_end(y, j + 1);
            lemma_digit_run_end(z, k + 1);
            let ea = digit_run_end(x, i);
            let eb = digit_run_end(y, j);
            let ec = digit_run_end(z, k);
            let na = digits_value(x.subrange(i, ea));
            let nb = digits_value(y.subrange(j, eb));
            let nc = digits_value(z.subrange(k, ec));
            if na == nb && nb == nc {
                lemma_text_precedence_trans(x, y, z, ea, eb, ec);
            }
        } else if !is_digit(x[i]) && !is_digit(y[j]) && !is_digit(z[k]) {
            lemma_char_precedence_trans(x[i], y[j], z[k]);
            lemma_char_precedence_flip(x[i], y[j]);
            lemma_char_precedence_flip(y[j], z[k]);
            if char_precedence(x[i], y[j]) == 0 && char_precedence(y[j], z[k]) == 0 {
                lemma_text_precedence_trans(x, y, z, i + 1, j + 1, k + 1);
            }
        }
    }
}

/// The ordering of strings is transitive: a string that comes no later
/// than a second, which comes no later than a third, comes no later than
/// the third, and strictly earlier when either step is strict.
pub proof fn lemma_compare_string_transitive(x: Seq<char>, y: Seq<char>, z: Seq<char>)
    requires
        text_precedence(x, y, 0, 0) is Some,
        text_precedence(y, z, 0, 0) is Some,
        text_precedence(x, z, 0, 0) is Some,
        text_precedence(x, y, 0, 0)->0 <= 0,
        text_precedence(y, z, 0, 0)->0 <= 0,
    ensures
        text_precedence(x, z, 0, 0)->0 <= 0,
        text_precedence(x, y, 0, 0)->0 < 0 || text_precedence(y, z, 0, 0)->0 < 0 ==> text_precedence(x, z, 0, 0)->0 < 0,
{
    lemma_text_precedence_trans(x, y, z, 0, 0, 0);
}


proof fn lemma_texts_precedence_flip(a: Seq<Seq<char>>, b: Seq<Seq<char>>, k: int)
    requires
        0 <= k,
    ensures
        texts_precedence(a, b, k) matches Some(c) ==> texts_precedence(b, a, k) == Some(-c),
    decreases a.len() - k,
{
    if k < a.len() && k < b.len() {
        lemma_text_precedence_flip(a[k], b[k], 0, 0);
        lemma_texts_precedence_flip(a, b, k + 1);
    }
}

/// The ordering of sequences of strings is antisymmetric: swapping the two
/// sequences flips the result.
pub proof fn lemma_compare_vec_string_antisymmetric(a: Seq<Seq<char>>, b: Seq<Seq<char>>)
    ensures
        texts_precedence(a, b, 0) matches Some(c) ==> texts_precedence(b, a, 0) == Some(-c),
{
    lemma_texts_precedence_flip(a, b, 0);
}

proof fn lemma_texts_precedence_trans(a: Seq<Seq<char>>, b: Seq<Seq<char>>, c: Seq<Seq<char>>, k: int)
    requires
        0 <= k,
        texts_precedence(a, b, k) is Some,
        texts_precedence(b, c, k) is Some,
        texts_precedence(a, c, k) is Some,
        texts_precedence(a, b, k)->0 <= 0,
        texts_precedence(b, c, k)->0 <= 0,
    ensures
        texts_precedence(a, c, k)->0 <= 0,
        texts_precedence(a, b, k)->0 < 0 || texts_precedence(b, c, k)->0 < 0 ==> texts_precedence(a, c, k)->0 < 0,
    decreases a.len() - k,
{
    if k < a.len() && k < b.len() && k < c.len() {
        lemma_text_precedence_trans(a[k], b[k], c[k], 0, 0, 0);
        lemma_text_precedence_flip(a[k], b[k], 0, 0);
        lemma_text_precedence_flip(b[k], c[k], 0, 0);
        lemma_text_precedence_flip(a[k], c[k], 0, 0);
        let t1 = text_precedence(a[k], b[k], 0, 0)->0;
        let t2 = text_precedence(b[k], c[k], 0, 0)->0;
        if t1 == 0 && t2 == 0 {
            lemma_text_precedence_trans(c[k], b[k], a[k], 0, 0, 0);
            lemma_texts_precedence_trans(a, b, c, k + 1);
        }
    }
}

/// The ordering of sequences of strings is transitive, and strictly so
/// when either step is strict.
pub proof fn lemma_compare_vec_string_transitive(a: Seq<Seq<char>>, b: Seq<Seq<char>>, c: Seq<Seq<char>>)
    requires
        texts_precedence(a, b, 0) is Some,
        texts_precedence(b, c, 0) is Some,
        texts_precedence(a, c, 0) is Some,
        texts_precedence(a, b, 0)->0 <= 0,
        texts_precedence(b, c, 0)->0 <= 0,
    ensures
        texts_precedence(a, c, 0)->0 <= 0,
        texts_precedence(a, b, 0)->0 < 0 || texts_precedence(b, c, 0)->0 < 0 ==> texts_precedence(a, c, 0)->0 < 0,
{
    lemma_texts_precedence_trans(a, b, c, 0);
}


/// Every maximal run of ASCII digits in the text has a value that fits a
/// `u64`.
pub open spec fn digit_runs_fit(s: Seq<char>) -> bool {
    forall|i: int|
        0 <= i <= s.len() && (i == 0 || !is_digit(#[trigger] s[i - 1])) ==> digits_value(
            s.subrange(i, digit_run_end(s, i)),
        ) <= u64::MAX
}

/// Start of the run of digits that reaches `i` from the left.
spec fn run_start(s: Seq<char>, i: int) -> int
    decreases i,
{
    if i > 0 && i <= s.len() && is_digit(s[i - 1]) {
        run_start(s, i - 1)
    } else {
        i
    }
}

proof fn lemma_run_start(s: Seq<char>, i: int)
    requires
        0 <= i <= s.len(),
    ensures
        0 <= run_start(s, i) <= i,
        run_start(s, i) == 0 || !is_digit(s[run_start(s, i) - 1]),
        forall|k: int| run_start(s, i) <= k < i ==> is_digit(#[trigger] s[k]),
    decreases i,
{
    if i > 0 && is_digit(s[i - 1]) {
        lemma_run_start(s, i - 1);
    }
}

/// Starting inside a run of digits, the run ends where it would from any
/// earlier position of the same run.
proof fn lemma_same_run_end(s: Seq<char>, k: int, i: int)
    requires
        0 <= k <= i <= s.len(),
        forall|x: int| k <= x < i ==> is_digit(#[trigger] s[x]),
    ensures
        digit_run_end(s, k) == digit_run_end(s, i),
    decreases i - k,
{
    if k < i {
        assert(is_digit(s[k]));
        lemma_same_run_end(s, k + 1, i);
    }
}

/// A tail of digits has no greater value than the whole.
proof fn lemma_digits_value_tail(x: Seq<char>, j: int)
    requires
        0 <= j <= x.len(),
        all_digits(x),
    ensures
        digits_value(x.skip(j)) <= digits_value(x),
    decreases x.len(),
{
    if j == x.len() {
        assert(x.skip(j) =~= Seq::<char>::empty());
    } else {
        let t = x.drop_last();
        assert(x.skip(j).drop_last() =~= t.skip(j));
        assert(x.skip(j).last() == x.last());
        assert(all_digits(t)) by {
            assert forall|q: int| 0 <= q < t.len() implies is_digit(#[trigger] t[q]) by {
                assert(t[q] == x[q]);
            }
        }
        lemma_digits_value_tail(t, j);
    }
}

/// When every maximal run fits, every run read from any of its positions
/// fits.
proof fn lemma_runs_fit_anywhere(s: Seq<char>, i: int)
    requires
        digit_runs_fit(s),
        0 <= i <= s.len(),
    ensures
        digits_value(s.subrange(i, digit_run_end(s, i))) <= u64::MAX,
{
    lemma_run_start(s, i);
    let k = run_start(s, i);
    lemma_same_run_end(s, k, i);
    lemma_digit_run_end(s, k);
    let e = digit_run_end(s, k);
    let whole = s.subrange(k, e);
    assert(all_digits(whole)) by {
        assert forall|q: int| 0 <= q < whole.len() implies is_digit(#[trigger] whole[q]) by {
            assert(whole[q] == s[k + q]);
        }
    }
    assert(whole.skip(i - k) =~= s.subrange(i, e));
    lemma_digits_value_tail(whole, i - k);
    assert(k == 0 || !is_digit(s[k - 1]));
    assert(digits_value(whole) <= u64::MAX);
    assert(digit_run_end(s, i) == e);
    assert(digits_value(s.subrange(i, e)) <= digits_value(whole));
}

/// Texts whose runs of digits fit always compare.
proof fn lemma_fit_compares(a: Seq<char>, b: Seq<char>, i: int, j: int)
    requires
        digit_runs_fit(a),
        digit_runs_fit(b),
        0 <= i <= a.len(),
        0 <= j <= b.len(),
    ensures
        text_precedence(a, b, i, j) is Some,
    decreases a.len() - i + b.len() - j,
{
    if i < a.len() && j < b.len() {
        if is_digit(a[i]) && is_digit(b[j]) {
            lemma_digit_run_end(a, i);
            lemma_digit_run_end(b, j);
            lemma_digit_run_end(a, i + 1);
            lemma_digit_run_end(b, j + 1);
            lemma_runs_fit_anywhere(a, i);
            lemma_runs_fit_anywhere(b, j);
            lemma_fit_compares(a, b, digit_run_end(a, i), digit_run_end(b, j));
        } else {
            lemma_fit_compares(a, b, i + 1, j + 1);
        }
    }
}

/// On texts whose maximal runs of digits fit a `u64`, the ordering of
/// strings is a total preorder: every pair compares, each text compares
/// equal to itself, swapping two texts flips the result, and it is
/// transitive (strictly so when either step is strict).
pub proof fn lemma_compare_string_total_preorder(a: Seq<char>, b: Seq<char>, c: Seq<char>)
    requires
        digit_runs_fit(a),
        digit_runs_fit(b),
        digit_runs_fit(c),
    ensures
        text_precedence(a, b, 0, 0) is Some,
        text_precedence(a, a, 0, 0) == Some(0int),
        text_precedence(b, a, 0, 0) == Some(-text_precedence(a, b, 0, 0)->0),
        text_precedence(a, b, 0, 0)->0 <= 0 && text_precedence(b, c, 0, 0)->0 <= 0 ==> text_precedence(a, c, 0, 0)->0 <= 0,
        (text_precedence(a, b, 0, 0)->0 < 0 && text_precedence(b, c, 0, 0)->0 <= 0) || (text_precedence(a, b, 0, 0)->0
            <= 0 && text_precedence(b, c, 0, 0)->0 < 0) ==> text_precedence(a, c, 0, 0)->0 < 0,
{
    lemma_fit_compares(a, b, 0, 0);
    lemma_fit_compares(b, c, 0, 0);
    lemma_fit_compares(a, c, 0, 0);
    lemma_fit_compares(a, a, 0, 0);
    lemma_compare_string_reflexive(a);
    lemma_compare_string_antisymmetric(a, b);
    if text_precedence(a, b, 0, 0)->0 <= 0 && text_precedence(b, c, 0, 0)->0 <= 0 {
        lemma_compare_string_transitive(a, b, c);
    }
}


/// A character that is neither ASCII punctuation, nor an ASCII letter, nor
/// an ASCII digit: anything outside `!`..`~`.
pub open spec fn outside_printable_ascii(c: char) -> bool {
    !('!' <= c && c <= '~')
}

/// The sign of the code-point order of two texts: -1 when `a` comes first,
/// 0 when they are equal, 1 when `b` comes first.
pub open spec fn code_point_sign(a: Seq<char>, b: Seq<char>) -> int {
    if text_lt(a, b) {
        -1
    } else if a == b {
        0
    } else {
        1
    }
}

proof fn lemma_other_chars_by_code_point(x: Seq<char>, y: Seq<char>, i: int)
    requires
        0 <= i,
        i <= x.len(),
        i <= y.len(),
        forall|k: int| 0 <= k < x.len() ==> outside_printable_ascii(#[trigger] x[k]),
        forall|k: int| 0 <= k < y.len() ==> outside_printable_ascii(#[trigger] y[k]),
    ensures
        text_precedence(x, y, i, i) == Some(code_point_sign(x.skip(i), y.skip(i))),
    decreases x.len() - i,
{
    let a = x.skip(i);
    let b = y.skip(i);
    if i < x.len() && i < y.len() {
        assert(outside_printable_ascii(x[i]) && outside_printable_ascii(y[i]));
        assert(a[0] == x[i] && b[0] == y[i]);
        assert(a.drop_first() =~= x.skip(i + 1));
        assert(b.drop_first() =~= y.skip(i + 1));
        lemma_other_chars_by_code_point(x, y, i + 1);
        assert(group_of(x[i]) == CharGroup::Other && group_of(y[i]) == CharGroup::Other);
        assert(!is_digit(x[i]) && !is_digit(y[i]));
        vstd::utf8::char_u32_cast(x[i], x[i] as u32);
        vstd::utf8::char_u32_cast(y[i], y[i] as u32);
        if x[i] == y[i] {
            assert(char_precedence(x[i], y[i]) == 0);
            if x.skip(i + 1) == y.skip(i + 1) {
                assert(a.len() == b.len());
                assert forall|k: int| 0 <= k < a.len() implies a[k] == b[k] by {
                    if k > 0 {
                        assert(a[k] == a.drop_first()[k - 1]);
                        assert(b[k] == b.drop_first()[k - 1]);
                    }
                }
                assert(a =~= b);
            } else {
                assert(a != b) by {
                    if a == b {
                        assert(a.drop_first() == b.drop_first());
                    }
                }
            }
        } else {
            assert(a != b);
            assert(text_lt(a, b) == char_lt(x[i], y[i]));
            if (x[i] as u32) < (y[i] as u32) {
                assert(x[i] < y[i]);
                assert(char_precedence(x[i], y[i]) == -1);
            } else {
                assert((y[i] as u32) < (x[i] as u32));
                assert(y[i] < x[i]);
                assert(char_precedence(x[i], y[i]) == 1);
            }
        }
    } else if i == x.len() && i == y.len() {
        assert(a =~= b);
    } else if i == x.len() {
        assert(a.len() == 0 && b.len() > 0);
    } else {
        assert(b.len() == 0 && a.len() > 0);
        assert(a != b);
    }
}

/// Texts made of characters outside printable ASCII (other scripts,
/// accented letters, symbols beyond ASCII) compare in code-point order, as
/// `str` compares them: the first differing character decides by its code
/// point, and a proper prefix comes first.
pub proof fn lemma_other_texts_by_code_point(x: Seq<char>, y: Seq<char>)
    requires
        forall|k: int| 0 <= k < x.len() ==> outside_printable_ascii(#[trigger] x[k]),
        forall|k: int| 0 <= k < y.len() ==> outside_printable_ascii(#[trigger] y[k]),
    ensures
        text_precedence(x, y, 0, 0) == Some(code_point_sign(x, y)),
{
    lemma_other_chars_by_code_point(x, y, 0);
    assert(x.skip(0) =~= x);
    assert(y.skip(0) =~= y);
}

/// Two characters outside printable ASCII compare by code point.
pub proof fn lemma_other_chars_order(a: char, b: char)
    requires
        outside_printable_ascii(a),
        outside_printable_ascii(b),
    ensures
        (text_precedence(seq![a], seq![b], 0, 0) == Some(-1int)) == ((a as u32) < (b as u32)),
        (text_precedence(seq![a], seq![b], 0, 0) == Some(0int)) == (a == b),
{
    lemma_other_texts_by_code_point(seq![a], seq![b]);
    let x = seq![a];
    let y = seq![b];
    assert(x.drop_first() =~= Seq::<char>::empty());
    assert(y.drop_first() =~= Seq::<char>::empty());
    vstd::utf8::char_u32_cast(a, a as u32);
    vstd::utf8::char_u32_cast(b, b as u32);
    if a == b {
        assert(x =~= y);
        assert(!text_lt(x.drop_first(), y.drop_first()));
        assert(!text_lt(x, y));
    } else {
        assert(x != y) by {
            assert(x[0] != y[0]);
        }
        assert(text_lt(x, y) == char_lt(a, b));
    }
}


/// How two single characters compare, told from their code points alone:
/// ASCII punctuation comes first, then ASCII letters, then digits, then
/// every other character; among letters an uppercase letter comes before a
/// lowercase one; otherwise the smaller code point comes first.
pub proof fn lemma_char_order(a: char, b: char)
    requires
        !('0' <= a <= '9' && '0' <= b <= '9'),
    ensures
        ({
            let punct = |c: char| ('!' <= c <= '/') || (':' <= c <= '@') || ('[' <= c <= '`') || ('{' <= c <= '~');
            let upper = |c: char| 'A' <= c <= 'Z';
            let lower = |c: char| 'a' <= c <= 'z';
            let digit = |c: char| '0' <= c <= '9';
            let rank = |c: char|
                if punct(c) {
                    0int
                } else if upper(c) || lower(c) {
                    1int
                } else if digit(c) {
                    2int
                } else {
                    3int
                };
            let expected = if rank(a) != rank(b) {
                if rank(a) < rank(b) { -1int } else { 1int }
            } else if upper(a) && lower(b) {
                -1int
            } else if lower(a) && upper(b) {
                1int
            } else if (a as u32) < (b as u32) {
                -1int
            } else if a == b {
                0int
            } else {
                1int
            };
            text_precedence(seq![a], seq![b], 0, 0) == Some(expected)
        }),
{
    let x = seq![a];
    let y = seq![b];
    vstd::utf8::char_u32_cast(a, a as u32);
    vstd::utf8::char_u32_cast(b, b as u32);
    assert(x[0] == a && y[0] == b);
    assert(text_precedence(x, y, 1, 1) == Some(0int));
}

/// Runs of digits compare by their value: two texts of digits whose values
/// differ (and fit a `u64`) come in the order of those values, whatever
/// their lengths or leading zeros.
pub proof fn lemma_digit_runs_by_value(x: Seq<char>, y: Seq<char>)
    requires
        x.len() > 0,
        y.len() > 0,
        forall|k: int| 0 <= k < x.len() ==> '0' <= #[trigger] x[k] <= '9',
        forall|k: int| 0 <= k < y.len() ==> '0' <= #[trigger] y[k] <= '9',
        digits_value(x) <= u64::MAX,
        digits_value(y) <= u64::MAX,
        digits_value(x) != digits_value(y),
    ensures
        text_precedence(x, y, 0, 0) == Some(if digits_value(x) < digits_value(y) { -1int } else { 1int }),
{
    assert(is_digit(x[0]) && is_digit(y[0]));
    lemma_digit_run_to_end(x, 0);
    lemma_digit_run_to_end(y, 0);
    assert(x.subrange(0, x.len() as int) =~= x);
    assert(y.subrange(0, y.len() as int) =~= y);
}

proof fn lemma_digit_run_to_end(x: Seq<char>, i: int)
    requires
        0 <= i <= x.len(),
        forall|k: int| 0 <= k < x.len() ==> '0' <= #[trigger] x[k] <= '9',
    ensures
        digit_run_end(x, i) == x.len(),
    decreases x.len() - i,
{
    if i < x.len() {
        assert(is_digit(x[i]));
        lemma_digit_run_to_end(x, i + 1);
    }
}

} // verus!
