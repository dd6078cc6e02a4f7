//! Splitting an identifier into lowercase words and writing the words back
//! in the usual case styles.
use vstd::prelude::*;
use crate::text::{chars_of, join_chars, join_with, string_of, strings_view};

verus! {

/// ASCII letters and digits: the characters a word is made of.
pub open spec fn is_word_char(c: char) -> bool {
    ('a' <= c <= 'z') || ('A' <= c <= 'Z') || ('0' <= c <= '9')
}

/// The characters that separate words.
pub open spec fn is_separator(c: char) -> bool {
    c == '_' || c == ',' || c == '.' || c == '-' || c == ' '
}

/// An ASCII lowercase letter.
pub open spec fn is_lower(c: char) -> bool {
    'a' <= c <= 'z'
}

/// An ASCII uppercase letter.
pub open spec fn is_upper(c: char) -> bool {
    'A' <= c <= 'Z'
}

/// The ASCII lowercase of a character.
pub open spec fn ascii_lower(c: char) -> char {
    if is_upper(c) {
        ((c as int) + 32) as char
    } else {
        c
    }
}

/// The ASCII uppercase of a character.
pub open spec fn ascii_upper(c: char) -> char {
    if is_lower(c) {
        ((c as int) - 32) as char
    } else {
        c
    }
}

/// First pass over the input: letters and digits are kept, a run of
/// separators becomes one space, anything else is dropped. The flag says
/// whether the last character written was such a space.
pub open spec fn squash_state(s: Seq<char>) -> (Seq<char>, bool)
    decreases s.len(),
{
    if s.len() == 0 {
        (Seq::empty(), false)
    } else {
        let (out, spaced) = squash_state(s.drop_last());
        let c = s.last();
        if is_word_char(c) {
            (out.push(c), false)
        } else if is_separator(c) && !spaced {
            (out.push(' '), true)
        } else {
            (out, spaced)
        }
    }
}

/// Second pass: a space is put between a lowercase letter and an uppercase
/// letter that follows it.
pub open spec fn camel_split(s: Seq<char>) -> Seq<char>
    decreases s.len(),
{
    if s.len() == 0 {
        Seq::empty()
    } else {
        let init = camel_split(s.drop_last());
        if s.len() >= 2 && is_lower(s[s.len() - 2]) && is_upper(s.last()) {
            init.push(' ').push(s.last())
        } else {
            init.push(s.last())
        }
    }
}

/// The words found so far and the word being read, splitting at spaces.
pub open spec fn words_state(s: Seq<char>) -> (Seq<Seq<char>>, Seq<char>)
    decreases s.len(),
{
    if s.len() == 0 {
        (Seq::empty(), Seq::empty())
    } else {
        let (done, cur) = words_state(s.drop_last());
        if s.last() == ' ' {
            if cur.len() > 0 {
                (done.push(cur), Seq::empty())
            } else {
                (done, Seq::empty())
            }
        } else {
            (done, cur.push(s.last()))
        }
    }
}

/// The non-empty pieces of `s` between spaces.
pub open spec fn words(s: Seq<char>) -> Seq<Seq<char>> {
    let (done, cur) = words_state(s);
    if cur.len() > 0 {
        done.push(cur)
    } else {
        done
    }
}

/// The lowercase words of a text: after the two passes, the text is
/// lowercased and split at spaces.
pub open spec fn text_words(s: Seq<char>) -> Seq<Seq<char>> {
    words(camel_split(squash_state(s).0).map_values(|c: char| ascii_lower(c)))
}

/// A word with its first character in uppercase.
pub open spec fn capitalized(w: Seq<char>) -> Seq<char> {
    if w.len() == 0 {
        w
    } else {
        seq![ascii_upper(w[0])] + w.drop_first()
    }
}

/// The words written one after another.
pub open spec fn concat_words(ws: Seq<Seq<char>>) -> Seq<char>
    decreases ws.len(),
{
    if ws.len() == 0 {
        Seq::empty()
    } else {
        concat_words(ws.drop_last()) + ws.last()
    }
}

/// The words, each capitalized.
pub open spec fn capitalized_words(ws: Seq<Seq<char>>) -> Seq<Seq<char>> {
    ws.map_values(|w: Seq<char>| capitalized(w))
}

/// A word: non-empty, made of lowercase letters and digits.
pub open spec fn is_lower_word(w: Seq<char>) -> bool {
    w.len() > 0 && forall|j: int| 0 <= j < w.len() ==> #[trigger] is_word_char(w[j]) && !is_upper(w[j])
}

/// The ASCII lowercase of a character.
pub(crate) fn lower_char(c: char) -> (r: char)
    ensures
        r == ascii_lower(c),
{
    if 'A' <= c && c <= 'Z' {
        let x: u32 = c as u32;
        let b: u8 = x as u8;
        (b + 32) as char
    } else {
        c
    }
}

/// The ASCII uppercase of a character.
fn upper_char(c: char) -> (r: char)
    ensures
        r == ascii_upper(c),
{
    if 'a' <= c && c <= 'z' {
        let x: u32 = c as u32;
        let b: u8 = x as u8;
        (b - 32) as char
    } else {
        c
    }
}

/// A character of the passes' output: a letter, a digit or a space.
pub open spec fn word_or_space(c: char) -> bool {
    is_word_char(c) || c == ' '
}

/// First pass over the input characters.
fn squash(cs: &Vec<char>) -> (r: Vec<char>)
    ensures
        r@ == squash_state(cs@).0,
        forall|j: int| 0 <= j < r@.len() ==> #[trigger] word_or_space(r@[j]),
{
    let mut out: Vec<char> = Vec::new();
    let mut spaced = false;
    let mut i: usize = 0;
    while i < cs.len()
        invariant
            0 <= i <= cs.len(),
            (out@, spaced) == squash_state(cs@.take(i as int)),
            forall|j: int| 0 <= j < out@.len() ==> #[trigger] word_or_space(out@[j]),
        decreases cs.len() - i,
    {
        let c = cs[i];
        assert(cs@.take(i + 1).drop_last() =~= cs@.take(i as int));
        if ('a' <= c && c <= 'z') || ('A' <= c && c <= 'Z') || ('0' <= c && c <= '9') {
            out.push(c);
            spaced = false;
        } else if c == '_' || c == ',' || c == '.' || c == '-' || c == ' ' {
            if !spaced {
                out.push(' ');
                spaced = true;
            }
        }
        i = i + 1;
    }
    assert(cs@.take(cs.len() as int) =~= cs@);
    out
}

/// Second pass: a space between a lowercase letter and a following
/// uppercase one.
fn split_camel(s: &Vec<char>) -> (r: Vec<char>)
    requires
        forall|j: int| 0 <= j < s@.len() ==> #[trigger] word_or_space(s@[j]),
    ensures
        r@ == camel_split(s@),
        forall|j: int| 0 <= j < r@.len() ==> #[trigger] word_or_space(r@[j]),
{
    let mut out: Vec<char> = Vec::new();
    let mut i: usize = 0;
    while i < s.len()
        invariant
            0 <= i <= s.len(),
            out@ == camel_split(s@.take(i as int)),
            forall|j: int| 0 <= j < s@.len() ==> #[trigger] word_or_space(s@[j]),
            forall|j: int| 0 <= j < out@.len() ==> #[trigger] word_or_space(out@[j]),
        decreases s.len() - i,
    {
        let ghost t = s@.take(i + 1);
        assert(t.drop_last() =~= s@.take(i as int));
        assert(t.last() == s@[i as int]);
        if i > 0 {
            assert(t[t.len() - 2] == s@[i - 1]);
        }
        let c = s[i];
        if i > 0 && 'a' <= s[i - 1] && s[i - 1] <= 'z' && 'A' <= c && c <= 'Z' {
            out.push(' ');
        }
        assert(word_or_space(s@[i as int]));
        out.push(c);
        i = i + 1;
    }
    assert(s@.take(s.len() as int) =~= s@);
    out
}

/// Last pass: lowercase the text and split it at spaces, dropping empty
/// pieces.
fn split_words(s: &Vec<char>) -> (r: Vec<String>)
    requires
        forall|j: int| 0 <= j < s@.len() ==> #[trigger] word_or_space(s@[j]),
    ensures
        strings_view(r@) == words(s@.map_values(|c: char| ascii_lower(c))),
        forall|i: int| 0 <= i < r@.len() ==> #[trigger] is_lower_word(strings_view(r@)[i]),
{
    let ghost low = s@.map_values(|c: char| ascii_lower(c));
    let mut done: Vec<String> = Vec::new();
    let mut cur: Vec<char> = Vec::new();
    let mut i: usize = 0;
    while i < s.len()
        invariant
            0 <= i <= s.len(),
            low == s@.map_values(|c: char| ascii_lower(c)),
            forall|j: int| 0 <= j < s@.len() ==> #[trigger] word_or_space(s@[j]),
            (strings_view(done@), cur@) == words_state(low.take(i as int)),
            forall|k: int| 0 <= k < done@.len() ==> #[trigger] is_lower_word(strings_view(done@)[k]),
            forall|j: int| 0 <= j < cur@.len() ==> #[trigger] is_word_char(cur@[j]) && !is_upper(cur@[j]),
        decreases s.len() - i,
    {
        let ghost t = low.take(i + 1);
        assert(t.drop_last() =~= low.take(i as int));
        assert(t.last() == ascii_lower(s@[i as int]));
        assert(word_or_space(s@[i as int]));
        let c = s[i];
        if c == ' ' {
            if cur.len() > 0 {
                assert(is_lower_word(cur@));
                let w = string_of(cur.as_slice());
                let ghost before = done@;
                done.push(w);
                assert(strings_view(done@) =~= strings_view(before).push(w@));
                assert(is_lower_word(w@));
            }
            cur = Vec::new();
        } else {
            let l = lower_char(c);
            cur.push(l);
        }
        i = i + 1;
    }
    assert(low.take(s.len() as int) =~= low);
    if cur.len() > 0 {
        let w = string_of(cur.as_slice());
        let ghost before = done@;
        done.push(w);
        assert(strings_view(done@) =~= strings_view(before).push(w@));
        assert(is_lower_word(w@));
    }
    done
}

/// The lowercase words of a text.
fn process_string(input: &str) -> (r: Vec<String>)
    ensures
        strings_view(r@) == text_words(input@),
        forall|i: int| 0 <= i < r@.len() ==> #[trigger] is_lower_word(strings_view(r@)[i]),
{
    let cs = chars_of(input);
    let squashed = squash(&cs);
    let split = split_camel(&squashed);
    split_words(&split)
}

/// A word with its first character in uppercase.
fn capitalize(w: &String) -> (r: Vec<char>)
    ensures
        r@ == capitalized(w@),
{
    let mut cs = chars_of(w.as_str());
    if cs.len() > 0 {
        let first = upper_char(cs[0]);
        cs.set(0, first);
        assert(cs@ =~= seq![ascii_upper(w@[0])] + w@.drop_first());
    }
    cs
}

/// The words of an identifier, ready to be written in another case style.
pub struct FormatProcesser {
    content: Vec<String>,
}

impl View for FormatProcesser {
    type V = Seq<Seq<char>>;

    closed spec fn view(&self) -> Seq<Seq<char>> {
        strings_view(self.content@)
    }
}

impl FormatProcesser {
    /// Every word is non-empty and made of lowercase letters and digits.
    #[verifier::type_invariant]
    closed spec fn lower_words(self) -> bool {
        forall|i: int| 0 <= i < self.content@.len() ==> #[trigger] is_lower_word(strings_view(self.content@)[i])
    }

    /// The words of a text.
    fn of_text(input: &str) -> (r: Self)
        ensures
            r@ == text_words(input@),
            forall|i: int| 0 <= i < r@.len() ==> #[trigger] is_lower_word(r@[i]),
    {
        FormatProcesser { content: process_string(input) }
    }
}

/// The words of camelCase: the first as it is, the others capitalized.
pub open spec fn camel_words(ws: Seq<Seq<char>>) -> Seq<Seq<char>> {
    ws.map(|i: int, w: Seq<char>| if i == 0 { w } else { capitalized(w) })
}

/// The words joined with `sep`, as one string.
fn joined(words: &Vec<String>, sep: char) -> (r: String)
    ensures
        r@ == join_with(strings_view(words@), sep),
{
    let cs = join_chars(words, sep);
    string_of(cs.as_slice())
}

impl FormatProcesser {
    /// camelCase: `brewCoffee`.
    pub fn to_camel_case(&self) -> (r: String)
        ensures
            r@ == concat_words(camel_words(self@)),
    {
        self.styled(false)
    }

    /// PascalCase: `BrewCoffee`.
    pub fn to_pascal_case(&self) -> (r: String)
        ensures
            r@ == concat_words(capitalized_words(self@)),
    {
        self.styled(true)
    }

    /// The words written one after another, each capitalized but (unless
    /// `all` is set) the first.
    fn styled(&self, all: bool) -> (r: String)
        ensures
            all ==> r@ == concat_words(capitalized_words(self@)),
            !all ==> r@ == concat_words(camel_words(self@)),
    {
        let ghost ws = self@;
        let mut out: Vec<char> = Vec::new();
        let mut i: usize = 0;
        while i < self.content.len()
            invariant
                0 <= i <= self.content.len(),
                ws == strings_view(self.content@),
                all ==> out@ == concat_words(capitalized_words(ws.take(i as int))),
                !all ==> out@ == concat_words(camel_words(ws.take(i as int))),
            decreases self.content.len() - i,
        {
            let ghost before = out@;
            let ghost t = ws.take(i + 1);
            assert(t.drop_last() =~= ws.take(i as int));
            assert(capitalized_words(t).drop_last() =~= capitalized_words(ws.take(i as int)));
            assert(camel_words(t).drop_last() =~= camel_words(ws.take(i as int)));
            assert(t.last() == ws[i as int]);
            let mut piece = if i == 0 && !all {
                chars_of(self.content[i].as_str())
            } else {
                capitalize(&self.content[i])
            };
            let ghost p = piece@;
            out.append(&mut piece);
            assert(out@ =~= before + p);
            i = i + 1;
        }
        assert(ws.take(self.content.len() as int) =~= ws);
        string_of(out.as_slice())
    }

    /// kebab-case: `brew-coffee`.
    pub fn to_kebab_case(&self) -> (r: String)
        ensures
            r@ == join_with(self@, '-'),
    {
        joined(&self.content, '-')
    }

    /// snake_case: `brew_coffee`.
    pub fn to_snake_case(&self) -> (r: String)
        ensures
            r@ == join_with(self@, '_'),
    {
        joined(&self.content, '_')
    }

    /// dot.case: `brew.coffee`.
    pub fn to_dot_case(&self) -> (r: String)
        ensures
            r@ == join_with(self@, '.'),
    {
        joined(&self.content, '.')
    }

    /// Title Case: `Brew Coffee`.
    pub fn to_title_case(&self) -> (r: String)
        ensures
            r@ == join_with(capitalized_words(self@), ' '),
    {
        let mut caps: Vec<String> = Vec::new();
        let mut i: usize = 0;
        while i < self.content.len()
            invariant
                0 <= i <= self.content.len(),
                strings_view(caps@) == capitalized_words(self@.take(i as int)),
            decreases self.content.len() - i,
        {
            let cs = capitalize(&self.content[i]);
            let w = string_of(cs.as_slice());
            let ghost before = caps@;
            caps.push(w);
            assert(strings_view(caps@) =~= strings_view(before).push(w@));
            assert(capitalized_words(self@.take(i + 1)) =~= capitalized_words(self@.take(i as int)).push(capitalized(self@[i as int])));
            i = i + 1;
        }
        assert(self@.take(self.content.len() as int) =~= self@);
        joined(&caps, ' ')
    }

    /// lower case: `brew coffee`.
    pub fn to_lower_case(&self) -> (r: String)
        ensures
            r@ == join_with(self@, ' '),
    {
        joined(&self.content, ' ')
    }

    /// UPPER CASE: `BREW COFFEE`.
    pub fn to_upper_case(&self) -> (r: String)
        ensures
            r@ == join_with(self@, ' ').map_values(|c: char| ascii_upper(c)),
    {
        let cs = join_chars(&self.content, ' ');
        let mut out: Vec<char> = Vec::new();
        let mut i: usize = 0;
        while i < cs.len()
            invariant
                0 <= i <= cs.len(),
                out@ == cs@.take(i as int).map_values(|c: char| ascii_upper(c)),
            decreases cs.len() - i,
        {
            let u = upper_char(cs[i]);
            out.push(u);
            assert(cs@.take(i + 1).map_values(|c: char| ascii_upper(c)) =~= cs@.take(i as int).map_values(|c: char| ascii_upper(c)).push(u));
            i = i + 1;
        }
        assert(cs@.take(cs.len() as int) =~= cs@);
        string_of(out.as_slice())
    }
}

impl From<String> for FormatProcesser {
    fn from(value: String) -> (r: Self)
        ensures
            r@ == text_words(value@),
            forall|i: int| 0 <= i < r@.len() ==> #[trigger] is_lower_word(r@[i]),
    {
        FormatProcesser::of_text(value.as_str())
    }
}

/// This impl goes with the `From` impl above, as Verus needs; no spec value
/// of a processer (it holds a `Vec`) can be written, so the conversion's contract is the
/// one stated on `from`.
impl vstd::std_specs::convert::FromSpecImpl<String> for FormatProcesser {
    open spec fn obeys_from_spec() -> bool {
        false
    }

    open spec fn from_spec(v: String) -> Self {
        arbitrary()
    }
}

impl<'a> From<&'a str> for FormatProcesser {
    fn from(value: &'a str) -> (r: Self)
        ensures
            r@ == text_words(value@),
            forall|i: int| 0 <= i < r@.len() ==> #[trigger] is_lower_word(r@[i]),
    {
        FormatProcesser::of_text(value)
    }
}

/// This impl goes with the `From` impl above, as Verus needs; no spec value
/// of a processer (it holds a `Vec`) can be written, so the conversion's contract is the
/// one stated on `from`.
impl<'a> vstd::std_specs::convert::FromSpecImpl<&'a str> for FormatProcesser {
    open spec fn obeys_from_spec() -> bool {
        false
    }

    open spec fn from_spec(v: &'a str) -> Self {
        arbitrary()
    }
}


/// Texts that every pass treats alike give the same squashed text: at each
/// position both characters are word characters and equal, or neither is,
/// and both are separators or neither is.
proof fn lemma_squash_alike(s1: Seq<char>, s2: Seq<char>)
    requires
        s1.len() == s2.len(),
        forall|k: int|
            0 <= k < s1.len() ==> (is_word_char(#[trigger] s1[k]) == is_word_char(s2[k])) && (is_word_char(s1[k])
                ==> s1[k] == s2[k]) && (is_separator(s1[k]) == is_separator(s2[k])),
    ensures
        squash_state(s1) == squash_state(s2),
    decreases s1.len(),
{
    if s1.len() > 0 {
        let k = s1.len() - 1;
        assert(is_word_char(s1[k]) == is_word_char(s2[k]));
        lemma_squash_alike(s1.drop_last(), s2.drop_last());
    }
}

/// A comma separates words exactly as an underscore does: replacing one by
/// the other anywhere leaves the words of the text unchanged.
pub proof fn lemma_comma_separates_like_underscore(a: Seq<char>, b: Seq<char>)
    ensures
        text_words(a + seq![','] + b) == text_words(a + seq!['_'] + b),
{
    let s1 = a + seq![','] + b;
    let s2 = a + seq!['_'] + b;
    assert forall|k: int|
        0 <= k < s1.len() implies (is_word_char(#[trigger] s1[k]) == is_word_char(s2[k])) && (is_word_char(s1[k])
        ==> s1[k] == s2[k]) && (is_separator(s1[k]) == is_separator(s2[k])) by {
        if k < a.len() {
            assert(s1[k] == a[k] && s2[k] == a[k]);
        } else if k == a.len() {
            assert(s1[k] == ',' && s2[k] == '_');
        } else {
            assert(s1[k] == b[k - a.len() - 1] && s2[k] == b[k - a.len() - 1]);
        }
    }
    lemma_squash_alike(s1, s2);
}

/// A word of lowercase ASCII letters.
pub open spec fn lowercase_word(w: Seq<char>) -> bool {
    w.len() > 0 && forall|k: int| 0 <= k < w.len() ==> 'a' <= #[trigger] w[k] <= 'z'
}

/// Squashing appends word characters as they are.
proof fn lemma_squash_word_tail(p: Seq<char>, w: Seq<char>)
    requires
        forall|k: int| 0 <= k < w.len() ==> 'a' <= #[trigger] w[k] <= 'z',
    ensures
        squash_state(p + w).0 == squash_state(p).0 + w,
        w.len() > 0 ==> !squash_state(p + w).1,
        w.len() == 0 ==> squash_state(p + w).1 == squash_state(p).1,
    decreases w.len(),
{
    if w.len() == 0 {
        assert(p + w =~= p);
    } else {
        let v = w.drop_last();
        assert((p + w).drop_last() =~= p + v);
        assert((p + w).last() == w.last());
        assert('a' <= w[w.len() - 1] <= 'z');
        lemma_squash_word_tail(p, v);
        assert(squash_state(p).0 + v + seq![w.last()] =~= squash_state(p).0 + w);
    }
}

/// With no uppercase letter, the camel-case pass changes nothing.
proof fn lemma_camel_split_no_upper(t: Seq<char>)
    requires
        forall|k: int| 0 <= k < t.len() ==> !is_upper(#[trigger] t[k]),
    ensures
        camel_split(t) == t,
    decreases t.len(),
{
    if t.len() > 0 {
        lemma_camel_split_no_upper(t.drop_last());
        assert(!is_upper(t[t.len() - 1]));
        assert(t.drop_last().push(t.last()) =~= t);
    }
}

/// Reading characters with no space adds them to the current word.
proof fn lemma_words_tail(p: Seq<char>, w: Seq<char>)
    requires
        forall|k: int| 0 <= k < w.len() ==> #[trigger] w[k] != ' ',
    ensures
        words_state(p + w) == (words_state(p).0, words_state(p).1 + w),
    decreases w.len(),
{
    if w.len() == 0 {
        assert(p + w =~= p);
        assert(words_state(p).1 + w =~= words_state(p).1);
    } else {
        let v = w.drop_last();
        assert((p + w).drop_last() =~= p + v);
        assert((p + w).last() == w.last());
        assert(w[w.len() - 1] != ' ');
        lemma_words_tail(p, v);
        assert(words_state(p).1 + v + seq![w.last()] =~= words_state(p).1 + w);
    }
}

/// Two lowercase words around any one separator (`_`, `,`, `.`, `-` or a
/// space) are read as those two words.
pub proof fn lemma_separator_splits_words(a: Seq<char>, sep: char, b: Seq<char>)
    requires
        lowercase_word(a),
        lowercase_word(b),
        sep == '_' || sep == ',' || sep == '.' || sep == '-' || sep == ' ',
    ensures
        text_words(a + seq![sep] + b) == seq![a, b],
{
    let e = Seq::<char>::empty();
    let t = a + seq![sep] + b;
    // First pass.
    lemma_squash_word_tail(e, a);
    assert(e + a =~= a);
    assert(squash_state(e) == (e, false));
    let sa = a + seq![sep];
    assert(sa.drop_last() =~= a);
    assert(squash_state(sa) == (a.push(' '), true));
    lemma_squash_word_tail(sa, b);
    assert(sa + b =~= t);
    let q = a + seq![' '] + b;
    assert(a.push(' ') + b =~= q);
    assert(squash_state(t).0 == q);
    // No uppercase letters: the second pass and lowercasing change nothing.
    assert forall|k: int| 0 <= k < q.len() implies !is_upper(#[trigger] q[k]) && ascii_lower(q[k]) == q[k] by {
        if k < a.len() {
            assert(q[k] == a[k]);
        } else if k > a.len() {
            assert(q[k] == b[k - a.len() - 1]);
        }
    }
    lemma_camel_split_no_upper(q);
    assert(q.map_values(|c: char| ascii_lower(c)) =~= q);
    // Splitting at the space.
    assert forall|k: int| 0 <= k < b.len() implies #[trigger] b[k] != ' ' by {
        assert('a' <= b[k] <= 'z');
    }
    assert forall|k: int| 0 <= k < a.len() implies #[trigger] a[k] != ' ' by {
        assert('a' <= a[k] <= 'z');
    }
    lemma_words_of_two(a, b);
}

/// Two non-empty pieces without spaces, one space between them, are read
/// as those two words.
proof fn lemma_words_of_two(a: Seq<char>, b: Seq<char>)
    requires
        a.len() > 0,
        b.len() > 0,
        forall|k: int| 0 <= k < a.len() ==> #[trigger] a[k] != ' ',
        forall|k: int| 0 <= k < b.len() ==> #[trigger] b[k] != ' ',
    ensures
        words(a + seq![' '] + b) == seq![a, b],
{
    let e = Seq::<char>::empty();
    let q = a + seq![' '] + b;
    lemma_words_tail(e, a);
    assert(e + a =~= a);
    assert(words_state(e) == (Seq::<Seq<char>>::empty(), e));
    assert(words_state(a).1 =~= a);
    let qa = a + seq![' '];
    assert(qa.drop_last() =~= a);
    assert(words_state(qa) == (seq![a], e));
    lemma_words_tail(qa, b);
    assert(qa + b =~= q);
    assert(e + b =~= b);
    assert(words(q) =~= seq![a, b]);
}

/// The camel-case pass keeps a tail without uppercase letters as it is.
proof fn lemma_camel_split_tail(p: Seq<char>, w: Seq<char>)
    requires
        forall|k: int| 0 <= k < w.len() ==> !is_upper(#[trigger] w[k]),
    ensures
        camel_split(p + w) == camel_split(p) + w,
    decreases w.len(),
{
    if w.len() == 0 {
        assert(p + w =~= p);
        assert(camel_split(p) + w =~= camel_split(p));
    } else {
        let v = w.drop_last();
        assert((p + w).drop_last() =~= p + v);
        assert((p + w).last() == w.last());
        assert(!is_upper(w[w.len() - 1]));
        lemma_camel_split_tail(p, v);
        assert(camel_split(p) + v + seq![w.last()] =~= camel_split(p) + w);
    }
}

/// A lowercase word followed by a word that starts with an uppercase letter
/// (`redGreen`) is read as two words, the second one lowercased: the
/// uppercase letter after a lowercase one starts a new word.
pub proof fn lemma_camel_hump_splits_words(a: Seq<char>, b: Seq<char>)
    requires
        lowercase_word(a),
        b.len() > 0,
        'A' <= b[0] <= 'Z',
        forall|k: int| 1 <= k < b.len() ==> 'a' <= #[trigger] b[k] <= 'z',
    ensures
        text_words(a + b).len() == 2,
        text_words(a + b)[0] == a,
        text_words(a + b)[1].len() == b.len(),
        text_words(a + b)[1][0] as int == b[0] as int + 32,
        forall|k: int| 1 <= k < b.len() ==> #[trigger] text_words(a + b)[1][k] == b[k],
{
    let e = Seq::<char>::empty();
    let u = b[0];
    let r = b.drop_first();
    let t = a + b;
    assert forall|k: int| 0 <= k < r.len() implies 'a' <= #[trigger] r[k] <= 'z' by {
        assert(r[k] == b[k + 1]);
    }
    // First pass: every character is a letter, kept as it is.
    lemma_squash_word_tail(e, a);
    assert(e + a =~= a);
    assert(squash_state(e) == (e, false));
    let au = a.push(u);
    assert(au.drop_last() =~= a);
    assert(squash_state(au) == (au, false));
    lemma_squash_word_tail(au, r);
    assert(au + r =~= t);
    assert(squash_state(t).0 == t);
    // Second pass: a space before the uppercase letter.
    assert forall|k: int| 0 <= k < a.len() implies !is_upper(#[trigger] a[k]) by {
        assert('a' <= a[k] <= 'z');
    }
    lemma_camel_split_no_upper(a);
    assert(au.len() >= 2 && is_lower(au[au.len() - 2]) && is_upper(au.last())) by {
        assert(au[au.len() - 2] == a[a.len() - 1]);
        assert('a' <= a[a.len() - 1] <= 'z');
    }
    assert(camel_split(au) == a.push(' ').push(u));
    assert forall|k: int| 0 <= k < r.len() implies !is_upper(#[trigger] r[k]) by {
        assert('a' <= r[k] <= 'z');
    }
    lemma_camel_split_tail(au, r);
    let c = a.push(' ').push(u) + r;
    assert(camel_split(t) == c);
    // Lowercasing.
    let lu = ascii_lower(u);
    let b2 = seq![lu] + r;
    let q = a + seq![' '] + b2;
    let m = c.map_values(|ch: char| ascii_lower(ch));
    assert forall|k: int| 0 <= k < m.len() implies #[trigger] m[k] == q[k] by {
        if k < a.len() {
            assert(c[k] == a[k]);
            assert('a' <= a[k] <= 'z');
        } else if k == a.len() {
            assert(c[k] == ' ');
        } else if k == a.len() + 1 {
            assert(c[k] == u);
        } else {
            assert(c[k] == r[k - a.len() - 2]);
            assert('a' <= r[k - a.len() - 2] <= 'z');
        }
    }
    assert(m =~= q);
    assert(lu as int == u as int + 32);
    assert forall|k: int| 0 <= k < a.len() implies #[trigger] a[k] != ' ' by {
        assert('a' <= a[k] <= 'z');
    }
    assert forall|k: int| 0 <= k < b2.len() implies #[trigger] b2[k] != ' ' by {
        if k > 0 {
            assert(b2[k] == r[k - 1]);
            assert('a' <= r[k - 1] <= 'z');
        }
    }
    lemma_words_of_two(a, b2);
    assert forall|k: int| 1 <= k < b.len() implies #[trigger] b2[k] == b[k] by {
        assert(b2[k] == r[k - 1]);
    }
}

} // verus!
