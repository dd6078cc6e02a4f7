//! Placeholders of constant text: the names written between `{` and `}`,
//! which become the parameters of a constant's formatting function.
use vstd::prelude::*;
use crate::text::{chars_of, string_of, strings_view};

verus! {

/// Position of the first `}` at or after `k`.
pub open spec fn close_from(s: Seq<char>, k: int) -> Option<int>
    decreases s.len() - k,
{
    if k < 0 || k >= s.len() {
        None
    } else if s[k] == '}' {
        Some(k)
    } else {
        close_from(s, k + 1)
    }
}

/// The placeholders that start at or after position `i`: each `{` opens
/// one that runs to the next `}` (a `{` inside it is part of the name);
/// empty names are skipped, and a `{` with no `}` after it ends the scan.
pub open spec fn placeholders_from(s: Seq<char>, i: int) -> Seq<Seq<char>>
    decreases s.len() - i, 1int,
{
    if i < 0 || i >= s.len() {
        Seq::empty()
    } else if s[i] == '{' {
        match close_from(s, i + 1) {
            Some(j) => if j < i + 1 || j >= s.len() {
                Seq::empty()
            } else {
                (if j > i + 1 {
                    seq![s.subrange(i + 1, j)]
                } else {
                    Seq::empty()
                }) + placeholders_from(s, j + 1)
            },
            None => Seq::empty(),
        }
    } else {
        placeholders_from(s, i + 1)
    }
}

/// The placeholders of the text, in order.
pub open spec fn placeholders(s: Seq<char>) -> Seq<Seq<char>> {
    placeholders_from(s, 0)
}

/// A `}` found from `k` lies in the text, and no `}` comes before it.
proof fn lemma_close_from(s: Seq<char>, k: int)
    requires
        0 <= k,
    ensures
        close_from(s, k) matches Some(j) ==> k <= j < s.len() && s[j] == '}' && forall|x: int| k <= x < j ==> s[x] != '}',
        close_from(s, k) is None ==> forall|x: int| k <= x < s.len() ==> s[x] != '}',
    decreases s.len() - k,
{
    if k < s.len() && s[k] != '}' {
        lemma_close_from(s, k + 1);
    }
}

/// The names between `{` and `}` in the text, in order, without empty
/// ones.
pub fn extract_placeholder_params(value_str: &str) -> (r: Vec<String>)
    ensures
        strings_view(r@) == placeholders(value_str@),
{
    let chars = chars_of(value_str);
    let ghost s = chars@;
    let mut params: Vec<String> = Vec::new();
    let mut i: usize = 0;
    while i < chars.len()
        invariant
            s == chars@,
            s == value_str@,
            i <= chars.len(),
            strings_view(params@) + placeholders_from(s, i as int) == placeholders(s),
        decreases chars.len() - i,
    {
        if chars[i] == '{' {
            let start = i;
            i = i + 1;
            proof {
                lemma_close_from(s, i as int);
            }
            let mut name: Vec<char> = Vec::new();
            while i < chars.len() && chars[i] != '}'
                invariant
                    s == chars@,
                    start < i <= chars.len(),
                    close_from(s, start + 1) == close_from(s, i as int),
                    name@ == s.subrange(start + 1, i as int),
                decreases chars.len() - i,
            {
                name.push(chars[i]);
                assert(name@ =~= s.subrange(start + 1, i + 1));
                i = i + 1;
            }
            if i < chars.len() && chars[i] == '}' {
                let ghost before = strings_view(params@);
                assert(close_from(s, start + 1) == Some(i as int));
                if i > start + 1 {
                    let param = string_of(name.as_slice());
                    params.push(param);
                    assert(strings_view(params@) =~= before.push(s.subrange(start + 1, i as int)));
                    assert(before + placeholders_from(s, start as int) =~= strings_view(params@) + placeholders_from(s, i + 1));
                } else {
                    assert(before + placeholders_from(s, start as int) =~= before + placeholders_from(s, i + 1));
                }
            } else {
                assert(close_from(s, start + 1) is None);
                assert(placeholders_from(s, start as int) =~= Seq::<Seq<char>>::empty());
                assert(strings_view(params@) + placeholders_from(s, i as int) =~= strings_view(params@));
            }
        }
        if i < chars.len() {
            i = i + 1;
        }
    }
    assert(strings_view(params@) + placeholders_from(s, i as int) =~= strings_view(params@));
    params
}

} // verus!
