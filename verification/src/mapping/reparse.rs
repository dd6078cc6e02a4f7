//! The text form of a local mapping reads back as the same mapping.
use vstd::prelude::*;
use crate::index_source::{display_spec, index_source_from_text, lemma_decimal_bounded, lemma_display_parses, IndexSource};
use crate::mapping::{formatted_path, joined, local_mapping_valid, local_mapping_display, path_nodes, quoted, source_display, ForwardView, LocalMappingView};
use crate::mapping::parse::{drop_quotes, find_op, mapping_form_spec, parse_mapping_spec, split_arrows, strip_quotes, strip_quotes_end, strip_quotes_start, unquote, versioned};
use crate::text::{decimal, free_of, is_digit, is_ws, join_with, lemma_decimal_parses, lemma_split_join, trim, trim_end, trim_start};

verus! {

/// The two-character operator `ab` occurs nowhere in the text.
pub open spec fn no_pair(t: Seq<char>, a: char, b: char) -> bool {
    forall|j: int| #![trigger t[j]] 0 <= j && j + 1 < t.len() ==> !(t[j] == a && t[j + 1] == b)
}

/// Text that the text form carries unchanged between quotes: not empty, no
/// `"`, no white space at either end, and neither `=>` nor `==` inside.
pub open spec fn plain_text(t: Seq<char>) -> bool {
    &&& t.len() > 0
    &&& forall|j: int| 0 <= j < t.len() ==> #[trigger] t[j] != '"'
    &&& !is_ws(t[0])
    &&& !is_ws(t.last())
    &&& no_pair(t, '=', '>')
    &&& no_pair(t, '=', '=')
}

spec fn tq() -> Seq<char> {
    seq!['"', ' ']
}

spec fn hq() -> Seq<char> {
    seq![' ', '"']
}

spec fn ar() -> Seq<char> {
    seq!['=', '>']
}

spec fn eq() -> Seq<char> {
    seq!['=', '=']
}

spec fn shift(o: Option<int>, d: int) -> Option<int> {
    match o {
        Some(k) => Some(k + d),
        None => None,
    }
}

proof fn lemma_no_pair_concat(x: Seq<char>, y: Seq<char>, a: char, b: char)
    requires
        no_pair(x, a, b),
        no_pair(y, a, b),
        x.len() > 0 && y.len() > 0 ==> !(x.last() == a && y[0] == b),
    ensures
        no_pair(x + y, a, b),
{
    let z = x + y;
    assert forall|j: int| #![trigger z[j]] 0 <= j && j + 1 < z.len() implies !(z[j] == a && z[j + 1] == b) by {
        if j + 1 < x.len() {
            assert(z[j] == x[j] && z[j + 1] == x[j + 1]);
        } else if j + 1 == x.len() {
            assert(z[j] == x.last() && z[j + 1] == y[0]);
        } else {
            assert(z[j] == y[j - x.len()] && z[j + 1] == y[j + 1 - x.len()]);
        }
    }
}

/// An operator that does not occur in `x` nor across its end is found in
/// `x + y` where it is found in `y`, shifted by the length of `x`.
proof fn lemma_find_op_skip(x: Seq<char>, y: Seq<char>, a: char, b: char)
    requires
        no_pair(x, a, b),
        x.len() > 0 && y.len() > 0 ==> !(x.last() == a && y[0] == b),
    ensures
        find_op(x + y, a, b) == shift(find_op(y, a, b), x.len() as int),
    decreases x.len(),
{
    let z = x + y;
    if x.len() == 0 {
        assert(z =~= y);
    } else {
        let x1 = x.drop_first();
        assert(z.drop_first() =~= x1 + y);
        assert(no_pair(x1, a, b)) by {
            assert forall|j: int| #![trigger x1[j]] 0 <= j && j + 1 < x1.len() implies !(x1[j] == a && x1[j + 1] == b) by {
                assert(x1[j] == x[j + 1] && x1[j + 1] == x[j + 2]);
            }
        }
        if x1.len() > 0 {
            assert(x1.last() == x.last());
        }
        lemma_find_op_skip(x1, y, a, b);
        if z.len() >= 2 {
            if x.len() >= 2 {
                assert(z[0] == x[0] && z[1] == x[1]);
            } else {
                assert(z[0] == x.last() && z[1] == y[0]);
            }
        } else {
            assert(y.len() == 0);
        }
    }
}

/// An operator that occurs nowhere is not found.
proof fn lemma_find_op_absent(s: Seq<char>, a: char, b: char)
    requires
        no_pair(s, a, b),
    ensures
        find_op(s, a, b) is None,
{
    lemma_find_op_skip(s, Seq::<char>::empty(), a, b);
    assert(s + Seq::<char>::empty() =~= s);
}

proof fn lemma_plain_pairs(t: Seq<char>)
    requires
        plain_text(t),
    ensures
        t[0] != '"',
        t.last() != '"',
{
    assert(t[t.len() - 1] != '"');
    assert(t[0] != '"');
    assert(!is_ws(t[0]));
}

/// `drop_quotes` works piecewise.
proof fn lemma_drop_quotes_concat(a: Seq<char>, b: Seq<char>)
    ensures
        drop_quotes(a + b) == drop_quotes(a) + drop_quotes(b),
    decreases b.len(),
{
    if b.len() == 0 {
        assert(a + b =~= a);
        assert(drop_quotes(a) + drop_quotes(b) =~= drop_quotes(a));
    } else {
        assert((a + b).drop_last() =~= a + b.drop_last());
        assert((a + b).last() == b.last());
        lemma_drop_quotes_concat(a, b.drop_last());
        if b.last() != '"' {
            assert(drop_quotes(a) + drop_quotes(b.drop_last()).push(b.last()) =~= (drop_quotes(a)
                + drop_quotes(b.drop_last())).push(b.last()));
        }
    }
}

/// Text without `"` is its own `drop_quotes`.
proof fn lemma_drop_quotes_plain(x: Seq<char>)
    requires
        forall|j: int| 0 <= j < x.len() ==> #[trigger] x[j] != '"',
    ensures
        drop_quotes(x) == x,
    decreases x.len(),
{
    if x.len() > 0 {
        assert(x.last() == x[x.len() - 1]);
        lemma_drop_quotes_plain(x.drop_last());
        assert(x.drop_last().push(x.last()) =~= x);
    }
}

/// Plain text read between optional quote-and-space padding reads back
/// unchanged.
proof fn lemma_unquote(x: Seq<char>, front: bool, back: bool)
    requires
        plain_text(x),
    ensures
        unquote((if front { hq() } else { Seq::<char>::empty() }) + x + (if back { tq() } else {
            Seq::<char>::empty()
        })) == x,
{
    let q = seq!['"'];
    let e = Seq::<char>::empty();
    let pre = if front { hq() } else { e };
    let post = if back { tq() } else { e };
    let pre1 = if front { q } else { e };
    let post1 = if back { q } else { e };
    let w = pre + x + post;
    let u = pre1 + x + post;
    let v = pre1 + x + post1;
    assert(is_ws(' '));
    assert(!is_ws('"'));
    if front {
        assert(w[0] == ' ');
        assert(w.drop_first() =~= u);
        assert(u[0] == '"');
        assert(trim_start(u) == u);
        assert(trim_start(w) == trim_start(u));
    } else {
        assert(w =~= u);
        assert(u[0] == x[0]);
        assert(trim_start(u) == u);
    }
    assert(trim_start(w) == u);
    if back {
        assert(u.last() == ' ');
        assert(u.drop_last() =~= v);
        assert(v.last() == '"');
        assert(trim_end(v) == v);
        assert(trim_end(u) == trim_end(v));
    } else {
        assert(u =~= v);
        assert(v.last() == x.last());
        assert(trim_end(v) == v);
    }
    assert(trim(w) == v);
    lemma_drop_quotes_concat(pre1 + x, post1);
    lemma_drop_quotes_concat(pre1, x);
    lemma_drop_quotes_plain(x);
    assert(q.drop_last() =~= e);
    assert(drop_quotes(q) == drop_quotes(e));
    assert(drop_quotes(e) =~= e);
    assert(drop_quotes(pre1) =~= e);
    assert(drop_quotes(post1) =~= e);
    assert(drop_quotes(v) =~= x);
    assert(trim_start(x) == x);
    assert(trim_end(x) == x);
}

/// Text between one pair of quotes loses exactly those quotes.
proof fn lemma_strip(c: Seq<char>)
    requires
        c.len() > 0,
        c[0] != '"',
        c.last() != '"',
    ensures
        strip_quotes(seq!['"'] + c + seq!['"']) == c,
{
    let t = seq!['"'] + c + seq!['"'];
    let u = c + seq!['"'];
    assert(t.drop_first() =~= u);
    assert(u[0] == c[0]);
    assert(strip_quotes_start(u) == u);
    assert(strip_quotes_start(t) == u);
    assert(u.drop_last() =~= c);
    assert(strip_quotes_end(c) == c);
    assert(strip_quotes_end(u) == c);
}

/// Digits, `/` and `~` make plain text.
proof fn lemma_plain_safe(t: Seq<char>)
    requires
        t.len() > 0,
        forall|j: int| 0 <= j < t.len() ==> is_digit(#[trigger] t[j]) || t[j] == '/' || t[j] == '~',
    ensures
        plain_text(t),
{
    assert forall|j: int| 0 <= j < t.len() implies #[trigger] t[j] != '"' && !is_ws(t[j]) && t[j] != '=' by {
        assert(is_digit(t[j]) || t[j] == '/' || t[j] == '~');
    }
    assert(t.last() == t[t.len() - 1]);
    assert(no_pair(t, '=', '>')) by {
        assert forall|j: int| #![trigger t[j]] 0 <= j && j + 1 < t.len() implies !(t[j] == '=' && t[j + 1] == '>') by {
            assert(t[j] != '=');
        }
    }
    assert(no_pair(t, '=', '=')) by {
        assert forall|j: int| #![trigger t[j]] 0 <= j && j + 1 < t.len() implies !(t[j] == '=' && t[j + 1] == '=') by {
            assert(t[j] != '=');
        }
    }
}

/// The decimal text of a number is plain.
proof fn lemma_plain_decimal(n: nat)
    ensures
        plain_text(decimal(n)),
{
    lemma_decimal_parses(n);
    let d = decimal(n);
    assert forall|j: int| 0 <= j < d.len() implies is_digit(#[trigger] d[j]) || d[j] == '/' || d[j]
        == '~' by {
    }
    lemma_plain_safe(d);
}

/// The text of an index source is plain.
proof fn lemma_plain_source(remote: bool, id: u32, ver: u16)
    ensures
        plain_text(display_spec(remote, id, ver)),
{
    let a = decimal(id as nat);
    let b = decimal(ver as nat);
    lemma_decimal_parses(id as nat);
    lemma_decimal_parses(ver as nat);
    let body = a + seq!['/'] + b;
    assert forall|j: int| 0 <= j < body.len() implies is_digit(#[trigger] body[j]) || body[j] == '/'
        || body[j] == '~' by {
        if j < a.len() {
            assert(body[j] == a[j]);
        } else if j > a.len() {
            assert(body[j] == b[j - a.len() - 1]);
        }
    }
    if remote {
        lemma_plain_safe(body);
    } else {
        let t = seq!['~'] + body;
        assert forall|j: int| 0 <= j < t.len() implies is_digit(#[trigger] t[j]) || t[j] == '/' || t[j]
            == '~' by {
            if j > 0 {
                assert(t[j] == body[j - 1]);
            }
        }
        lemma_plain_safe(t);
    }
}

/// Pieces that hold no `=>` between them.
proof fn lemma_no_arrow(p: Seq<char>)
    requires
        plain_text(p),
    ensures
        no_pair(p + tq(), '=', '>'),
        no_pair(p + tq(), '=', '='),
        no_pair(hq() + p, '=', '>'),
        no_pair(hq() + p, '=', '='),
        no_pair(hq() + p + tq(), '=', '>'),
        no_pair(hq() + p + tq(), '=', '='),
        (p + tq()).last() == ' ',
        (hq() + p + tq()).last() == ' ',
{
    lemma_plain_pairs(p);
    assert(no_pair(tq(), '=', '>'));
    assert(no_pair(tq(), '=', '='));
    assert(no_pair(hq(), '=', '>'));
    assert(no_pair(hq(), '=', '='));
    assert(tq()[0] == '"');
    assert(hq().last() == '"');
    lemma_no_pair_concat(p, tq(), '=', '>');
    lemma_no_pair_concat(p, tq(), '=', '=');
    lemma_no_pair_concat(hq(), p, '=', '>');
    lemma_no_pair_concat(hq(), p, '=', '=');
    assert(hq() + p + tq() =~= hq() + (p + tq()));
    lemma_no_pair_concat(hq(), p + tq(), '=', '>');
    lemma_no_pair_concat(hq(), p + tq(), '=', '=');
}

/// `p => s`: the pieces that the parser sees.
proof fn lemma_latest_parts(p: Seq<char>, s: Seq<char>)
    requires
        plain_text(p),
        plain_text(s),
    ensures
        ({
            let t = p + tq() + ar() + hq() + s;
            &&& find_op(t, '=', '>') == Some(p.len() as int + 2)
            &&& t.skip(p.len() as int + 4) == hq() + s
            &&& find_op(hq() + s, '=', '=') is None
            &&& split_arrows(t) == seq![p + tq(), hq() + s]
        }),
{
    let t = p + tq() + ar() + hq() + s;
    lemma_no_arrow(p);
    lemma_no_arrow(s);
    let y = ar() + hq() + s;
    assert(y[0] == '=' && y[1] == '>');
    assert(find_op(y, '=', '>') == Some(0int));
    lemma_find_op_skip(p + tq(), y, '=', '>');
    assert(t =~= (p + tq()) + y);
    assert(t.take(p.len() as int + 2) =~= p + tq());
    assert(t.skip(p.len() as int + 4) =~= hq() + s);
    lemma_find_op_absent(hq() + s, '=', '>');
    lemma_find_op_absent(hq() + s, '=', '=');
    assert(split_arrows(hq() + s) == seq![hq() + s]);
    assert(split_arrows(t) == seq![p + tq()] + split_arrows(hq() + s));
    assert(seq![p + tq()] + seq![hq() + s] =~= seq![p + tq(), hq() + s]);
}

/// `p => s => r`: the pieces that the parser sees.
proof fn lemma_ref_parts(p: Seq<char>, s: Seq<char>, r: Seq<char>)
    requires
        plain_text(p),
        plain_text(s),
        plain_text(r),
    ensures
        ({
            let t = p + tq() + ar() + hq() + s + tq() + ar() + hq() + r;
            &&& find_op(t, '=', '>') == Some(p.len() as int + 2)
            &&& find_op(t.skip(p.len() as int + 4), '=', '=') is None
            &&& split_arrows(t) == seq![p + tq(), hq() + s + tq(), hq() + r]
        }),
{
    let t = p + tq() + ar() + hq() + s + tq() + ar() + hq() + r;
    lemma_no_arrow(p);
    lemma_no_arrow(s);
    lemma_no_arrow(r);
    let y = ar() + hq() + s + tq() + ar() + hq() + r;
    assert(y[0] == '=' && y[1] == '>');
    assert(find_op(y, '=', '>') == Some(0int));
    lemma_find_op_skip(p + tq(), y, '=', '>');
    assert(t =~= (p + tq()) + y);
    assert(t.take(p.len() as int + 2) =~= p + tq());
    let after = hq() + s + tq() + ar() + hq() + r;
    assert(t.skip(p.len() as int + 4) =~= after);
    // The rest holds one more `=>` and no `==`.
    let m = hq() + s + tq();
    let y2 = ar() + hq() + r;
    assert(y2[0] == '=' && y2[1] == '>');
    assert(find_op(y2, '=', '>') == Some(0int));
    lemma_find_op_skip(m, y2, '=', '>');
    assert(after =~= m + y2);
    assert(no_pair(ar(), '=', '='));
    lemma_no_pair_concat(ar(), hq() + r, '=', '=');
    assert(ar() + (hq() + r) =~= y2);
    lemma_no_pair_concat(m, y2, '=', '=');
    lemma_find_op_absent(after, '=', '=');
    assert(after.take(m.len() as int) =~= m);
    assert(after.skip(m.len() as int + 2) =~= hq() + r);
    lemma_find_op_absent(hq() + r, '=', '>');
    assert(split_arrows(hq() + r) == seq![hq() + r]);
    assert(split_arrows(after) == seq![m] + split_arrows(hq() + r));
    assert(split_arrows(t) == seq![p + tq()] + split_arrows(after));
    assert(seq![p + tq()] + (seq![m] + seq![hq() + r]) =~= seq![p + tq(), m, hq() + r]);
}

/// `p == s`: the pieces that the parser sees.
proof fn lemma_pinned_parts(p: Seq<char>, s: Seq<char>)
    requires
        plain_text(p),
        plain_text(s),
    ensures
        ({
            let t = p + tq() + eq() + hq() + s;
            &&& find_op(t, '=', '>') is None
            &&& split_arrows(t) == seq![t]
            &&& find_op(t, '=', '=') == Some(p.len() as int + 2)
            &&& t.take(p.len() as int + 2) == p + tq()
            &&& t.skip(p.len() as int + 4) == hq() + s
        }),
{
    let t = p + tq() + eq() + hq() + s;
    lemma_no_arrow(p);
    lemma_no_arrow(s);
    let y = eq() + hq() + s;
    assert(y[0] == '=' && y[1] == '=');
    assert(find_op(y, '=', '=') == Some(0int));
    lemma_find_op_skip(p + tq(), y, '=', '=');
    assert(t =~= (p + tq()) + y);
    assert(no_pair(eq(), '=', '>'));
    lemma_no_pair_concat(eq(), hq() + s, '=', '>');
    assert(eq() + (hq() + s) =~= y);
    lemma_no_pair_concat(p + tq(), y, '=', '>');
    lemma_find_op_absent(t, '=', '>');
    assert(split_arrows(t) == seq![t]);
    assert(t.take(p.len() as int + 2) =~= p + tq());
    assert(t.skip(p.len() as int + 4) =~= hq() + s);
}

/// `p => s == v`: the pieces that the parser sees.
proof fn lemma_versioned_parts(p: Seq<char>, s: Seq<char>, v: Seq<char>)
    requires
        plain_text(p),
        plain_text(s),
        plain_text(v),
    ensures
        ({
            let t = p + tq() + ar() + hq() + s + tq() + eq() + hq() + v;
            let after = t.skip(p.len() as int + 4);
            &&& find_op(t, '=', '>') == Some(p.len() as int + 2)
            &&& t.take(p.len() as int + 2) == p + tq()
            &&& find_op(after, '=', '=') == Some(s.len() as int + 4)
            &&& after.take(s.len() as int + 4) == hq() + s + tq()
            &&& after.skip(s.len() as int + 6) == hq() + v
        }),
{
    let t = p + tq() + ar() + hq() + s + tq() + eq() + hq() + v;
    lemma_no_arrow(p);
    lemma_no_arrow(s);
    let y = ar() + hq() + s + tq() + eq() + hq() + v;
    assert(y[0] == '=' && y[1] == '>');
    assert(find_op(y, '=', '>') == Some(0int));
    lemma_find_op_skip(p + tq(), y, '=', '>');
    assert(t =~= (p + tq()) + y);
    assert(t.take(p.len() as int + 2) =~= p + tq());
    let after = hq() + s + tq() + eq() + hq() + v;
    assert(t.skip(p.len() as int + 4) =~= after);
    let m = hq() + s + tq();
    let y2 = eq() + hq() + v;
    assert(y2[0] == '=' && y2[1] == '=');
    assert(find_op(y2, '=', '=') == Some(0int));
    lemma_find_op_skip(m, y2, '=', '=');
    assert(after =~= m + y2);
    assert(after.take(s.len() as int + 4) =~= m);
    assert(after.skip(s.len() as int + 6) =~= hq() + v);
}

/// Facts shared by the four forms: the path and the source read back.
spec fn reads_back(p: Seq<char>, s: Seq<char>, val: Seq<Seq<char>>, src: IndexSource) -> bool {
    &&& plain_text(p)
    &&& plain_text(s)
    &&& path_nodes(p) == val
    &&& index_source_from_text(s) == Ok::<IndexSource, &'static str>(src)
}

proof fn lemma_common(p: Seq<char>, s: Seq<char>)
    requires
        plain_text(p),
        plain_text(s),
    ensures
        unquote(p + tq()) == p,
        unquote(hq() + s + tq()) == s,
        unquote(hq() + s) == s,
{
    lemma_unquote(p, false, true);
    lemma_unquote(s, true, true);
    lemma_unquote(s, true, false);
    assert(Seq::<char>::empty() + p + tq() =~= p + tq());
    assert(hq() + s + Seq::<char>::empty() =~= hq() + s);
}

proof fn lemma_stripped(p: Seq<char>, c: Seq<char>, z: Seq<char>)
    requires
        plain_text(p),
        plain_text(z),
        c.len() >= p.len() + z.len(),
        c.take(p.len() as int) == p,
        c.skip(c.len() - z.len()) == z,
    ensures
        strip_quotes(seq!['"'] + c + seq!['"']) == c,
{
    lemma_plain_pairs(p);
    lemma_plain_pairs(z);
    assert(c[0] == c.take(p.len() as int)[0]);
    assert(c.last() == c.skip(c.len() - z.len())[z.len() - 1]);
    lemma_strip(c);
}

#[verifier::spinoff_prover]
proof fn lemma_reparse_latest(p: Seq<char>, s: Seq<char>, val: Seq<Seq<char>>, src: IndexSource)
    requires
        reads_back(p, s, val, src),
    ensures
        mapping_form_spec(seq!['"'] + (p + tq() + ar() + hq() + s) + seq!['"']) == Some(
            LocalMappingView { val, source: src, forward: ForwardView::Latest },
        ),
{
    let c = p + tq() + ar() + hq() + s;
    assert(c.take(p.len() as int) =~= p);
    assert(c.skip(c.len() - s.len()) =~= s);
    lemma_stripped(p, c, s);
    lemma_latest_parts(p, s);
    lemma_common(p, s);
    let parts = split_arrows(c);
    assert(parts.len() == 2 && parts[0] == p + tq() && parts[1] == hq() + s);
    assert(!(find_op(c.skip(p.len() as int + 4), '=', '=') is Some));
}

#[verifier::spinoff_prover]
proof fn lemma_reparse_ref(p: Seq<char>, s: Seq<char>, r: Seq<char>, val: Seq<Seq<char>>, src: IndexSource)
    requires
        reads_back(p, s, val, src),
        plain_text(r),
    ensures
        mapping_form_spec(seq!['"'] + (p + tq() + ar() + hq() + s + tq() + ar() + hq() + r) + seq!['"'])
            == Some(LocalMappingView { val, source: src, forward: ForwardView::Ref(r) }),
{
    let c = p + tq() + ar() + hq() + s + tq() + ar() + hq() + r;
    assert(c.take(p.len() as int) =~= p);
    assert(c.skip(c.len() - r.len()) =~= r);
    lemma_stripped(p, c, r);
    lemma_ref_parts(p, s, r);
    lemma_common(p, s);
    lemma_unquote(r, true, false);
    assert(hq() + r + Seq::<char>::empty() =~= hq() + r);
    let parts = split_arrows(c);
    assert(parts.len() == 3 && parts[0] == p + tq() && parts[1] == hq() + s + tq() && parts[2] == hq() + r);
    assert(!(find_op(c.skip(p.len() as int + 4), '=', '=') is Some));
}

#[verifier::spinoff_prover]
proof fn lemma_reparse_pinned(p: Seq<char>, s: Seq<char>, val: Seq<Seq<char>>, src: IndexSource)
    requires
        reads_back(p, s, val, src),
    ensures
        mapping_form_spec(seq!['"'] + (p + tq() + eq() + hq() + s) + seq!['"']) == Some(
            LocalMappingView { val, source: src, forward: ForwardView::Version(src.spec_ver()) },
        ),
{
    let c = p + tq() + eq() + hq() + s;
    assert(c.take(p.len() as int) =~= p);
    assert(c.skip(c.len() - s.len()) =~= s);
    lemma_stripped(p, c, s);
    lemma_pinned_parts(p, s);
    lemma_common(p, s);
}

#[verifier::spinoff_prover]
proof fn lemma_reparse_versioned(p: Seq<char>, s: Seq<char>, v: u16, val: Seq<Seq<char>>, src: IndexSource)
    requires
        reads_back(p, s, val, src),
    ensures
        mapping_form_spec(
            seq!['"'] + (p + tq() + ar() + hq() + s + tq() + eq() + hq() + decimal(v as nat)) + seq!['"'],
        ) == Some(LocalMappingView { val, source: src, forward: ForwardView::Version(v) }),
{
    let d = decimal(v as nat);
    let c = p + tq() + ar() + hq() + s + tq() + eq() + hq() + d;
    lemma_plain_decimal(v as nat);
    assert(c.take(p.len() as int) =~= p);
    assert(c.skip(c.len() - d.len()) =~= d);
    lemma_stripped(p, c, d);
    lemma_versioned_parts(p, s, d);
    lemma_common(p, s);
    lemma_unquote(d, true, false);
    assert(hq() + d + Seq::<char>::empty() =~= hq() + d);
    lemma_decimal_bounded(v as nat, u16::MAX as nat);
}

/// The text form of a mapping without its outer quotes.
spec fn display_core(m: LocalMappingView) -> Seq<char> {
    let p = joined(m.val);
    let s = source_display(m.source);
    match m.forward {
        ForwardView::Latest => p + tq() + ar() + hq() + s,
        ForwardView::Ref(name) => p + tq() + ar() + hq() + s + tq() + ar() + hq() + name,
        ForwardView::Version(v) => if v == m.source.spec_ver() {
            p + tq() + eq() + hq() + s
        } else {
            p + tq() + ar() + hq() + s + tq() + eq() + hq() + decimal(v as nat)
        },
    }
}

#[verifier::spinoff_prover]
#[verifier::rlimit(40)]
proof fn lemma_display_form(m: LocalMappingView)
    ensures
        local_mapping_display(m) == seq!['"'] + display_core(m) + seq!['"'],
{
    reveal_strlit("\"");
    reveal_strlit(" => ");
    reveal_strlit(" == ");
    assert(local_mapping_display(m) =~= seq!['"'] + display_core(m) + seq!['"']);
}

/// A local mapping reads back from its text form when its path and the
/// sheet it may follow come back unchanged: the joined path is plain (not
/// empty, no `"`, no white space at either end, neither `=>` nor `==`) and
/// already in the form that path normalization gives, no node holds `/`,
/// a followed sheet's name is plain, and the mapping obeys the sheet
/// format's length rule (as every mapping made by `LocalMapping::new` does).
pub proof fn lemma_display_reparses(m: LocalMappingView)
    requires
        plain_text(joined(m.val)),
        free_of(m.val, '/'),
        formatted_path(joined(m.val), true) == joined(m.val),
        m.forward matches ForwardView::Ref(name) ==> plain_text(name),
        local_mapping_valid(m.val, m.forward),
    ensures
        parse_mapping_spec(local_mapping_display(m)) == Some(m),
{
    let p = joined(m.val);
    let src = m.source;
    let s = source_display(src);
    if m.val.len() == 0 {
        assert(p.len() == 0);
    }
    lemma_split_join(m.val, '/');
    lemma_plain_source(src.spec_remote(), src.spec_id(), src.spec_ver());
    lemma_display_parses(src.spec_remote(), src.spec_id(), src.spec_ver());
    IndexSource::lemma_spec_new(src.spec_remote(), src.spec_id(), src.spec_ver());
    IndexSource::lemma_ext(IndexSource::spec_new(src.spec_remote(), src.spec_id(), src.spec_ver()), src);
    assert(reads_back(p, s, m.val, src));
    lemma_display_form(m);
    match m.forward {
        ForwardView::Latest => lemma_reparse_latest(p, s, m.val, src),
        ForwardView::Ref(name) => lemma_reparse_ref(p, s, name, m.val, src),
        ForwardView::Version(v) => if v == src.spec_ver() {
            lemma_reparse_pinned(p, s, m.val, src);
        } else {
            lemma_reparse_versioned(p, s, v, m.val, src);
        },
    }
}

} // verus!
