//! What looking one path up in written sheet bytes finds: the writer's
//! order of buckets and entries is the one the halving searches expect.
use vstd::prelude::*;
use crate::index_source::IndexSource;
use crate::mapping::{forward_bytes, forward_type_id_spec, joined, lemma_forward_pack_unpack, LocalMappingView};
use vstd::utf8::decode_utf8;
use crate::sheet::v1::bytes::lemma_le32_roundtrip;
use crate::sheet::distinct_paths;
use crate::sheet::v1::format::{
    bucket_bytes, bucket_key, char_lt, encode_entry, entry_gt, get_le32, group_buckets, has_source, insert_position,
    data_start, dir_bytes, entry_positions, le32, lookup_in_bucket, path_bytes, path_from_bytes, path_lt,
    read_mapping_spec, recorded_len, recorded_prefix, search_bucket, search_dir, sheet_bytes, sort_entries,
    source_position, text_lt, unique_sources, lemma_path_lt_total, lemma_text_lt_total, Bucket, Found,
    SheetFormatError,
};
use crate::sheet::v1::roundtrip::{
    bucket_members, dir_entry, layout, lemma_dir_entry_at, lemma_dir_len, lemma_group_members, lemma_layout_bucket,
    lemma_layout_header, lemma_members_split, lemma_sort_entries_permutes, lemma_sorted_entries_ok, lemma_sorted_from,
    entry_round_trips, lemma_bucket_bytes_front, lemma_path_round_trip, lemma_forward_bytes_len, lemma_insert_position_bounds, lemma_le32_bytes,
    lemma_sort_entries_distinct, lemma_source_found,
};

verus! {

broadcast use crate::sheet::v1::format::group_le_lengths;

/// The order of texts is transitive.
pub proof fn lemma_text_lt_trans(a: Seq<char>, b: Seq<char>, c: Seq<char>)
    requires
        text_lt(a, b),
        text_lt(b, c),
    ensures
        text_lt(a, c),
    decreases a.len(),
{
    if a.len() > 0 {
        if a[0] == b[0] && b[0] == c[0] {
            lemma_text_lt_trans(a.drop_first(), b.drop_first(), c.drop_first());
        } else if a[0] != b[0] && b[0] != c[0] {
            assert(char_lt(a[0], c[0]));
        }
    }
}

/// The order of paths is transitive.
pub proof fn lemma_path_lt_trans(a: Seq<Seq<char>>, b: Seq<Seq<char>>, c: Seq<Seq<char>>)
    requires
        path_lt(a, b),
        path_lt(b, c),
    ensures
        path_lt(a, c),
    decreases a.len(),
{
    if a.len() > 0 {
        if a[0] == b[0] && b[0] == c[0] {
            lemma_path_lt_trans(a.drop_first(), b.drop_first(), c.drop_first());
        } else if a[0] != b[0] && b[0] != c[0] {
            lemma_text_lt_trans(a[0], b[0], c[0]);
            lemma_text_lt_total(a[0], c[0]);
        } else if a[0] != b[0] {
            assert(text_lt(a[0], c[0]));
        } else {
            assert(text_lt(a[0], c[0]));
        }
    }
}

/// The writer's order of entries is transitive and asymmetric.
proof fn lemma_entry_gt_order(a: LocalMappingView, b: LocalMappingView, c: LocalMappingView)
    ensures
        entry_gt(a, b) && entry_gt(b, c) ==> entry_gt(a, c),
        !(entry_gt(a, b) && entry_gt(b, a)),
{
    if entry_gt(a, b) && entry_gt(b, c) && bucket_key(a.val) == bucket_key(b.val) && bucket_key(b.val) == bucket_key(
        c.val,
    ) {
        lemma_path_lt_trans(c.val, b.val, a.val);
    }
    lemma_path_lt_total(a.val, b.val);
}

/// Entries that no later entry precedes.
pub open spec fn weakly_sorted(s: Seq<LocalMappingView>) -> bool {
    forall|i: int, j: int| 0 <= i < j < s.len() ==> !entry_gt(#[trigger] s[i], #[trigger] s[j])
}

proof fn lemma_insert_position_facts(s: Seq<LocalMappingView>, x: LocalMappingView)
    ensures
        forall|k: int| 0 <= k < insert_position(s, x) ==> !entry_gt(#[trigger] s[k], x),
        insert_position(s, x) < s.len() ==> entry_gt(s[insert_position(s, x)], x),
    decreases s.len(),
{
    lemma_insert_position_bounds(s, x);
    if s.len() > 0 && !entry_gt(s[0], x) {
        let t = s.drop_first();
        lemma_insert_position_facts(t, x);
        lemma_insert_position_bounds(t, x);
        assert(insert_position(s, x) == 1 + insert_position(t, x));
        assert forall|k: int| 0 <= k < insert_position(s, x) implies !entry_gt(#[trigger] s[k], x) by {
            if k > 0 {
                assert(s[k] == t[k - 1]);
            }
        }
        if insert_position(s, x) < s.len() {
            assert(s[insert_position(s, x)] == t[insert_position(t, x)]);
        }
    }
}

/// The writer's sort puts no entry after one that follows it.
pub proof fn lemma_sort_weakly_sorted(ms: Seq<LocalMappingView>)
    ensures
        weakly_sorted(sort_entries(ms)),
    decreases ms.len(),
{
    if ms.len() > 0 {
        let x = ms.last();
        lemma_sort_weakly_sorted(ms.drop_last());
        let s = sort_entries(ms.drop_last());
        let p = insert_position(s, x);
        lemma_insert_position_bounds(s, x);
        lemma_insert_position_facts(s, x);
        let r = s.take(p) + seq![x] + s.skip(p);
        assert forall|i: int, j: int| 0 <= i < j < r.len() implies !entry_gt(#[trigger] r[i], #[trigger] r[j]) by {
            if j < p {
                assert(r[i] == s[i] && r[j] == s[j]);
            } else if j == p {
                assert(r[i] == s[i]);
            } else if i < p {
                assert(r[i] == s[i] && r[j] == s[j - 1]);
            } else if i == p {
                assert(r[j] == s[j - 1]);
                lemma_entry_gt_order(x, s[j - 1], x);
                lemma_entry_gt_order(s[p], x, s[j - 1]);
                lemma_entry_gt_order(s[j - 1], s[p], s[j - 1]);
            } else {
                assert(r[i] == s[i - 1] && r[j] == s[j - 1]);
            }
        }
    }
}

/// Entries in strictly increasing order: by bucket key, then by path.
pub open spec fn in_order(a: LocalMappingView, b: LocalMappingView) -> bool {
    bucket_key(a.val) < bucket_key(b.val) || (bucket_key(a.val) == bucket_key(b.val) && path_lt(a.val, b.val))
}

/// Entries each before the next, strictly.
pub open spec fn strictly_sorted(s: Seq<LocalMappingView>) -> bool {
    forall|i: int, j: int| 0 <= i < j < s.len() ==> in_order(#[trigger] s[i], #[trigger] s[j])
}

/// The writer's sort of mappings with distinct paths is strict.
pub proof fn lemma_sort_strict(ms: Seq<LocalMappingView>)
    requires
        distinct_paths(ms),
    ensures
        strictly_sorted(sort_entries(ms)),
{
    let es = sort_entries(ms);
    lemma_sort_weakly_sorted(ms);
    lemma_sort_entries_distinct(ms);
    assert forall|i: int, j: int| 0 <= i < j < es.len() implies in_order(#[trigger] es[i], #[trigger] es[j]) by {
        assert(!entry_gt(es[i], es[j]));
        assert(es[i].val != es[j].val);
        lemma_path_lt_total(es[i].val, es[j].val);
    }
}

/// Buckets as the lookup expects them: none empty, every member with the
/// bucket's key, keys increasing, members increasing by path.
pub open spec fn buckets_ordered(bs: Seq<Bucket>) -> bool {
    &&& forall|j: int| 0 <= j < bs.len() ==> (#[trigger] bs[j]).members.len() > 0
    &&& forall|j: int, q: int|
        0 <= j < bs.len() && 0 <= q < bs[j].members.len() ==> bucket_key((#[trigger] bs[j].members[q]).val) == bs[j].key
    &&& forall|j: int, k: int| 0 <= j < k < bs.len() ==> (#[trigger] bs[j]).key < (#[trigger] bs[k]).key
    &&& forall|j: int, q: int, r: int|
        0 <= j < bs.len() && 0 <= q < r < bs[j].members.len() ==> path_lt(
            (#[trigger] bs[j].members[q]).val,
            (#[trigger] bs[j].members[r]).val,
        )
}

/// Grouping strictly sorted entries gives ordered buckets, the last one
/// ending with the last entry.
pub proof fn lemma_group_ordered(es: Seq<LocalMappingView>)
    requires
        strictly_sorted(es),
    ensures
        buckets_ordered(group_buckets(es)),
        es.len() > 0 ==> group_buckets(es).len() > 0 && group_buckets(es).last().key == bucket_key(es.last().val)
            && group_buckets(es).last().members.last() == es.last(),
    decreases es.len(),
{
    if es.len() > 0 {
        let init = es.drop_last();
        let e = es.last();
        assert(strictly_sorted(init)) by {
            assert forall|i: int, j: int| 0 <= i < j < init.len() implies in_order(#[trigger] init[i], #[trigger] init[j]) by {
                assert(init[i] == es[i] && init[j] == es[j]);
            }
        }
        lemma_group_ordered(init);
        let prev = group_buckets(init);
        let g = group_buckets(es);
        let k = bucket_key(e.val);
        if init.len() > 0 {
            assert(in_order(es[init.len() - 1], es[init.len() as int]));
            assert(es[init.len() - 1] == init.last());
        }
        if prev.len() > 0 && prev.last().key == k {
            let n = prev.len() - 1;
            let last = prev.last();
            let nm = last.members.push(e);
            assert(init.len() > 0);
            assert(path_lt(last.members.last().val, e.val));
            assert forall|q: int, r: int| 0 <= q < r < nm.len() implies path_lt(
                (#[trigger] nm[q]).val,
                (#[trigger] nm[r]).val,
            ) by {
                if r == nm.len() - 1 {
                    if q < nm.len() - 2 {
                        assert(path_lt(last.members[q].val, last.members[last.members.len() - 1].val));
                        lemma_path_lt_trans(nm[q].val, last.members.last().val, e.val);
                    }
                } else {
                    assert(nm[q] == last.members[q] && nm[r] == last.members[r]);
                }
            }
            assert forall|j: int, q: int, r: int|
                0 <= j < g.len() && 0 <= q < r < g[j].members.len() implies path_lt(
                (#[trigger] g[j].members[q]).val,
                (#[trigger] g[j].members[r]).val,
            ) by {
                if j < n {
                    assert(g[j] == prev[j]);
                } else {
                    assert(g[j].members == nm);
                }
            }
            assert forall|j: int, q: int| 0 <= j < g.len() && 0 <= q < g[j].members.len() implies bucket_key(
                (#[trigger] g[j].members[q]).val,
            ) == g[j].key by {
                if j < n {
                    assert(g[j] == prev[j]);
                } else if q < last.members.len() {
                    assert(g[j].members[q] == last.members[q]);
                }
            }
            assert forall|j: int, l: int| 0 <= j < l < g.len() implies (#[trigger] g[j]).key < (#[trigger] g[l]).key by {
                assert(g[j].key == prev[j].key && g[l].key == prev[l].key);
            }
            assert forall|j: int| 0 <= j < g.len() implies (#[trigger] g[j]).members.len() > 0 by {
                if j < n {
                    assert(g[j] == prev[j]);
                }
            }
        } else {
            if prev.len() > 0 {
                assert(init.len() > 0);
                assert(prev.last().key < k);
            }
            assert forall|j: int, l: int| 0 <= j < l < g.len() implies (#[trigger] g[j]).key < (#[trigger] g[l]).key by {
                if l == g.len() - 1 {
                    if j < prev.len() - 1 {
                        assert(prev[j].key < prev[prev.len() - 1].key);
                    }
                    assert(g[j] == prev[j]);
                } else {
                    assert(g[j] == prev[j] && g[l] == prev[l]);
                }
            }
            assert forall|j: int, q: int, r: int|
                0 <= j < g.len() && 0 <= q < r < g[j].members.len() implies path_lt(
                (#[trigger] g[j].members[q]).val,
                (#[trigger] g[j].members[r]).val,
            ) by {
                if j < prev.len() {
                    assert(g[j] == prev[j]);
                }
            }
            assert forall|j: int, q: int| 0 <= j < g.len() && 0 <= q < g[j].members.len() implies bucket_key(
                (#[trigger] g[j].members[q]).val,
            ) == g[j].key by {
                if j < prev.len() {
                    assert(g[j] == prev[j]);
                }
            }
            assert forall|j: int| 0 <= j < g.len() implies (#[trigger] g[j]).members.len() > 0 by {
                if j < prev.len() {
                    assert(g[j] == prev[j]);
                }
            }
        }
    }
}

/// Where entry `k` of a bucket starts: after the entries before it.
pub open spec fn entry_start(members: Seq<LocalMappingView>, srcs: Seq<IndexSource>, k: int) -> int {
    bucket_bytes(members.take(k), srcs).len() as int
}

proof fn lemma_bucket_split(members: Seq<LocalMappingView>, srcs: Seq<IndexSource>, k: int)
    requires
        0 <= k <= members.len(),
    ensures
        bucket_bytes(members, srcs) == bucket_bytes(members.take(k), srcs) + bucket_bytes(members.skip(k), srcs),
    decreases members.len(),
{
    if k == members.len() {
        assert(members.take(k) =~= members);
        assert(members.skip(k) =~= Seq::<LocalMappingView>::empty());
        assert(bucket_bytes(members, srcs) + Seq::<u8>::empty() =~= bucket_bytes(members, srcs));
    } else {
        let init = members.drop_last();
        lemma_bucket_split(init, srcs, k);
        assert(init.take(k) =~= members.take(k));
        assert(members.skip(k).drop_last() =~= init.skip(k));
        assert(members.skip(k).last() == members.last());
        let l = encode_entry(members.last(), source_position(srcs, members.last().source));
        assert(bucket_bytes(members.take(k), srcs) + bucket_bytes(init.skip(k), srcs) + l =~= bucket_bytes(
            members.take(k),
            srcs,
        ) + (bucket_bytes(init.skip(k), srcs) + l));
    }
}

/// The fields of an encoded entry found at `p` in `data`.
#[verifier::rlimit(40)]
proof fn lemma_entry_fields(data: Seq<u8>, p: int, m: LocalMappingView, idx: int)
    requires
        0 <= p,
        0 <= idx <= u32::MAX,
        path_bytes(m.val).len() <= 255,
        forward_bytes(m.forward).len() <= 255,
        p + encode_entry(m, idx).len() <= data.len(),
        data.subrange(p, p + encode_entry(m, idx).len()) == encode_entry(m, idx),
    ensures
        ({
            let kl = path_bytes(m.val).len() as int;
            let fl = forward_bytes(m.forward).len() as int;
            &&& encode_entry(m, idx).len() == 7 + kl + fl
            &&& data[p] as int == kl
            &&& data[p + 1] == forward_type_id_spec(m.forward)
            &&& data[p + 2] as int == fl
            &&& data.subrange(p + 3, p + 3 + kl) == path_bytes(m.val)
            &&& data.subrange(p + 3 + kl, p + 3 + kl + fl) == forward_bytes(m.forward)
            &&& get_le32(data, p + 3 + kl + fl) == idx
        }),
{
    let pb = path_bytes(m.val);
    let fb = forward_bytes(m.forward);
    let kl = pb.len() as int;
    let fl = fb.len() as int;
    let e = encode_entry(m, idx);
    let head = seq![kl as u8, forward_type_id_spec(m.forward), fl as u8];
    let l = le32(idx);
    assert(e == head + pb + fb + l);
    let sub = data.subrange(p, p + e.len());
    assert forall|q: int| 0 <= q < e.len() implies data[p + q] == #[trigger] e[q] by {
        assert(sub[q] == data[p + q]);
    }
    assert(data[p] == e[0] && e[0] == head[0]);
    assert(data[p + 1] == e[1] && e[1] == head[1]);
    assert(data[p + 2] == e[2] && e[2] == head[2]);
    assert forall|q: int| 0 <= q < kl implies data.subrange(p + 3, p + 3 + kl)[q] == #[trigger] pb[q] by {
        assert(e[3 + q] == pb[q]);
    }
    assert(data.subrange(p + 3, p + 3 + kl) =~= pb);
    assert forall|q: int| 0 <= q < fl implies data.subrange(p + 3 + kl, p + 3 + kl + fl)[q] == #[trigger] fb[q] by {
        assert(e[3 + kl + q] == fb[q]);
    }
    assert(data.subrange(p + 3 + kl, p + 3 + kl + fl) =~= fb);
    let x = p + 3 + kl + fl;
    assert(data[x] == e[3 + kl + fl] && e[3 + kl + fl] == l[0]);
    assert(data[x + 1] == e[4 + kl + fl] && e[4 + kl + fl] == l[1]);
    assert(data[x + 2] == e[5 + kl + fl] && e[5 + kl + fl] == l[2]);
    assert(data[x + 3] == e[6 + kl + fl] && e[6 + kl + fl] == l[3]);
    lemma_le32_bytes(data, x, idx);
    vstd::arithmetic::div_mod::lemma_small_mod(idx as nat, 0x1_0000_0000);
}

/// The bytes of entry `k` within its bucket's bytes.
proof fn lemma_entry_at(members: Seq<LocalMappingView>, srcs: Seq<IndexSource>, k: int)
    requires
        0 <= k < members.len(),
        entry_round_trips(members[k]),
        has_source(srcs, members[k].source),
        srcs.len() <= u32::MAX,
    ensures
        ({
            let data = bucket_bytes(members, srcs);
            let p = entry_start(members, srcs, k);
            let m = members[k];
            let kl = path_bytes(m.val).len() as int;
            let fl = forward_bytes(m.forward).len() as int;
            &&& kl <= 255 && fl <= 255
            &&& p + 7 + kl + fl == entry_start(members, srcs, k + 1)
            &&& entry_start(members, srcs, k + 1) <= data.len()
            &&& data[p] as int == kl
            &&& data[p + 1] == forward_type_id_spec(m.forward)
            &&& data[p + 2] as int == fl
            &&& data.subrange(p + 3, p + 3 + kl) == path_bytes(m.val)
            &&& data.subrange(p + 3 + kl, p + 3 + kl + fl) == forward_bytes(m.forward)
            &&& get_le32(data, p + 3 + kl + fl) == source_position(srcs, m.source)
            &&& srcs[source_position(srcs, m.source)] == m.source
            &&& 0 <= source_position(srcs, m.source) < srcs.len()
        }),
{
    let data = bucket_bytes(members, srcs);
    let m = members[k];
    let idx = source_position(srcs, m.source);
    lemma_source_found(srcs, m.source);
    lemma_forward_bytes_len(m.forward);
    lemma_bucket_split(members, srcs, k);
    let rest = members.skip(k);
    lemma_bucket_bytes_front(rest, srcs);
    assert(rest[0] == m);
    let e = encode_entry(m, idx);
    let pre = bucket_bytes(members.take(k), srcs);
    let post = bucket_bytes(rest.drop_first(), srcs);
    assert(data == pre + (e + post));
    lemma_bucket_split(members, srcs, k + 1);
    assert(members.take(k + 1).drop_last() =~= members.take(k));
    assert(members.take(k + 1).last() == m);
    let p = pre.len() as int;
    assert(data.subrange(p, p + e.len()) =~= e);
    lemma_entry_fields(data, p, m, idx);
}

/// Every member of a bucket fits the format, its path round-trips and its
/// source is in the table.
pub open spec fn members_ok(members: Seq<LocalMappingView>, srcs: Seq<IndexSource>) -> bool {
    forall|q: int| 0 <= q < members.len() ==> entry_round_trips(#[trigger] members[q]) && has_source(srcs, members[q].source)
}

/// The starts of a bucket's entries.
pub open spec fn entry_starts(members: Seq<LocalMappingView>, srcs: Seq<IndexSource>) -> Seq<int> {
    Seq::new(members.len(), |i: int| entry_start(members, srcs, i))
}

proof fn lemma_positions(members: Seq<LocalMappingView>, srcs: Seq<IndexSource>, k: int)
    requires
        0 <= k <= members.len(),
        members_ok(members, srcs),
        srcs.len() <= u32::MAX,
    ensures
        entry_positions(bucket_bytes(members, srcs), entry_start(members, srcs, k)) == Seq::new(
            (members.len() - k) as nat,
            |i: int| entry_start(members, srcs, k + i),
        ),
    decreases members.len() - k,
{
    let data = bucket_bytes(members, srcs);
    let n = members.len() as int;
    let p = entry_start(members, srcs, k);
    if k == n {
        assert(members.take(n) =~= members);
        assert(Seq::new((members.len() - k) as nat, |i: int| entry_start(members, srcs, k + i)) =~= Seq::<int>::empty());
    } else {
        lemma_entry_at(members, srcs, k);
        let next = entry_start(members, srcs, k + 1);
        assert(p + 7 + data[p] as int + data[p + 2] as int == next);
        if k + 1 == n {
            assert(members.take(n) =~= members);
            assert(Seq::new((members.len() - k) as nat, |i: int| entry_start(members, srcs, k + i)) =~= seq![p]);
        } else {
            lemma_entry_at(members, srcs, k + 1);
            lemma_positions(members, srcs, k + 1);
            assert(Seq::new((members.len() - k) as nat, |i: int| entry_start(members, srcs, k + i)) =~= seq![p]
                + Seq::new((members.len() - (k + 1)) as nat, |i: int| entry_start(members, srcs, k + 1 + i)));
        }
    }
}

/// A bucket's members in strictly increasing path order.
pub open spec fn paths_increasing(members: Seq<LocalMappingView>) -> bool {
    forall|q: int, r: int| 0 <= q < r < members.len() ==> path_lt((#[trigger] members[q]).val, (#[trigger] members[r]).val)
}

/// What the lookup of a member finds.
pub open spec fn found_of(m: LocalMappingView) -> Found {
    (joined(m.val), m.source, m.forward)
}

#[verifier::rlimit(40)]
proof fn lemma_search_bucket(
    members: Seq<LocalMappingView>,
    srcs: Seq<IndexSource>,
    node: Seq<Seq<char>>,
    lo: int,
    hi: int,
)
    requires
        0 <= lo <= hi <= members.len(),
        members_ok(members, srcs),
        paths_increasing(members),
        srcs.len() <= u32::MAX,
    ensures
        forall|q: int|
            lo <= q < hi && (#[trigger] members[q]).val == node ==> search_bucket(
                bucket_bytes(members, srcs),
                entry_starts(members, srcs),
                lo,
                hi,
                node,
                srcs,
            ) == Ok::<Option<Found>, SheetFormatError>(Some(found_of(members[q]))),
        (forall|q: int| lo <= q < hi ==> (#[trigger] members[q]).val != node) ==> search_bucket(
            bucket_bytes(members, srcs),
            entry_starts(members, srcs),
            lo,
            hi,
            node,
            srcs,
        ) == Ok::<Option<Found>, SheetFormatError>(None),
    decreases hi - lo,
{
    if lo < hi {
        let data = bucket_bytes(members, srcs);
        let ps = entry_starts(members, srcs);
        let mid = lo + (hi - lo) / 2;
        let m = members[mid];
        lemma_entry_at(members, srcs, mid);
        let p = ps[mid];
        assert(p == entry_start(members, srcs, mid));
        let kl = path_bytes(m.val).len() as int;
        let fl = forward_bytes(m.forward).len() as int;
        let key = data.subrange(p + 3, p + 3 + kl);
        lemma_path_round_trip(m.val);
        assert(path_from_bytes(key) == Some(m.val));
        lemma_path_lt_total(m.val, node);
        lemma_path_lt_total(node, node);
        if path_lt(m.val, node) {
            lemma_search_bucket(members, srcs, node, mid + 1, hi);
            assert forall|q: int| lo <= q <= mid implies (#[trigger] members[q]).val != node by {
                if q < mid {
                    lemma_path_lt_trans(members[q].val, m.val, node);
                }
            }
        } else if path_lt(node, m.val) {
            lemma_search_bucket(members, srcs, node, lo, mid);
            assert forall|q: int| mid <= q < hi implies (#[trigger] members[q]).val != node by {
                if q > mid {
                    lemma_path_lt_trans(node, m.val, members[q].val);
                }
            }
        } else {
            assert(m.val == node);
            lemma_forward_pack_unpack(m.forward);
            vstd::utf8::encode_utf8_decode_utf8(joined(m.val));
            assert(decode_utf8(key) == joined(m.val));
            assert forall|q: int| lo <= q < hi && (#[trigger] members[q]).val == node implies q == mid by {
                if q < mid {
                    assert(path_lt(members[q].val, members[mid].val));
                } else if q > mid {
                    assert(path_lt(members[mid].val, members[q].val));
                }
            }
        }
    }
}

/// Looking a path up in a bucket's bytes finds the member with that path,
/// or nothing.
pub proof fn lemma_lookup_bucket(members: Seq<LocalMappingView>, srcs: Seq<IndexSource>, node: Seq<Seq<char>>)
    requires
        members_ok(members, srcs),
        paths_increasing(members),
        srcs.len() <= u32::MAX,
    ensures
        forall|q: int|
            0 <= q < members.len() && (#[trigger] members[q]).val == node ==> lookup_in_bucket(
                bucket_bytes(members, srcs),
                node,
                srcs,
            ) == Ok::<Option<Found>, SheetFormatError>(Some(found_of(members[q]))),
        (forall|q: int| 0 <= q < members.len() ==> (#[trigger] members[q]).val != node) ==> lookup_in_bucket(
            bucket_bytes(members, srcs),
            node,
            srcs,
        ) == Ok::<Option<Found>, SheetFormatError>(None),
{
    lemma_positions(members, srcs, 0);
    assert(members.take(0) =~= Seq::<LocalMappingView>::empty());
    assert(entry_start(members, srcs, 0) == 0);
    let data = bucket_bytes(members, srcs);
    assert(entry_positions(data, 0) =~= entry_starts(members, srcs));
    lemma_search_bucket(members, srcs, node, 0, members.len() as int);
}

proof fn lemma_dir_key(b: Seq<u8>, d: Seq<u8>, j: int, key: u32, off: int, l: int)
    requires
        0 <= j,
        12 * j + 12 <= d.len(),
        15 + d.len() <= b.len(),
        b.subrange(15, 15 + d.len() as int) == d,
        d.subrange(12 * j, 12 * j + 12) == dir_entry(key, off, l),
    ensures
        get_le32(b, 15 + 12 * j) == key,
{
    let e = 15 + 12 * j;
    let sub = b.subrange(15, 15 + d.len() as int);
    let de = d.subrange(12 * j, 12 * j + 12);
    let x = dir_entry(key, off, l);
    assert forall|q: int| 0 <= q < 4 implies b[e + q] == x[q] by {
        assert(sub[12 * j + q] == b[e + q]);
        assert(de[q] == d[12 * j + q]);
    }
    assert(x[0] == le32(key as int)[0] && x[1] == le32(key as int)[1] && x[2] == le32(key as int)[2] && x[3]
        == le32(key as int)[3]);
    lemma_le32_bytes(b, e, key as int);
    vstd::arithmetic::div_mod::lemma_small_mod(key as nat, 0x1_0000_0000);
}

/// Directory facts of sheet bytes `b` for the buckets `bs`.
pub open spec fn dir_ok(b: Seq<u8>, bs: Seq<Bucket>, srcs: Seq<IndexSource>) -> bool {
    forall|j: int|
        0 <= j < bs.len() ==> {
            let off = get_le32(b, 15 + 12 * j + 4);
            let len = get_le32(b, 15 + 12 * j + 8);
            &&& get_le32(b, 15 + 12 * j) == (#[trigger] bs[j]).key
            &&& off + len <= b.len()
            &&& b.subrange(off, off + len) == bucket_bytes(bs[j].members, srcs)
        }
}

proof fn lemma_search_dir(
    b: Seq<u8>,
    bs: Seq<Bucket>,
    srcs: Seq<IndexSource>,
    node: Seq<Seq<char>>,
    lo: int,
    hi: int,
)
    requires
        0 <= lo <= hi <= bs.len(),
        dir_ok(b, bs, srcs),
        forall|j: int, k: int| 0 <= j < k < bs.len() ==> (#[trigger] bs[j]).key < (#[trigger] bs[k]).key,
    ensures
        forall|j: int|
            lo <= j < hi && (#[trigger] bs[j]).key == bucket_key(node) ==> search_dir(
                b,
                15,
                lo,
                hi,
                bucket_key(node) as int,
                node,
                srcs,
            ) == lookup_in_bucket(bucket_bytes(bs[j].members, srcs), node, srcs),
        (forall|j: int| lo <= j < hi ==> (#[trigger] bs[j]).key != bucket_key(node)) ==> search_dir(
            b,
            15,
            lo,
            hi,
            bucket_key(node) as int,
            node,
            srcs,
        ) == Ok::<Option<Found>, SheetFormatError>(None),
    decreases hi - lo,
{
    if lo < hi {
        let mid = lo + (hi - lo) / 2;
        let key = bucket_key(node) as int;
        let bm = bs[mid];
        assert(get_le32(b, 15 + 12 * mid) == bm.key);
        if (bm.key as int) < key {
            lemma_search_dir(b, bs, srcs, node, mid + 1, hi);
            assert forall|j: int| lo <= j <= mid implies (#[trigger] bs[j]).key != bucket_key(node) by {
                if j < mid {
                    assert(bs[j].key < bs[mid].key);
                }
            }
        } else if (bm.key as int) > key {
            lemma_search_dir(b, bs, srcs, node, lo, mid);
            assert forall|j: int| mid <= j < hi implies (#[trigger] bs[j]).key != bucket_key(node) by {
                if j > mid {
                    assert(bs[mid].key < bs[j].key);
                }
            }
        } else {
            assert forall|j: int| lo <= j < hi && (#[trigger] bs[j]).key == bucket_key(node) implies j == mid by {
                if j < mid {
                    assert(bs[j].key < bs[mid].key);
                } else if j > mid {
                    assert(bs[mid].key < bs[j].key);
                }
            }
        }
    }
}

/// A mapping of the buckets' members is a member of one bucket.
proof fn lemma_member_in_bucket(bs: Seq<Bucket>, t: int)
    requires
        0 <= t < bucket_members(bs).len(),
    ensures
        exists|j: int, q: int|
            0 <= j < bs.len() && 0 <= q < bs[j].members.len() && (#[trigger] bs[j].members[q]) == bucket_members(bs)[t],
    decreases bs.len(),
{
    let init = bs.drop_last();
    let pre = bucket_members(init);
    assert(bucket_members(bs) == pre + bs.last().members);
    if t < pre.len() {
        lemma_member_in_bucket(init, t);
        let (j, q) = choose|j: int, q: int|
            0 <= j < init.len() && 0 <= q < init[j].members.len() && (#[trigger] init[j].members[q]) == pre[t];
        assert(bs[j] == init[j]);
        assert(bs[j].members[q] == bucket_members(bs)[t]);
    } else {
        let j = bs.len() - 1;
        let q = t - pre.len();
        assert(bs[j].members[q] == bucket_members(bs)[t]);
    }
}

/// A member of a bucket is one of the buckets' members.
proof fn lemma_bucket_member_index(bs: Seq<Bucket>, j: int, q: int)
    requires
        0 <= j < bs.len(),
        0 <= q < bs[j].members.len(),
    ensures
        ({
            let t = bucket_members(bs.take(j)).len() + q;
            &&& 0 <= t < bucket_members(bs).len()
            &&& bucket_members(bs)[t] == bs[j].members[q]
        }),
{
    lemma_members_split(bs, j + 1);
    let tk = bs.take(j + 1);
    assert(tk.drop_last() =~= bs.take(j));
    assert(tk.last() == bs[j]);
    let pre = bucket_members(bs.take(j));
    assert(bucket_members(tk) == pre + bs[j].members);
    assert(bucket_members(bs)[pre.len() + q] == bucket_members(tk)[pre.len() + q]);
}

/// The conditions of the read-back law.
pub open spec fn writable(ms: Seq<LocalMappingView>) -> bool {
    &&& distinct_paths(ms)
    &&& forall|i: int| 0 <= i < ms.len() ==> entry_round_trips(#[trigger] ms[i])
    &&& group_buckets(sort_entries(ms)).len() < 0x10000
    &&& sheet_bytes(ms).len() <= u32::MAX
}

/// The writer's buckets of the mappings.
pub open spec fn written_buckets(ms: Seq<LocalMappingView>) -> Seq<Bucket> {
    group_buckets(sort_entries(ms))
}

#[verifier::rlimit(40)]
proof fn lemma_written_dir(ms: Seq<LocalMappingView>)
    requires
        writable(ms),
    ensures
        dir_ok(sheet_bytes(ms), written_buckets(ms), unique_sources(ms)),
{
    let srcs = unique_sources(ms);
    let bs = written_buckets(ms);
    let b = sheet_bytes(ms);
    assert(b == layout(bs, srcs));
    lemma_layout_header(bs, srcs);
    let start = data_start(bs, srcs);
    let d = dir_bytes(bs, srcs, start);
    lemma_dir_len(bs, srcs, start);
    assert forall|j: int| 0 <= j < bs.len() implies {
        let off = get_le32(b, 15 + 12 * j + 4);
        let len = get_le32(b, 15 + 12 * j + 8);
        &&& get_le32(b, 15 + 12 * j) == (#[trigger] bs[j]).key
        &&& off + len <= b.len()
        &&& b.subrange(off, off + len) == bucket_bytes(bs[j].members, srcs)
    } by {
        lemma_layout_bucket(bs, srcs, j);
        lemma_dir_entry_at(bs, srcs, start, j);
        lemma_dir_key(b, d, j, bs[j].key, start + recorded_prefix(bs.take(j), srcs), recorded_len(bs[j], srcs));
    }
}

proof fn lemma_written_header(ms: Seq<LocalMappingView>, node: Seq<Seq<char>>)
    requires
        writable(ms),
    ensures
        read_mapping_spec(sheet_bytes(ms), node) == search_dir(
            sheet_bytes(ms),
            15,
            0,
            written_buckets(ms).len() as int,
            bucket_key(node) as int,
            node,
            unique_sources(ms),
        ),
{
    let srcs = unique_sources(ms);
    let bs = written_buckets(ms);
    assert(sheet_bytes(ms) == layout(bs, srcs));
    lemma_layout_header(bs, srcs);
}

proof fn lemma_written_members(ms: Seq<LocalMappingView>)
    requires
        writable(ms),
    ensures
        forall|j: int, k: int|
            0 <= j < k < written_buckets(ms).len() ==> (#[trigger] written_buckets(ms)[j]).key < (#[trigger] written_buckets(
                ms,
            )[k]).key,
        forall|j: int|
            0 <= j < written_buckets(ms).len() ==> members_ok((#[trigger] written_buckets(ms)[j]).members, unique_sources(ms))
                && paths_increasing(written_buckets(ms)[j].members),
        bucket_members(written_buckets(ms)) == sort_entries(ms),
        sort_entries(ms).to_multiset() == ms.to_multiset(),
        forall|j: int, q: int|
            0 <= j < written_buckets(ms).len() && 0 <= q < written_buckets(ms)[j].members.len() ==> bucket_key(
                (#[trigger] written_buckets(ms)[j].members[q]).val,
            ) == written_buckets(ms)[j].key,
{
    let srcs = unique_sources(ms);
    let es = sort_entries(ms);
    let bs = written_buckets(ms);
    lemma_sort_entries_permutes(ms);
    lemma_sort_strict(ms);
    lemma_group_ordered(es);
    lemma_group_members(es);
    lemma_sorted_entries_ok(ms);
    assert forall|j: int| 0 <= j < bs.len() implies members_ok((#[trigger] bs[j]).members, srcs) && paths_increasing(
        bs[j].members,
    ) by {
        let mem = bs[j].members;
        assert forall|q: int| 0 <= q < mem.len() implies entry_round_trips(#[trigger] mem[q]) && has_source(
            srcs,
            mem[q].source,
        ) by {
            lemma_bucket_member_index(bs, j, q);
        }
        assert forall|q: int, r: int| 0 <= q < r < mem.len() implies path_lt(
            (#[trigger] mem[q]).val,
            (#[trigger] mem[r]).val,
        ) by {
            assert(bs[j].members[q] == mem[q] && bs[j].members[r] == mem[r]);
        }
    }
}

/// Keys of buckets strictly increasing.
pub open spec fn keys_increasing(bs: Seq<Bucket>) -> bool {
    forall|j: int, k: int| 0 <= j < k < bs.len() ==> (#[trigger] bs[j]).key < (#[trigger] bs[k]).key
}

proof fn lemma_found_generic(
    b: Seq<u8>,
    bs: Seq<Bucket>,
    srcs: Seq<IndexSource>,
    node: Seq<Seq<char>>,
    j: int,
    q: int,
)
    requires
        dir_ok(b, bs, srcs),
        keys_increasing(bs),
        0 <= j < bs.len(),
        0 <= q < bs[j].members.len(),
        members_ok(bs[j].members, srcs),
        paths_increasing(bs[j].members),
        srcs.len() <= u32::MAX,
        bs[j].key == bucket_key(node),
        bs[j].members[q].val == node,
    ensures
        search_dir(b, 15, 0, bs.len() as int, bucket_key(node) as int, node, srcs) == Ok::<
            Option<Found>,
            SheetFormatError,
        >(Some(found_of(bs[j].members[q]))),
{
    lemma_search_dir(b, bs, srcs, node, 0, bs.len() as int);
    lemma_lookup_bucket(bs[j].members, srcs, node);
}

proof fn lemma_absent_generic(b: Seq<u8>, bs: Seq<Bucket>, srcs: Seq<IndexSource>, node: Seq<Seq<char>>)
    requires
        dir_ok(b, bs, srcs),
        keys_increasing(bs),
        forall|j: int| 0 <= j < bs.len() ==> members_ok((#[trigger] bs[j]).members, srcs) && paths_increasing(bs[j].members),
        forall|j: int, q: int| 0 <= j < bs.len() && 0 <= q < bs[j].members.len() ==> (#[trigger] bs[j].members[q]).val != node,
        srcs.len() <= u32::MAX,
    ensures
        search_dir(b, 15, 0, bs.len() as int, bucket_key(node) as int, node, srcs) == Ok::<
            Option<Found>,
            SheetFormatError,
        >(None),
{
    lemma_search_dir(b, bs, srcs, node, 0, bs.len() as int);
    assert forall|j: int| 0 <= j < bs.len() && (#[trigger] bs[j]).key == bucket_key(node) implies lookup_in_bucket(
        bucket_bytes(bs[j].members, srcs),
        node,
        srcs,
    ) == Ok::<Option<Found>, SheetFormatError>(None) by {
        let mem = bs[j].members;
        assert forall|q: int| 0 <= q < mem.len() implies (#[trigger] mem[q]).val != node by {
            assert(bs[j].members[q] == mem[q]);
        }
        lemma_lookup_bucket(mem, srcs, node);
    }
}

proof fn lemma_lookup_found(ms: Seq<LocalMappingView>, node: Seq<Seq<char>>, i: int)
    requires
        writable(ms),
        0 <= i < ms.len(),
        ms[i].val == node,
    ensures
        read_mapping_spec(sheet_bytes(ms), node) == Ok::<Option<Found>, SheetFormatError>(Some(found_of(ms[i]))),
{
    let srcs = unique_sources(ms);
    let bs = written_buckets(ms);
    let b = sheet_bytes(ms);
    assert(dir_ok(b, bs, srcs)) by {
        lemma_written_dir(ms);
    }
    assert(read_mapping_spec(b, node) == search_dir(b, 15, 0, bs.len() as int, bucket_key(node) as int, node, srcs))
        by {
        lemma_written_header(ms, node);
    }
    assert(exists|j: int, q: int|
        0 <= j < bs.len() && 0 <= q < bs[j].members.len() && (#[trigger] bs[j].members[q]) == ms[i]) by {
        lemma_written_members(ms);
        lemma_found_in_buckets(ms, i);
    }
    let (j, q) = choose|j: int, q: int|
        0 <= j < bs.len() && 0 <= q < bs[j].members.len() && (#[trigger] bs[j].members[q]) == ms[i];
    assert(keys_increasing(bs) && members_ok(bs[j].members, srcs) && paths_increasing(bs[j].members) && bs[j].key
        == bucket_key(node) && srcs.len() <= u32::MAX) by {
        lemma_written_members(ms);
        assert(bucket_key(bs[j].members[q].val) == bs[j].key);
        assert(b == layout(bs, srcs));
        lemma_layout_header(bs, srcs);
    }
    lemma_found_generic(b, bs, srcs, node, j, q);
}

proof fn lemma_lookup_absent(ms: Seq<LocalMappingView>, node: Seq<Seq<char>>)
    requires
        writable(ms),
        forall|i: int| 0 <= i < ms.len() ==> (#[trigger] ms[i]).val != node,
    ensures
        read_mapping_spec(sheet_bytes(ms), node) == Ok::<Option<Found>, SheetFormatError>(None),
{
    let srcs = unique_sources(ms);
    let bs = written_buckets(ms);
    let b = sheet_bytes(ms);
    assert(dir_ok(b, bs, srcs)) by {
        lemma_written_dir(ms);
    }
    assert(read_mapping_spec(b, node) == search_dir(b, 15, 0, bs.len() as int, bucket_key(node) as int, node, srcs))
        by {
        lemma_written_header(ms, node);
    }
    assert(keys_increasing(bs) && srcs.len() <= u32::MAX && forall|j: int|
        0 <= j < bs.len() ==> members_ok((#[trigger] bs[j]).members, srcs) && paths_increasing(bs[j].members)) by {
        lemma_written_members(ms);
        assert(b == layout(bs, srcs));
        lemma_layout_header(bs, srcs);
    }
    assert forall|j: int, q: int| 0 <= j < bs.len() && 0 <= q < bs[j].members.len() implies (
    #[trigger] bs[j].members[q]).val != node by {
        lemma_written_members(ms);
        lemma_bucket_member_from(ms, j, q);
    }
    lemma_absent_generic(b, bs, srcs, node);
}

/// Looking a path up in the bytes that the writer produced finds the
/// mapping with that path, with its index source and forward direction,
/// and nothing when no mapping has that path. This holds under the
/// conditions of the read-back law: no two mappings share a path, every
/// mapping fits the format and has a path that its bytes give back, there
/// are fewer than 2^16 buckets, and the sheet is shorter than 2^32 bytes.
pub proof fn lemma_lookup_written_sheet(ms: Seq<LocalMappingView>, node: Seq<Seq<char>>)
    requires
        distinct_paths(ms),
        forall|i: int| 0 <= i < ms.len() ==> entry_round_trips(#[trigger] ms[i]),
        group_buckets(sort_entries(ms)).len() < 0x10000,
        sheet_bytes(ms).len() <= u32::MAX,
    ensures
        forall|i: int|
            0 <= i < ms.len() && (#[trigger] ms[i]).val == node ==> read_mapping_spec(sheet_bytes(ms), node) == Ok::<
                Option<Found>,
                SheetFormatError,
            >(Some(found_of(ms[i]))),
        (forall|i: int| 0 <= i < ms.len() ==> (#[trigger] ms[i]).val != node) ==> read_mapping_spec(
            sheet_bytes(ms),
            node,
        ) == Ok::<Option<Found>, SheetFormatError>(None),
{
    assert forall|i: int| 0 <= i < ms.len() && (#[trigger] ms[i]).val == node implies read_mapping_spec(
        sheet_bytes(ms),
        node,
    ) == Ok::<Option<Found>, SheetFormatError>(Some(found_of(ms[i]))) by {
        lemma_lookup_found(ms, node, i);
    }
    if forall|i: int| 0 <= i < ms.len() ==> (#[trigger] ms[i]).val != node {
        lemma_lookup_absent(ms, node);
    }
}

/// Every mapping is a member of one of the writer's buckets.
proof fn lemma_found_in_buckets(ms: Seq<LocalMappingView>, i: int)
    requires
        0 <= i < ms.len(),
        bucket_members(written_buckets(ms)) == sort_entries(ms),
        sort_entries(ms).to_multiset() == ms.to_multiset(),
    ensures
        exists|j: int, q: int|
            0 <= j < written_buckets(ms).len() && 0 <= q < written_buckets(ms)[j].members.len() && (#[trigger] written_buckets(
                ms,
            )[j].members[q]) == ms[i],
{
    broadcast use vstd::seq_lib::group_to_multiset_ensures;

    let es = sort_entries(ms);
    let bs = written_buckets(ms);
    assert(ms.contains(ms[i]));
    assert(ms.to_multiset().count(ms[i]) > 0);
    assert(es.contains(ms[i]));
    let t = choose|t: int| 0 <= t < es.len() && es[t] == ms[i];
    lemma_member_in_bucket(bs, t);
}

/// Every member of the writer's buckets is one of the mappings.
proof fn lemma_bucket_member_from(ms: Seq<LocalMappingView>, j: int, q: int)
    requires
        0 <= j < written_buckets(ms).len(),
        0 <= q < written_buckets(ms)[j].members.len(),
        bucket_members(written_buckets(ms)) == sort_entries(ms),
    ensures
        exists|a: int| 0 <= a < ms.len() && ms[a] == written_buckets(ms)[j].members[q],
{
    let bs = written_buckets(ms);
    lemma_bucket_member_index(bs, j, q);
    let t = bucket_members(bs.take(j)).len() + q;
    lemma_sorted_from(ms, t);
}

} // verus!
