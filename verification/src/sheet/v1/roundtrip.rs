//! What reading gives back of what the writer wrote.
use vstd::prelude::*;
use vstd::utf8::{decode_utf8, encode_utf8, valid_utf8};
use crate::index_source::IndexSource;
use crate::mapping::{
    forward_bytes, forward_len_valid, forward_type_id_spec, joined, lemma_forward_pack_unpack,
    local_mapping_valid, pack_spec, ForwardView, LocalMappingView,
};
use crate::sheet::v1::bytes::{lemma_le16_roundtrip, lemma_le32_roundtrip};
use crate::sheet::distinct_paths;
use crate::sheet::v1::format::{
    all_bucket_bytes, bucket_bytes, dir_bytes, encode_entry, encode_source, get_le16, get_le32,
    group_buckets, has_path, has_source, insert_all, insert_position, le16, le32, parse_entries,
    parse_table, path_bytes, path_from_bytes, prepend, read_buckets, read_sheet_spec, recorded_len,
    recorded_prefix, sheet_bytes, sort_entries, source_position, table_bytes, unique_sources,
    data_start, Bucket, SheetFormatError,
};
use crate::sheet::v1::writer::lemma_sources_cover;
use crate::text::{free_of, join_with, lemma_split_join, split_on};

verus! {


broadcast use {vstd::seq_lib::group_to_multiset_ensures, crate::sheet::v1::format::group_le_lengths};

/// A path that its serialized form gives back: no node holds `/`, and it
/// is not the single empty node (which serializes like no node at all).
pub open spec fn path_round_trips(val: Seq<Seq<char>>) -> bool {
    free_of(val, '/') && !(val.len() == 1 && val[0].len() == 0)
}

pub(crate) proof fn lemma_insert_position_bounds(s: Seq<LocalMappingView>, x: LocalMappingView)
    ensures
        0 <= insert_position(s, x) <= s.len(),
    decreases s.len(),
{
    if s.len() > 0 {
        lemma_insert_position_bounds(s.drop_first(), x);
    }
}

/// Sorting keeps the mappings: the same ones, as often.
pub proof fn lemma_sort_entries_permutes(ms: Seq<LocalMappingView>)
    ensures
        sort_entries(ms).len() == ms.len(),
        sort_entries(ms).to_multiset() == ms.to_multiset(),
    decreases ms.len(),
{
    if ms.len() > 0 {
        let init = ms.drop_last();
        let x = ms.last();
        lemma_sort_entries_permutes(init);
        let s = sort_entries(init);
        let p = insert_position(s, x);
        lemma_insert_position_bounds(s, x);
        assert(s.take(p) + seq![x] + s.skip(p) =~= s.insert(p, x));
        vstd::seq_lib::to_multiset_insert(s, p, x);
        assert(init.push(x) =~= ms);
        vstd::seq_lib::to_multiset_build(init, x);
    }
}

pub(crate) proof fn lemma_sort_entries_distinct(ms: Seq<LocalMappingView>)
    requires
        distinct_paths(ms),
    ensures
        distinct_paths(sort_entries(ms)),
    decreases ms.len(),
{
    if ms.len() > 0 {
        let init = ms.drop_last();
        let x = ms.last();
        assert(distinct_paths(init)) by {
            assert forall|i: int, j: int| 0 <= i < init.len() && 0 <= j < init.len() && i != j implies init[i].val != init[j].val by {
                assert(init[i] == ms[i] && init[j] == ms[j]);
            }
        }
        lemma_sort_entries_distinct(init);
        lemma_sort_entries_permutes(init);
        let s = sort_entries(init);
        let p = insert_position(s, x);
        lemma_insert_position_bounds(s, x);
        let r = s.take(p) + seq![x] + s.skip(p);
        assert forall|k: int| 0 <= k < s.len() implies s[k].val != x.val by {
            assert(s.contains(s[k]));
            assert(s.to_multiset().count(s[k]) > 0);
            assert(init.contains(s[k]));
            let a = choose|a: int| 0 <= a < init.len() && init[a] == s[k];
            assert(ms[a] == init[a]);
            assert(ms[ms.len() - 1] == x);
        }
        assert forall|i: int, j: int| 0 <= i < r.len() && 0 <= j < r.len() && i != j implies r[i].val != r[j].val by {
            let si = if i < p { i } else { i - 1 };
            let sj = if j < p { j } else { j - 1 };
            if i == p {
                assert(r[j] == s[sj]);
            } else if j == p {
                assert(r[i] == s[si]);
            } else {
                assert(r[i] == s[si]);
                assert(r[j] == s[sj]);
            }
        }
    }
}

/// All mappings of the buckets, one bucket after the other.
pub open spec fn bucket_members(bs: Seq<Bucket>) -> Seq<LocalMappingView>
    decreases bs.len(),
{
    if bs.len() == 0 {
        Seq::<LocalMappingView>::empty()
    } else {
        bucket_members(bs.drop_last()) + bs.last().members
    }
}

pub(crate) proof fn lemma_group_members(es: Seq<LocalMappingView>)
    ensures
        bucket_members(group_buckets(es)) == es,
    decreases es.len(),
{
    if es.len() > 0 {
        let init = es.drop_last();
        lemma_group_members(init);
        let prev = group_buckets(init);
        let e = es.last();
        let g = group_buckets(es);
        if prev.len() > 0 && prev.last().key == crate::sheet::v1::format::bucket_key(e.val) {
            assert(g.drop_last() =~= prev.drop_last());
            assert(bucket_members(prev) == bucket_members(prev.drop_last()) + prev.last().members);
            assert(bucket_members(g) =~= bucket_members(prev).push(e));
        } else {
            assert(g.drop_last() =~= prev);
            assert(bucket_members(g) =~= bucket_members(prev) + seq![e]);
        }
        assert(init.push(e) =~= es);
    }
}

proof fn lemma_insert_all_fresh(prev: Seq<LocalMappingView>, new: Seq<LocalMappingView>)
    requires
        distinct_paths(prev + new),
    ensures
        insert_all(prev, new) == prev + new,
    decreases new.len(),
{
    if new.len() > 0 {
        let init = new.drop_last();
        let all = prev + new;
        assert(prev + init =~= all.drop_last());
        assert(distinct_paths(prev + init)) by {
            assert forall|i: int, j: int| 0 <= i < (prev + init).len() && 0 <= j < (prev + init).len() && i != j implies (prev + init)[i].val != (prev + init)[j].val by {
                assert((prev + init)[i] == all[i] && (prev + init)[j] == all[j]);
            }
        }
        lemma_insert_all_fresh(prev, init);
        assert(!has_path(prev + init, new.last().val)) by {
            if has_path(prev + init, new.last().val) {
                let i = choose|i: int| 0 <= i < (prev + init).len() && (prev + init)[i].val == new.last().val;
                assert(all[i] == (prev + init)[i]);
                assert(all[all.len() - 1] == new.last());
            }
        }
        assert((prev + init).push(new.last()) =~= prev + new);
    }
}

proof fn lemma_encode_nonempty(s: Seq<char>)
    requires
        s.len() > 0,
    ensures
        encode_utf8(s).len() > 0,
{
    vstd::utf8::encode_utf8_decode_utf8(s);
    vstd::utf8::encode_utf8_valid_utf8(s);
    if encode_utf8(s).len() == 0 {
        assert(decode_utf8(encode_utf8(s)) =~= Seq::<char>::empty());
    }
}

proof fn lemma_join_nonempty(val: Seq<Seq<char>>)
    requires
        val.len() >= 2 || (val.len() == 1 && val[0].len() > 0),
    ensures
        joined(val).len() > 0,
{
    if val.len() >= 2 {
        assert(join_with(val, '/') == join_with(val.drop_last(), '/') + seq!['/'] + val.last());
    }
}

/// A path that round-trips is read back from its bytes.
pub proof fn lemma_path_round_trip(val: Seq<Seq<char>>)
    requires
        path_round_trips(val),
    ensures
        path_from_bytes(path_bytes(val)) == Some(val),
{
    let t = joined(val);
    vstd::utf8::encode_utf8_valid_utf8(t);
    vstd::utf8::encode_utf8_decode_utf8(t);
    if val.len() == 0 {
        assert(t =~= Seq::<char>::empty());
        assert(encode_utf8(t) =~= Seq::<u8>::empty());
        assert(val =~= Seq::<Seq<char>>::empty());
    } else {
        lemma_join_nonempty(val);
        lemma_encode_nonempty(t);
        lemma_split_join(val, '/');
    }
}

/// A mapping that its bucket entry gives back: it fits the format and its
/// path round-trips.
pub open spec fn entry_round_trips(m: LocalMappingView) -> bool {
    local_mapping_valid(m.val, m.forward) && path_round_trips(m.val)
}

pub(crate) proof fn lemma_forward_bytes_len(f: ForwardView)
    requires
        forward_len_valid(f),
    ensures
        forward_bytes(f).len() <= 255,
{
}

#[verifier::rlimit(60)]
proof fn lemma_entry_parse(
    m: LocalMappingView,
    idx: int,
    rest: Seq<u8>,
    srcs: Seq<IndexSource>,
)
    requires
        entry_round_trips(m),
        0 <= idx < srcs.len(),
        srcs.len() <= u32::MAX,
        srcs[idx] == m.source,
    ensures
        parse_entries(encode_entry(m, idx) + rest, srcs) == prepend(
            seq![m],
            parse_entries(rest, srcs),
        ),
{
    reveal(parse_entries);
    let pb = path_bytes(m.val);
    let fb = forward_bytes(m.forward);
    lemma_forward_bytes_len(m.forward);
    let e = encode_entry(m, idx);
    let data = e + rest;
    let kl = pb.len() as int;
    let fl = fb.len() as int;
    let p3 = 3 + kl + fl;
    assert(e =~= seq![kl as u8, forward_type_id_spec(m.forward), fl as u8] + pb + fb + le32(idx));
    assert(data[0] == kl as u8);
    assert(data[2] == fl as u8);
    assert(data.subrange(3, 3 + kl) =~= pb);
    lemma_path_round_trip(m.val);
    assert(data.subrange(3 + kl, p3) =~= fb);
    assert(data.subrange(p3, p3 + 4) =~= le32(idx));
    lemma_le32_roundtrip(idx, data, p3);
    lemma_forward_pack_unpack(m.forward);
    assert(data.skip(p3 + 4) =~= rest);
    let got = LocalMappingView { val: m.val, source: srcs[idx], forward: m.forward };
    assert(got == m);
}

pub(crate) proof fn lemma_bucket_bytes_front(members: Seq<LocalMappingView>, srcs: Seq<IndexSource>)
    requires
        members.len() >= 1,
    ensures
        bucket_bytes(members, srcs) == encode_entry(
            members[0],
            source_position(srcs, members[0].source),
        ) + bucket_bytes(members.drop_first(), srcs),
    decreases members.len(),
{
    let first = encode_entry(members[0], source_position(srcs, members[0].source));
    if members.len() == 1 {
        assert(members.drop_last() =~= Seq::<LocalMappingView>::empty());
        assert(members.drop_first() =~= Seq::<LocalMappingView>::empty());
        assert(Seq::<u8>::empty() + first =~= first + Seq::<u8>::empty());
    } else {
        let init = members.drop_last();
        lemma_bucket_bytes_front(init, srcs);
        assert(init[0] == members[0]);
        let tail = members.drop_first();
        assert(tail.drop_last() =~= init.drop_first());
        assert(tail.last() == members.last());
        let l = encode_entry(members.last(), source_position(srcs, members.last().source));
        assert(first + bucket_bytes(init.drop_first(), srcs) + l =~= first + (bucket_bytes(
            init.drop_first(),
            srcs,
        ) + l));
    }
}

pub(crate) proof fn lemma_source_found(s: Seq<IndexSource>, x: IndexSource)
    requires
        has_source(s, x),
    ensures
        0 <= source_position(s, x) < s.len(),
        s[source_position(s, x)] == x,
    decreases s.len(),
{
    if s[0] != x {
        let i = choose|i: int| 0 <= i < s.len() && s[i] == x;
        assert(s.drop_first()[i - 1] == x);
        lemma_source_found(s.drop_first(), x);
    }
}

proof fn lemma_tail_props(members: Seq<LocalMappingView>, srcs: Seq<IndexSource>)
    requires
        members.len() >= 1,
        forall|i: int| 0 <= i < members.len() ==> entry_round_trips(#[trigger] members[i]),
        forall|i: int| 0 <= i < members.len() ==> has_source(srcs, #[trigger] members[i].source),
    ensures
        forall|i: int| 0 <= i < members.drop_first().len() ==> entry_round_trips(#[trigger] members.drop_first()[i]),
        forall|i: int| 0 <= i < members.drop_first().len() ==> has_source(srcs, #[trigger] members.drop_first()[i].source),
{
    assert forall|i: int| 0 <= i < members.drop_first().len() implies entry_round_trips(#[trigger] members.drop_first()[i]) && has_source(srcs, members.drop_first()[i].source) by {
        assert(members.drop_first()[i] == members[i + 1]);
    }
}

#[verifier::rlimit(40)]
proof fn lemma_bucket_parse(members: Seq<LocalMappingView>, srcs: Seq<IndexSource>)
    requires
        forall|i: int| 0 <= i < members.len() ==> entry_round_trips(#[trigger] members[i]),
        forall|i: int| 0 <= i < members.len() ==> has_source(srcs, #[trigger] members[i].source),
        srcs.len() <= u32::MAX,
    ensures
        parse_entries(bucket_bytes(members, srcs), srcs) == Ok::<Seq<LocalMappingView>, SheetFormatError>(members),
    decreases members.len(),
{
    if members.len() == 0 {
        reveal(parse_entries);
        assert(bucket_bytes(members, srcs) =~= Seq::<u8>::empty());
        assert(members =~= Seq::<LocalMappingView>::empty());
    } else {
        let m = members[0];
        let tail = members.drop_first();
        lemma_tail_props(members, srcs);
        lemma_bucket_parse(tail, srcs);
        let tb = bucket_bytes(tail, srcs);
        let idx = source_position(srcs, m.source);
        lemma_bucket_bytes_front(members, srcs);
        lemma_source_found(srcs, m.source);
        lemma_entry_parse(m, idx, tb, srcs);
        assert(parse_entries(tb, srcs) == Ok::<Seq<LocalMappingView>, SheetFormatError>(tail));
        assert(seq![m] + tail =~= members);
        assert(prepend(seq![m], parse_entries(tb, srcs)) == Ok::<Seq<LocalMappingView>, SheetFormatError>(members));
    }
}

proof fn lemma_table_layout(srcs: Seq<IndexSource>)
    ensures
        table_bytes(srcs).len() == 10 * srcs.len(),
        forall|i: int|
            0 <= i < srcs.len() ==> table_bytes(srcs).subrange(10 * i, 10 * i + 10) == encode_source(
                #[trigger] srcs[i],
            ),
    decreases srcs.len(),
{
    if srcs.len() > 0 {
        let init = srcs.drop_last();
        lemma_table_layout(init);
        let t = table_bytes(init);
        let tb = table_bytes(srcs);
        assert(tb == t + encode_source(srcs.last()));
        assert forall|i: int| 0 <= i < srcs.len() implies tb.subrange(10 * i, 10 * i + 10) == encode_source(
            #[trigger] srcs[i],
        ) by {
            if i < srcs.len() - 1 {
                assert(init[i] == srcs[i]);
                assert(tb.subrange(10 * i, 10 * i + 10) =~= t.subrange(10 * i, 10 * i + 10));
            } else {
                assert(tb.subrange(10 * i, 10 * i + 10) =~= encode_source(srcs.last()));
            }
        }
    }
}

proof fn lemma_parse_table(b: Seq<u8>, t: int, srcs: Seq<IndexSource>)
    requires
        0 <= t,
        t + 10 * srcs.len() <= b.len(),
        b.subrange(t, t + 10 * srcs.len()) == table_bytes(srcs),
    ensures
        parse_table(b, t, srcs.len() as int) == Ok::<Seq<IndexSource>, SheetFormatError>(srcs),
{
    lemma_table_layout(srcs);
    let tb = table_bytes(srcs);
    let got = Seq::new(
        srcs.len(),
        |i: int|
            IndexSource::spec_new(
                b[t + 10 * i + 6] != 0,
                get_le32(b, t + 10 * i) as u32,
                get_le16(b, t + 10 * i + 4) as u16,
            ),
    );
    assert forall|i: int| 0 <= i < srcs.len() implies got[i] == srcs[i] by {
        let s = srcs[i];
        let e = encode_source(s);
        assert(tb.subrange(10 * i, 10 * i + 10) == e);
        assert(b.subrange(t + 10 * i, t + 10 * i + 4) =~= e.subrange(0, 4));
        assert(e.subrange(0, 4) =~= le32(s.spec_id() as int));
        lemma_le32_roundtrip(s.spec_id() as int, b, t + 10 * i);
        assert(b.subrange(t + 10 * i + 4, t + 10 * i + 6) =~= e.subrange(4, 6));
        assert(e.subrange(4, 6) =~= le16(s.spec_ver() as int));
        lemma_le16_roundtrip(s.spec_ver() as int, b, t + 10 * i + 4);
        assert(b[t + 10 * i + 6] == e[6]);
        IndexSource::lemma_spec_new(b[t + 10 * i + 6] != 0, get_le32(b, t + 10 * i) as u32, get_le16(b, t + 10 * i + 4) as u16);
        IndexSource::lemma_ext(got[i], s);
    }
    assert(got =~= srcs);
}

/// One directory entry: key, data offset and data length.
pub open spec fn dir_entry(key: u32, off: int, len: int) -> Seq<u8> {
    le32(key as int) + le32(off) + le32(len)
}

#[verifier::rlimit(40)]
proof fn lemma_dir_layout(bs: Seq<Bucket>, srcs: Seq<IndexSource>, start: int)
    ensures
        dir_bytes(bs, srcs, start).len() == 12 * bs.len(),
        forall|k: int|
            0 <= k < bs.len() ==> dir_bytes(bs, srcs, start).subrange(12 * k, 12 * k + 12) == dir_entry(
                (#[trigger] bs[k]).key,
                start + recorded_prefix(bs.take(k), srcs),
                recorded_len(bs[k], srcs),
            ),
    decreases bs.len(),
{
    if bs.len() > 0 {
        let init = bs.drop_last();
        lemma_dir_layout(init, srcs, start);
        let d0 = dir_bytes(init, srcs, start);
        let d = dir_bytes(bs, srcs, start);
        let n = bs.len() - 1;
        assert(bs.take(n) =~= init);
        let last = dir_entry(bs.last().key, start + recorded_prefix(init, srcs), recorded_len(bs.last(), srcs));
        assert(d =~= d0 + last);
        assert forall|k: int| 0 <= k < bs.len() implies d.subrange(12 * k, 12 * k + 12) == dir_entry(
            (#[trigger] bs[k]).key,
            start + recorded_prefix(bs.take(k), srcs),
            recorded_len(bs[k], srcs),
        ) by {
            if k < n {
                assert(init[k] == bs[k]);
                assert(init.take(k) =~= bs.take(k));
                assert(d.subrange(12 * k, 12 * k + 12) =~= d0.subrange(12 * k, 12 * k + 12));
            } else {
                assert(d.subrange(12 * k, 12 * k + 12) =~= last);
            }
        }
    }
}

proof fn lemma_data_split(bs: Seq<Bucket>, srcs: Seq<IndexSource>, k: int)
    requires
        0 <= k <= bs.len(),
    ensures
        all_bucket_bytes(bs, srcs) == all_bucket_bytes(bs.take(k), srcs) + all_bucket_bytes(
            bs.skip(k),
            srcs,
        ),
    decreases bs.len(),
{
    if k == bs.len() {
        assert(bs.take(k) =~= bs);
        assert(bs.skip(k) =~= Seq::<Bucket>::empty());
        assert(all_bucket_bytes(bs, srcs) + Seq::<u8>::empty() =~= all_bucket_bytes(bs, srcs));
    } else {
        let init = bs.drop_last();
        lemma_data_split(init, srcs, k);
        assert(init.take(k) =~= bs.take(k));
        assert(bs.skip(k).drop_last() =~= init.skip(k));
        assert(bs.skip(k).last() == bs.last());
        let l = bucket_bytes(bs.last().members, srcs);
        assert(all_bucket_bytes(bs.take(k), srcs) + all_bucket_bytes(init.skip(k), srcs) + l
            =~= all_bucket_bytes(bs.take(k), srcs) + (all_bucket_bytes(init.skip(k), srcs) + l));
    }
}

/// Where bucket `k`'s data lies among all bucket data.
proof fn lemma_data_chunk(bs: Seq<Bucket>, srcs: Seq<IndexSource>, k: int)
    requires
        0 <= k < bs.len(),
    ensures
        ({
            let a = all_bucket_bytes(bs.take(k), srcs).len() as int;
            let l = bucket_bytes(bs[k].members, srcs).len() as int;
            &&& a + l <= all_bucket_bytes(bs, srcs).len()
            &&& all_bucket_bytes(bs, srcs).subrange(a, a + l) == bucket_bytes(bs[k].members, srcs)
        }),
{
    lemma_data_split(bs, srcs, k + 1);
    let t = bs.take(k + 1);
    assert(t.drop_last() =~= bs.take(k));
    assert(t.last() == bs[k]);
    let a = all_bucket_bytes(bs.take(k), srcs).len() as int;
    let l = bucket_bytes(bs[k].members, srcs).len() as int;
    let all = all_bucket_bytes(bs, srcs);
    assert(all.subrange(a, a + l) =~= bucket_bytes(bs[k].members, srcs));
}

proof fn lemma_recorded_exact(bs: Seq<Bucket>, srcs: Seq<IndexSource>)
    requires
        all_bucket_bytes(bs, srcs).len() < 0x1_0000_0000,
    ensures
        recorded_prefix(bs, srcs) == all_bucket_bytes(bs, srcs).len(),
    decreases bs.len(),
{
    if bs.len() > 0 {
        lemma_recorded_exact(bs.drop_last(), srcs);
    }
}

/// Recorded offsets of the first `k` buckets are exact when all bucket
/// data fits in 32 bits.
pub(crate) proof fn lemma_recorded_prefix_exact(bs: Seq<Bucket>, srcs: Seq<IndexSource>, k: int)
    requires
        0 <= k <= bs.len(),
        all_bucket_bytes(bs, srcs).len() < 0x1_0000_0000,
    ensures
        recorded_prefix(bs.take(k), srcs) == all_bucket_bytes(bs.take(k), srcs).len(),
{
    lemma_data_split(bs, srcs, k);
    lemma_recorded_exact(bs.take(k), srcs);
}

pub(crate) proof fn lemma_members_split(bs: Seq<Bucket>, k: int)
    requires
        0 <= k <= bs.len(),
    ensures
        bucket_members(bs) == bucket_members(bs.take(k)) + bucket_members(bs.skip(k)),
    decreases bs.len(),
{
    if k == bs.len() {
        assert(bs.take(k) =~= bs);
        assert(bs.skip(k) =~= Seq::<Bucket>::empty());
        assert(bucket_members(bs) + Seq::<LocalMappingView>::empty() =~= bucket_members(bs));
    } else {
        let init = bs.drop_last();
        lemma_members_split(init, k);
        assert(init.take(k) =~= bs.take(k));
        assert(bs.skip(k).drop_last() =~= init.skip(k));
        assert(bs.skip(k).last() == bs.last());
        let l = bs.last().members;
        assert(bucket_members(bs.take(k)) + bucket_members(init.skip(k)) + l =~= bucket_members(
            bs.take(k),
        ) + (bucket_members(init.skip(k)) + l));
    }
}

proof fn lemma_distinct_prefix(a: Seq<LocalMappingView>, b: Seq<LocalMappingView>)
    requires
        distinct_paths(a + b),
    ensures
        distinct_paths(a),
{
    assert forall|i: int, j: int| 0 <= i < a.len() && 0 <= j < a.len() && i != j implies a[i].val != a[j].val by {
        assert((a + b)[i] == a[i] && (a + b)[j] == a[j]);
    }
}

proof fn lemma_read_buckets(b: Seq<u8>, bs: Seq<Bucket>, srcs: Seq<IndexSource>, k: int)
    requires
        0 <= k <= bs.len(),
        forall|j: int|
            0 <= j < bs.len() ==> {
                let off = get_le32(b, 15 + 12 * j + 4);
                let len = get_le32(b, 15 + 12 * j + 8);
                &&& off + len <= b.len()
                &&& b.subrange(off, off + len) == bucket_bytes((#[trigger] bs[j]).members, srcs)
                &&& parse_entries(bucket_bytes(bs[j].members, srcs), srcs) == Ok::<
                    Seq<LocalMappingView>,
                    SheetFormatError,
                >(bs[j].members)
            },
        distinct_paths(bucket_members(bs)),
    ensures
        read_buckets(b, 15, k, srcs) == Ok::<Seq<LocalMappingView>, SheetFormatError>(
            bucket_members(bs.take(k)),
        ),
    decreases k,
{
    if k == 0 {
        assert(bs.take(0) =~= Seq::<Bucket>::empty());
    } else {
        lemma_read_buckets(b, bs, srcs, k - 1);
        let j = k - 1;
        let bj = bs[j];
        let prev = bucket_members(bs.take(j));
        let t = bs.take(k);
        assert(t.drop_last() =~= bs.take(j));
        assert(t.last() == bj);
        assert(bucket_members(t) == prev + bj.members);
        lemma_members_split(bs, k);
        lemma_distinct_prefix(bucket_members(t), bucket_members(bs.skip(k)));
        lemma_insert_all_fresh(prev, bj.members);
    }
}

/// Every mapping of the sorted sequence is one of the given mappings.
pub(crate) proof fn lemma_sorted_from(ms: Seq<LocalMappingView>, i: int)
    requires
        0 <= i < sort_entries(ms).len(),
    ensures
        exists|a: int| 0 <= a < ms.len() && ms[a] == sort_entries(ms)[i],
{
    lemma_sort_entries_permutes(ms);
    let es = sort_entries(ms);
    assert(es.contains(es[i]));
    assert(es.to_multiset().count(es[i]) > 0);
    assert(ms.contains(es[i]));
}

/// The bytes the writer lays out for the given buckets and index sources.
pub open spec fn layout(bs: Seq<Bucket>, srcs: Seq<IndexSource>) -> Seq<u8> {
    let nb = bs.len() as int;
    let start = data_start(bs, srcs);
    seq![1u8] + le16(nb) + le32(srcs.len() as int) + le32(15) + le32(15 + 12 * (nb % 0x10000))
        + dir_bytes(bs, srcs, start) + table_bytes(srcs) + all_bucket_bytes(bs, srcs)
}

pub(crate) proof fn lemma_dir_len(bs: Seq<Bucket>, srcs: Seq<IndexSource>, start: int)
    ensures
        dir_bytes(bs, srcs, start).len() == 12 * bs.len(),
    decreases bs.len(),
{
    if bs.len() > 0 {
        lemma_dir_len(bs.drop_last(), srcs, start);
    }
}

proof fn lemma_table_len(srcs: Seq<IndexSource>)
    ensures
        table_bytes(srcs).len() == 10 * srcs.len(),
    decreases srcs.len(),
{
    if srcs.len() > 0 {
        lemma_table_len(srcs.drop_last());
    }
}

pub(crate) proof fn lemma_dir_entry_at(bs: Seq<Bucket>, srcs: Seq<IndexSource>, start: int, j: int)
    requires
        0 <= j < bs.len(),
    ensures
        dir_bytes(bs, srcs, start).subrange(12 * j, 12 * j + 12) == dir_entry(
            bs[j].key,
            start + recorded_prefix(bs.take(j), srcs),
            recorded_len(bs[j], srcs),
        ),
{
    lemma_dir_layout(bs, srcs, start);
    let bj = bs[j];
}

/// Where the parts of laid out bytes lie.
pub(crate) proof fn lemma_layout_parts(bs: Seq<Bucket>, srcs: Seq<IndexSource>)
    requires
        bs.len() < 0x10000,
        layout(bs, srcs).len() <= u32::MAX,
    ensures
        ({
            let nb = bs.len() as int;
            let ni = srcs.len() as int;
            let b = layout(bs, srcs);
            let a = all_bucket_bytes(bs, srcs);
            &&& b.len() == 15 + 12 * nb + 10 * ni + a.len()
            &&& data_start(bs, srcs) == 15 + 12 * nb + 10 * ni
            &&& b.subrange(15, 15 + 12 * nb) == dir_bytes(bs, srcs, data_start(bs, srcs))
            &&& b.subrange(15 + 12 * nb + 10 * ni, b.len() as int) == a
        }),
{
    let nb = bs.len() as int;
    let ni = srcs.len() as int;
    let start = data_start(bs, srcs);
    let d = dir_bytes(bs, srcs, start);
    let t = table_bytes(srcs);
    let a = all_bucket_bytes(bs, srcs);
    let b = layout(bs, srcs);
    assert(b == header(nb, ni) + d + t + a);
    lemma_dir_len(bs, srcs, start);
    lemma_table_len(srcs);
    lemma_header_bytes(nb, ni, d, t, a);
}

/// The fixed header of laid out bytes.
pub open spec fn header(nb: int, ni: int) -> Seq<u8> {
    seq![1u8] + le16(nb) + le32(ni) + le32(15) + le32(15 + 12 * (nb % 0x10000))
}

proof fn lemma_le32_at(pre: Seq<u8>, v: int, post: Seq<u8>)
    requires
        0 <= v,
    ensures
        get_le32(pre + le32(v) + post, pre.len() as int) == v % 0x1_0000_0000,
{
    reveal(le32);
    let s = pre + le32(v) + post;
    let p = pre.len() as int;
    assert(s[p] == le32(v)[0]);
    assert(s[p + 1] == le32(v)[1]);
    assert(s[p + 2] == le32(v)[2]);
    assert(s[p + 3] == le32(v)[3]);
    crate::sheet::v1::bytes::lemma_four_bytes(v);
}

proof fn lemma_le16_at(pre: Seq<u8>, v: int, post: Seq<u8>)
    requires
        0 <= v,
    ensures
        get_le16(pre + le16(v) + post, pre.len() as int) == v % 0x10000,
{
    reveal(le16);
    let s = pre + le16(v) + post;
    let p = pre.len() as int;
    assert(s[p] == le16(v)[0]);
    assert(s[p + 1] == le16(v)[1]);
    vstd::arithmetic::div_mod::lemma_mod_breakdown(v, 256, 256);
}

proof fn lemma_header_bytes(nb: int, ni: int, d: Seq<u8>, t: Seq<u8>, a: Seq<u8>)
    requires
        0 <= nb < 0x10000,
        0 <= ni < 0x1_0000_0000,
        d.len() == 12 * nb,
        t.len() == 10 * ni,
    ensures
        ({
            let b = header(nb, ni) + d + t + a;
            &&& b.len() == 15 + 12 * nb + 10 * ni + a.len()
            &&& b[0] == 1
            &&& get_le16(b, 1) == nb
            &&& get_le32(b, 3) == ni
            &&& get_le32(b, 7) == 15
            &&& get_le32(b, 11) == 15 + 12 * nb
            &&& b.subrange(15 + 12 * nb, 15 + 12 * nb + 10 * ni) == t
            &&& b.subrange(15, 15 + 12 * nb) == d
            &&& b.subrange(15 + 12 * nb + 10 * ni, b.len() as int) == a
        }),
{
    let h1 = seq![1u8];
    let l16 = le16(nb);
    let l32a = le32(ni);
    let l32b = le32(15);
    let l32c = le32(15 + 12 * (nb % 0x10000));
    let rest = d + t + a;
    let b = header(nb, ni) + d + t + a;
    assert(b =~= h1 + l16 + (l32a + l32b + l32c + rest));
    lemma_le16_at(h1, nb, l32a + l32b + l32c + rest);
    assert(b =~= (h1 + l16) + l32a + (l32b + l32c + rest));
    lemma_le32_at(h1 + l16, ni, l32b + l32c + rest);
    assert(b =~= (h1 + l16 + l32a) + l32b + (l32c + rest));
    lemma_le32_at(h1 + l16 + l32a, 15, l32c + rest);
    assert(b =~= (h1 + l16 + l32a + l32b) + l32c + rest);
    lemma_le32_at(h1 + l16 + l32a + l32b, 15 + 12 * (nb % 0x10000), rest);
    assert(b.subrange(15 + 12 * nb, 15 + 12 * nb + 10 * ni) =~= t);
    assert(b.subrange(15, 15 + 12 * nb) =~= d);
    assert(b.subrange(15 + 12 * nb + 10 * ni, b.len() as int) =~= a);
}

/// Facts on the header and index table of laid out bytes.
#[verifier::rlimit(60)]
pub(crate) proof fn lemma_layout_header(bs: Seq<Bucket>, srcs: Seq<IndexSource>)
    requires
        bs.len() < 0x10000,
        layout(bs, srcs).len() <= u32::MAX,
    ensures
        ({
            let nb = bs.len() as int;
            let ni = srcs.len() as int;
            let b = layout(bs, srcs);
            let a = all_bucket_bytes(bs, srcs);
            &&& b.len() == 15 + 12 * nb + 10 * ni + a.len()
            &&& b[0] == 1
            &&& get_le16(b, 1) == nb
            &&& get_le32(b, 3) == ni
            &&& get_le32(b, 7) == 15
            &&& get_le32(b, 11) == 15 + 12 * nb
            &&& parse_table(b, 15 + 12 * nb, ni) == Ok::<Seq<IndexSource>, SheetFormatError>(srcs)
            &&& data_start(bs, srcs) == 15 + 12 * nb + 10 * ni
            &&& b.subrange(15, 15 + 12 * nb) == dir_bytes(bs, srcs, data_start(bs, srcs))
            &&& b.subrange(15 + 12 * nb + 10 * ni, b.len() as int) == a
        }),
{
    let nb = bs.len() as int;
    let ni = srcs.len() as int;
    let start = data_start(bs, srcs);
    let d = dir_bytes(bs, srcs, start);
    let t = table_bytes(srcs);
    let a = all_bucket_bytes(bs, srcs);
    let b = layout(bs, srcs);
    assert(b == header(nb, ni) + d + t + a);
    lemma_dir_len(bs, srcs, start);
    lemma_table_len(srcs);
    assert(ni < 0x1_0000_0000);
    lemma_header_bytes(nb, ni, d, t, a);
    lemma_parse_table(b, 15 + 12 * nb, srcs);
}

pub(crate) proof fn lemma_le32_bytes(b: Seq<u8>, p: int, v: int)
    requires
        0 <= v,
        0 <= p,
        p + 4 <= b.len(),
        b[p] == le32(v)[0],
        b[p + 1] == le32(v)[1],
        b[p + 2] == le32(v)[2],
        b[p + 3] == le32(v)[3],
    ensures
        get_le32(b, p) == v % 0x1_0000_0000,
{
    reveal(le32);
    crate::sheet::v1::bytes::lemma_four_bytes(v);
}

proof fn lemma_dir_entry_bytes(b: Seq<u8>, d: Seq<u8>, j: int, key: u32, off: int, l: int)
    requires
        0 <= j,
        12 * j + 12 <= d.len(),
        15 + d.len() <= b.len(),
        b.subrange(15, 15 + d.len() as int) == d,
        d.subrange(12 * j, 12 * j + 12) == dir_entry(key, off, l),
        0 <= off < 0x1_0000_0000,
        0 <= l < 0x1_0000_0000,
    ensures
        get_le32(b, 15 + 12 * j + 4) == off,
        get_le32(b, 15 + 12 * j + 8) == l,
{
    let e = 15 + 12 * j;
    let sub = b.subrange(15, 15 + d.len() as int);
    let de = d.subrange(12 * j, 12 * j + 12);
    assert forall|q: int| 0 <= q < 12 implies b[e + q] == dir_entry(key, off, l)[q] by {
        assert(sub[12 * j + q] == b[e + q]);
        assert(de[q] == d[12 * j + q]);
    }
    let x = dir_entry(key, off, l);
    assert(x[4] == le32(off)[0] && x[5] == le32(off)[1] && x[6] == le32(off)[2] && x[7] == le32(off)[3]);
    assert(b[e + 4] == x[4] && b[e + 5] == x[5] && b[e + 6] == x[6] && b[e + 7] == x[7]);
    lemma_le32_bytes(b, e + 4, off);
    assert(x[8] == le32(l)[0] && x[9] == le32(l)[1] && x[10] == le32(l)[2] && x[11] == le32(l)[3]);
    assert(b[e + 8] == x[8] && b[e + 9] == x[9] && b[e + 10] == x[10] && b[e + 11] == x[11]);
    lemma_le32_bytes(b, e + 8, l);
    vstd::arithmetic::div_mod::lemma_small_mod(off as nat, 0x1_0000_0000);
    vstd::arithmetic::div_mod::lemma_small_mod(l as nat, 0x1_0000_0000);
}

/// Where bucket `j` of laid out bytes lies.
pub(crate) proof fn lemma_layout_bucket(bs: Seq<Bucket>, srcs: Seq<IndexSource>, j: int)
    requires
        bs.len() < 0x10000,
        layout(bs, srcs).len() <= u32::MAX,
        0 <= j < bs.len(),
    ensures
        ({
            let b = layout(bs, srcs);
            let off = get_le32(b, 15 + 12 * j + 4);
            let len = get_le32(b, 15 + 12 * j + 8);
            &&& off + len <= b.len()
            &&& b.subrange(off, off + len) == bucket_bytes(bs[j].members, srcs)
        }),
{
    let nb = bs.len() as int;
    let ni = srcs.len() as int;
    let start = data_start(bs, srcs);
    let d = dir_bytes(bs, srcs, start);
    let a = all_bucket_bytes(bs, srcs);
    let b = layout(bs, srcs);
    lemma_layout_parts(bs, srcs);
    let bj = bs[j];
    let mem = bj.members;
    lemma_dir_entry_at(bs, srcs, start, j);
    lemma_recorded_prefix_exact(bs, srcs, j);
    lemma_data_chunk(bs, srcs, j);
    let pa = all_bucket_bytes(bs.take(j), srcs).len() as int;
    let l = bucket_bytes(mem, srcs).len() as int;
    assert(recorded_len(bj, srcs) == l);
    lemma_dir_entry_bytes(b, d, j, bj.key, start + pa, l);
    let base = 15 + 12 * nb + 10 * ni;
    let bsub = b.subrange(start + pa, start + pa + l);
    let asub = a.subrange(pa, pa + l);
    let tail = b.subrange(base, b.len() as int);
    assert forall|q: int| 0 <= q < l implies #[trigger] bsub[q] == asub[q] by {
        assert(tail[pa + q] == b[base + pa + q]);
    }
    assert(bsub =~= asub);
}

/// Every sorted mapping round-trips and has its source in the table.
pub(crate) proof fn lemma_sorted_entries_ok(ms: Seq<LocalMappingView>)
    requires
        forall|i: int| 0 <= i < ms.len() ==> entry_round_trips(#[trigger] ms[i]),
    ensures
        forall|i: int| 0 <= i < sort_entries(ms).len() ==> entry_round_trips(#[trigger] sort_entries(ms)[i])
            && has_source(unique_sources(ms), sort_entries(ms)[i].source),
{
    let es = sort_entries(ms);
    assert forall|i: int| 0 <= i < es.len() implies entry_round_trips(#[trigger] es[i]) && has_source(unique_sources(ms), es[i].source) by {
        lemma_sorted_from(ms, i);
        let x = choose|x: int| 0 <= x < ms.len() && ms[x] == es[i];
        lemma_sources_cover(ms, x);
    }
}

/// Bucket `j`'s mappings read back from its entries.
proof fn lemma_members_parse(bs: Seq<Bucket>, srcs: Seq<IndexSource>, j: int)
    requires
        0 <= j < bs.len(),
        srcs.len() <= u32::MAX,
        forall|i: int| 0 <= i < bucket_members(bs).len() ==> entry_round_trips(#[trigger] bucket_members(bs)[i])
            && has_source(srcs, bucket_members(bs)[i].source),
    ensures
        parse_entries(bucket_bytes(bs[j].members, srcs), srcs) == Ok::<
            Seq<LocalMappingView>,
            SheetFormatError,
        >(bs[j].members),
{
    let mem = bs[j].members;
    let es = bucket_members(bs);
    lemma_members_split(bs, j + 1);
    let tk = bs.take(j + 1);
    assert(tk.drop_last() =~= bs.take(j));
    assert(tk.last() == bs[j]);
    let pre = bucket_members(bs.take(j));
    assert(bucket_members(tk) == pre + mem);
    assert forall|q: int| 0 <= q < mem.len() implies entry_round_trips(#[trigger] mem[q]) && has_source(srcs, mem[q].source) by {
        assert(es[pre.len() + q] == mem[q]);
    }
    lemma_bucket_parse(mem, srcs);
}

/// Reading back the bytes that the writer produced gives the same
/// mappings, in the order the writer lays them out (by bucket key, then by
/// path). This holds when no two mappings share a path, every mapping fits
/// the format and has a path that its bytes give back, there are fewer than
/// 2^16 buckets, and the whole sheet is shorter than 2^32 bytes.
#[verifier::spinoff_prover]
#[verifier::rlimit(50)]
pub proof fn lemma_read_written_sheet(ms: Seq<LocalMappingView>)
    requires
        distinct_paths(ms),
        forall|i: int| 0 <= i < ms.len() ==> entry_round_trips(#[trigger] ms[i]),
        group_buckets(sort_entries(ms)).len() < 0x10000,
        sheet_bytes(ms).len() <= u32::MAX,
    ensures
        read_sheet_spec(sheet_bytes(ms)) == Ok::<Seq<LocalMappingView>, SheetFormatError>(sort_entries(ms)),
        sort_entries(ms).to_multiset() == ms.to_multiset(),
{
    let srcs = unique_sources(ms);
    let es = sort_entries(ms);
    let bs = group_buckets(es);
    let nb = bs.len() as int;
    let b = sheet_bytes(ms);
    assert(b == layout(bs, srcs));
    lemma_layout_header(bs, srcs);
    lemma_sort_entries_permutes(ms);
    lemma_sort_entries_distinct(ms);
    lemma_group_members(es);
    lemma_sorted_entries_ok(ms);
    assert(srcs.len() <= u32::MAX);
    assert forall|j: int| 0 <= j < bs.len() implies {
        let off = get_le32(b, 15 + 12 * j + 4);
        let len = get_le32(b, 15 + 12 * j + 8);
        &&& off + len <= b.len()
        &&& b.subrange(off, off + len) == bucket_bytes((#[trigger] bs[j]).members, srcs)
        &&& parse_entries(bucket_bytes(bs[j].members, srcs), srcs) == Ok::<
            Seq<LocalMappingView>,
            SheetFormatError,
        >(bs[j].members)
    } by {
        lemma_layout_bucket(bs, srcs, j);
        lemma_members_parse(bs, srcs, j);
    }
    lemma_read_buckets(b, bs, srcs, nb);
    assert(bs.take(nb) =~= bs);
}
} // verus!
