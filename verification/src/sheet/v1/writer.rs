//! Writing sheet data in the version-1 format.
use vstd::prelude::*;
use vstd::utf8::encode_utf8;
use crate::index_source::IndexSource;
use crate::mapping::{forward_bytes, forward_type_id_spec, joined, local_mapping_valid, LocalMapping, LocalMappingView};
use crate::sheet::{mappings_view, SheetData};
use crate::sheet::v1::bytes::{lemma_le16_mod, lemma_le32_mod, push_le16, push_le32};
use crate::sheet::v1::format::{
    all_bucket_bytes, bucket_bytes, bucket_key, char_lt, data_start, dir_bytes, encode_entry,
    encode_source, entry_gt, get_le32, group_buckets, has_source, insert_position, le16, le32,
    path_bytes, path_hash, path_hash_input, path_lt, recorded_len, recorded_prefix, sha256,
    sheet_bytes, sort_entries, source_position, table_bytes, text_lt, unique_sources, Bucket,
};
use crate::text::{bytes_of, chars_of, join_chars, string_of, strings_view};

verus! {

broadcast use crate::sheet::v1::format::group_le_lengths;

/// SHA-256 digest of the bytes.
///
/// Calls `sha2::Sha256::digest`; the contract names the result and claims
/// it has 32 bytes, the digest size of SHA-256.
#[verifier::external_body]
fn sha256_digest(data: &[u8]) -> (r: Vec<u8>)
    ensures
        r@ == sha256(data@),
        r@.len() == 32,
{
    <sha2::Sha256 as sha2::Digest>::digest(data).to_vec()
}

/// Hash of a path: the first four bytes, little-endian, of the SHA-256
/// digest of its nodes each followed by `/`.
pub fn calculate_path_hash(path: &[String]) -> (r: u32)
    ensures
        r == path_hash(strings_view(path@)),
{
    let mut input: Vec<u8> = Vec::new();
    let mut i: usize = 0;
    while i < path.len()
        invariant
            0 <= i <= path.len(),
            input@ == path_hash_input(strings_view(path@.take(i as int))),
        decreases path.len() - i,
    {
        let mut b = bytes_of(path[i].as_str());
        input.append(&mut b);
        input.push(0x2F);
        assert(strings_view(path@.take(i + 1)).drop_last() =~= strings_view(path@.take(i as int)));
        assert(strings_view(path@.take(i + 1)).last() == path@[i as int]@);
        i = i + 1;
    }
    assert(path@.take(path.len() as int) =~= path@);
    let d = sha256_digest(input.as_slice());
    (d[0] as u32) + (d[1] as u32) * 0x100 + (d[2] as u32) * 0x10000 + (d[3] as u32) * 0x1000000
}

/// Serialize a path: its nodes joined with `/`, in UTF-8.
pub fn serialize_path(path: &Vec<String>) -> (r: Vec<u8>)
    ensures
        r@ == path_bytes(strings_view(path@)),
{
    let j = join_chars(path, '/');
    let s = string_of(j.as_slice());
    bytes_of(s.as_str())
}

proof fn lemma_source_position(s: Seq<IndexSource>, x: IndexSource, i: int)
    requires
        0 <= i <= s.len(),
        forall|j: int| 0 <= j < i ==> s[j] != x,
        i < s.len() ==> s[i] == x,
    ensures
        source_position(s, x) == i,
    decreases i,
{
    if i > 0 {
        lemma_source_position(s.drop_first(), x, i - 1);
    }
}

/// Position of `x` in `srcs`, or its length when absent.
fn find_source(srcs: &Vec<IndexSource>, x: IndexSource) -> (r: usize)
    ensures
        r <= srcs.len(),
        r < srcs.len() <==> has_source(srcs@, x),
        r < srcs.len() ==> r as int == source_position(srcs@, x) && srcs@[r as int] == x,
{
    let mut i: usize = 0;
    while i < srcs.len()
        invariant
            0 <= i <= srcs.len(),
            forall|j: int| 0 <= j < i ==> srcs@[j] != x,
        decreases srcs.len() - i,
    {
        if srcs[i] == x {
            proof {
                lemma_source_position(srcs@, x, i as int);
            }
            return i;
        }
        i = i + 1;
    }
    i
}

/// The distinct index sources of the mappings, in order of first use.
fn collect_sources(ms: &Vec<LocalMapping>) -> (r: Vec<IndexSource>)
    ensures
        r@ == unique_sources(mappings_view(ms@)),
{
    let ghost mv = mappings_view(ms@);
    let mut srcs: Vec<IndexSource> = Vec::new();
    let mut i: usize = 0;
    while i < ms.len()
        invariant
            0 <= i <= ms.len(),
            mv == mappings_view(ms@),
            srcs@ == unique_sources(mv.take(i as int)),
        decreases ms.len() - i,
    {
        assert(mv.take(i + 1).drop_last() =~= mv.take(i as int));
        assert(mv.take(i + 1).last() == ms@[i as int]@);
        let s = ms[i].index_source();
        if find_source(&srcs, s) == srcs.len() {
            srcs.push(s);
        }
        i = i + 1;
    }
    assert(mv.take(ms.len() as int) =~= mv);
    srcs
}

/// Lexicographic order of character vectors by code point.
fn text_less(a: &Vec<char>, b: &Vec<char>) -> (r: bool)
    ensures
        r == text_lt(a@, b@),
{
    let mut i: usize = 0;
    assert(a@.skip(0) =~= a@);
    assert(b@.skip(0) =~= b@);
    while i < a.len() && i < b.len()
        invariant
            0 <= i <= a.len(),
            i <= b.len(),
            text_lt(a@, b@) == text_lt(a@.skip(i as int), b@.skip(i as int)),
        decreases a.len() - i,
    {
        assert(a@.skip(i as int)[0] == a@[i as int]);
        assert(b@.skip(i as int)[0] == b@[i as int]);
        if a[i] != b[i] {
            assert(char_lt(a@[i as int], b@[i as int]) == ((a@[i as int] as u32) < (b@[i as int] as u32)));
            return (a[i] as u32) < (b[i] as u32);
        }
        assert(a@.skip(i as int).drop_first() =~= a@.skip(i + 1));
        assert(b@.skip(i as int).drop_first() =~= b@.skip(i + 1));
        i = i + 1;
    }
    i == a.len() && i < b.len()
}

/// Lexicographic order of paths, node by node.
pub fn path_less(a: &Vec<String>, b: &Vec<String>) -> (r: bool)
    ensures
        r == path_lt(strings_view(a@), strings_view(b@)),
{
    let ghost av = strings_view(a@);
    let ghost bv = strings_view(b@);
    let mut i: usize = 0;
    assert(av.skip(0) =~= av);
    assert(bv.skip(0) =~= bv);
    while i < a.len() && i < b.len()
        invariant
            0 <= i <= a.len(),
            i <= b.len(),
            av == strings_view(a@),
            bv == strings_view(b@),
            path_lt(av, bv) == path_lt(av.skip(i as int), bv.skip(i as int)),
        decreases a.len() - i,
    {
        assert(av.skip(i as int)[0] == a@[i as int]@);
        assert(bv.skip(i as int)[0] == b@[i as int]@);
        let x = chars_of(a[i].as_str());
        let y = chars_of(b[i].as_str());
        if a[i] != b[i] {
            return text_less(&x, &y);
        }
        assert(av.skip(i as int).drop_first() =~= av.skip(i + 1));
        assert(bv.skip(i as int).drop_first() =~= bv.skip(i + 1));
        i = i + 1;
    }
    i == a.len() && i < b.len()
}

/// Whether the mapping with key `ka` goes after the one with key `kb`.
fn entry_after(ka: u32, a: &LocalMapping, kb: u32, b: &LocalMapping) -> (r: bool)
    requires
        ka == bucket_key(a@.val),
        kb == bucket_key(b@.val),
    ensures
        r == entry_gt(a@, b@),
{
    ka > kb || (ka == kb && path_less(b.value(), a.value()))
}

proof fn lemma_insert_position_step(s: Seq<LocalMappingView>, x: LocalMappingView, p: int)
    requires
        0 <= p < s.len(),
        !entry_gt(s[p], x),
    ensures
        insert_position(s.skip(p), x) == 1 + insert_position(s.skip(p + 1), x),
{
    assert(s.skip(p)[0] == s[p]);
    assert(s.skip(p).drop_first() =~= s.skip(p + 1));
}

/// Order in which the writer lays out the mappings: indices into `ms`,
/// stably sorted by bucket key and path.
fn sort_order(ms: &Vec<LocalMapping>, keys: &Vec<u32>) -> (r: Vec<usize>)
    requires
        keys.len() == ms.len(),
        forall|i: int| 0 <= i < ms.len() ==> keys@[i] == bucket_key(ms@[i]@.val),
    ensures
        forall|i: int| 0 <= i < r.len() ==> r@[i] < ms.len(),
        r@.map_values(|k: usize| mappings_view(ms@)[k as int]) == sort_entries(mappings_view(ms@)),
{
    let ghost mv = mappings_view(ms@);
    let mut order: Vec<usize> = Vec::new();
    let mut i: usize = 0;
    while i < ms.len()
        invariant
            0 <= i <= ms.len(),
            keys.len() == ms.len(),
            forall|j: int| 0 <= j < ms.len() ==> keys@[j] == bucket_key(ms@[j]@.val),
            mv == mappings_view(ms@),
            forall|j: int| 0 <= j < order.len() ==> order@[j] < ms.len(),
            order@.map_values(|k: usize| mv[k as int]) == sort_entries(mv.take(i as int)),
        decreases ms.len() - i,
    {
        let ghost es = order@.map_values(|k: usize| mv[k as int]);
        assert(mv.take(i + 1).drop_last() =~= mv.take(i as int));
        assert(mv.take(i + 1).last() == mv[i as int]);
        let mut p: usize = 0;
        assert(es.skip(0) =~= es);
        while p < order.len() && !entry_after(keys[order[p]], &ms[order[p]], keys[i], &ms[i])
            invariant
                0 <= p <= order.len(),
                i < ms.len(),
                keys.len() == ms.len(),
                forall|j: int| 0 <= j < ms.len() ==> keys@[j] == bucket_key(ms@[j]@.val),
                mv == mappings_view(ms@),
                forall|j: int| 0 <= j < order.len() ==> order@[j] < ms.len(),
                es == order@.map_values(|k: usize| mv[k as int]),
                insert_position(es, mv[i as int]) == p + insert_position(es.skip(p as int), mv[i as int]),
            decreases order.len() - p,
        {
            proof {
                lemma_insert_position_step(es, mv[i as int], p as int);
            }
            p = p + 1;
        }
        proof {
            if p < order.len() {
                assert(es.skip(p as int)[0] == es[p as int]);
            } else {
                assert(es.skip(p as int).len() == 0);
            }
        }
        let ghost before = order@;
        order.insert(p, i);
        assert(order@.map_values(|k: usize| mv[k as int]) =~= es.take(p as int) + seq![mv[i as int]]
            + es.skip(p as int));
        i = i + 1;
    }
    assert(mv.take(ms.len() as int) =~= mv);
    order
}

/// Appends one mapping as a bucket entry.
fn write_mapping_bucket(result: &mut Vec<u8>, mapping: &LocalMapping, srcs: &Vec<IndexSource>)
    requires
        has_source(srcs@, mapping@.source),
    ensures
        final(result)@ == old(result)@ + encode_entry(
            mapping@,
            source_position(srcs@, mapping@.source),
        ),
{
    let path_bytes = serialize_path(mapping.value());
    let (forward_type, forward_info_len, forward_bytes) = mapping.forward().unpack();
    let index_offset = find_source(srcs, mapping.index_source());
    let ghost start = result@;
    result.push((path_bytes.len() % 256) as u8);
    result.push(forward_type);
    result.push(forward_info_len);
    let mut pb = path_bytes;
    let mut fb = forward_bytes;
    result.append(&mut pb);
    result.append(&mut fb);
    let off32 = ((index_offset as u64) % 0x1_0000_0000) as u32;
    push_le32(result, off32);
    proof {
        lemma_le32_mod(index_offset as int);
    }
    assert(result@ =~= start + encode_entry(mapping@, source_position(srcs@, mapping@.source)));
}


pub(crate) proof fn lemma_sources_cover(ms: Seq<LocalMappingView>, i: int)
    requires
        0 <= i < ms.len(),
    ensures
        has_source(unique_sources(ms), ms[i].source),
    decreases ms.len(),
{
    let prev = unique_sources(ms.drop_last());
    if i < ms.len() - 1 {
        lemma_sources_cover(ms.drop_last(), i);
        let k = choose|k: int| 0 <= k < prev.len() && prev[k] == ms[i].source;
        if !has_source(prev, ms.last().source) {
            assert(unique_sources(ms)[k] == prev[k]);
        }
    } else {
        if !has_source(prev, ms.last().source) {
            assert(unique_sources(ms)[prev.len() as int] == ms.last().source);
        }
    }
}

proof fn lemma_group_step(es: Seq<LocalMappingView>, j: int)
    requires
        0 <= j < es.len(),
    ensures
        ({
            let gb = group_buckets(es.take(j));
            let ng = group_buckets(es.take(j + 1));
            let k = bucket_key(es[j].val);
            if gb.len() > 0 && gb.last().key == k {
                ng == gb.update(gb.len() - 1, Bucket { key: k, members: gb.last().members.push(es[j]) })
            } else {
                ng == gb.push(Bucket { key: k, members: seq![es[j]] })
            }
        }),
{
    assert(es.take(j + 1).drop_last() =~= es.take(j));
    assert(es.take(j + 1).last() == es[j]);
}

proof fn lemma_bucket_bytes_push(members: Seq<LocalMappingView>, e: LocalMappingView, srcs: Seq<IndexSource>)
    ensures
        bucket_bytes(members.push(e), srcs) == bucket_bytes(members, srcs) + encode_entry(
            e,
            source_position(srcs, e.source),
        ),
{
    assert(members.push(e).drop_last() =~= members);
}

/// Bucket keys and bucket data of the mappings in the given order.
#[verifier::rlimit(30)]
fn build_buckets(
    ms: &Vec<LocalMapping>,
    keys: &Vec<u32>,
    order: &Vec<usize>,
    srcs: &Vec<IndexSource>,
    Ghost(es): Ghost<Seq<LocalMappingView>>,
) -> (r: (Vec<u32>, Vec<Vec<u8>>))
    requires
        keys.len() == ms.len(),
        forall|i: int| 0 <= i < ms.len() ==> keys@[i] == bucket_key(ms@[i]@.val),
        es.len() == order.len(),
        forall|i: int| 0 <= i < order.len() ==> #[trigger] order@[i] < ms.len() && es[i] == ms@[order@[i] as int]@,
        forall|i: int| 0 <= i < ms.len() ==> has_source(srcs@, #[trigger] ms@[i]@.source),
    ensures
        r.0.len() == group_buckets(es).len(),
        r.1.len() == group_buckets(es).len(),
        forall|t: int| 0 <= t < group_buckets(es).len() ==> #[trigger] r.0@[t] == group_buckets(es)[t].key,
        forall|t: int| 0 <= t < group_buckets(es).len() ==> (#[trigger] r.1@[t])@
            == bucket_bytes(group_buckets(es)[t].members, srcs@),
{
    let mut kv: Vec<u32> = Vec::new();
    let mut dv: Vec<Vec<u8>> = Vec::new();
    let mut j: usize = 0;
    while j < order.len()
        invariant
            0 <= j <= order.len(),
            keys.len() == ms.len(),
            forall|i: int| 0 <= i < ms.len() ==> keys@[i] == bucket_key(ms@[i]@.val),
            es.len() == order.len(),
            forall|i: int| 0 <= i < order.len() ==> #[trigger] order@[i] < ms.len() && es[i] == ms@[order@[i] as int]@,
            forall|i: int| 0 <= i < ms.len() ==> has_source(srcs@, #[trigger] ms@[i]@.source),
            kv.len() == group_buckets(es.take(j as int)).len(),
            dv.len() == group_buckets(es.take(j as int)).len(),
            forall|t: int| 0 <= t < group_buckets(es.take(j as int)).len() ==> #[trigger] kv@[t] == group_buckets(es.take(j as int))[t].key,
            forall|t: int| 0 <= t < group_buckets(es.take(j as int)).len() ==> (#[trigger] dv@[t])@
                == bucket_bytes(group_buckets(es.take(j as int))[t].members, srcs@),
        decreases order.len() - j,
    {
        let ghost gb = group_buckets(es.take(j as int));
        let ghost ng = group_buckets(es.take(j + 1));
        proof {
            lemma_group_step(es, j as int);
        }
        let idx = order[j];
        let k = keys[idx];
        let m = &ms[idx];
        assert(es[j as int] == ms@[idx as int]@);
        if kv.len() > 0 && kv[kv.len() - 1] == k {
            let ghost last = gb.last();
            let mut d = dv.pop().unwrap();
            write_mapping_bucket(&mut d, m, srcs);
            proof {
                lemma_bucket_bytes_push(last.members, m@, srcs@);
            }
            dv.push(d);
            assert forall|t: int| 0 <= t < ng.len() implies #[trigger] kv@[t] == ng[t].key by {
                if t < ng.len() - 1 {
                    assert(ng[t] == gb[t]);
                }
            }
            assert forall|t: int| 0 <= t < ng.len() implies (#[trigger] dv@[t])@
                == bucket_bytes(ng[t].members, srcs@) by {
                if t < ng.len() - 1 {
                    assert(ng[t] == gb[t]);
                }
            }
        } else {
            let mut d: Vec<u8> = Vec::new();
            write_mapping_bucket(&mut d, m, srcs);
            proof {
                lemma_bucket_bytes_push(Seq::<LocalMappingView>::empty(), m@, srcs@);
                assert(Seq::<LocalMappingView>::empty().push(m@) =~= seq![m@]);
            }
            kv.push(k);
            dv.push(d);
            assert forall|t: int| 0 <= t < ng.len() implies #[trigger] kv@[t] == ng[t].key by {
                if t < ng.len() - 1 {
                    assert(ng[t] == gb[t]);
                }
            }
            assert forall|t: int| 0 <= t < ng.len() implies (#[trigger] dv@[t])@
                == bucket_bytes(ng[t].members, srcs@) by {
                if t < ng.len() - 1 {
                    assert(ng[t] == gb[t]);
                }
            }
        }
        j = j + 1;
    }
    assert(es.take(order.len() as int) =~= es);
    (kv, dv)
}

proof fn lemma_dir_step(bs: Seq<Bucket>, sv: Seq<IndexSource>, start: int, t: int)
    requires
        0 <= t < bs.len(),
    ensures
        dir_bytes(bs.take(t + 1), sv, start) == dir_bytes(bs.take(t), sv, start) + le32(bs[t].key as int)
            + le32(start + recorded_prefix(bs.take(t), sv)) + le32(recorded_len(bs[t], sv)),
        recorded_prefix(bs.take(t + 1), sv) == recorded_prefix(bs.take(t), sv) + recorded_len(bs[t], sv),
{
    assert(bs.take(t + 1).drop_last() =~= bs.take(t));
    assert(bs.take(t + 1).last() == bs[t]);
}

proof fn lemma_recorded_prefix_nonneg(bs: Seq<Bucket>, sv: Seq<IndexSource>)
    ensures
        recorded_prefix(bs, sv) >= 0,
    decreases bs.len(),
{
    if bs.len() > 0 {
        lemma_recorded_prefix_nonneg(bs.drop_last(), sv);
    }
}

proof fn lemma_dir_acc_step(bs: Seq<Bucket>, sv: Seq<IndexSource>, start: int, t: int, acc: int, l: int)
    requires
        0 <= t < bs.len(),
        0 <= start,
        acc == (start + recorded_prefix(bs.take(t), sv)) % 0x1_0000_0000,
        l == bucket_bytes(bs[t].members, sv).len() % 0x1_0000_0000,
    ensures
        dir_bytes(bs.take(t + 1), sv, start) == dir_bytes(bs.take(t), sv, start) + le32(bs[t].key as int)
            + le32(start + recorded_prefix(bs.take(t), sv)) + le32(recorded_len(bs[t], sv)),
        le32(acc) == le32(start + recorded_prefix(bs.take(t), sv)),
        recorded_len(bs[t], sv) == l,
        (acc + l) % 0x1_0000_0000 == (start + recorded_prefix(bs.take(t + 1), sv)) % 0x1_0000_0000,
{
    lemma_dir_step(bs, sv, start, t);
    lemma_recorded_prefix_nonneg(bs.take(t), sv);
    let p = start + recorded_prefix(bs.take(t), sv);
    lemma_le32_mod(p);
    lemma_add_wrapped(p, l, acc);
}

proof fn lemma_add_wrapped(p: int, l: int, acc: int)
    requires
        0 <= p,
        0 <= l < 0x1_0000_0000,
        acc == p % 0x1_0000_0000,
    ensures
        (acc + l) % 0x1_0000_0000 == (p + l) % 0x1_0000_0000,
{
    vstd::arithmetic::div_mod::lemma_add_mod_noop(p, l, 0x1_0000_0000);
    vstd::arithmetic::div_mod::lemma_small_mod(l as nat, 0x1_0000_0000);
}

/// Appends the mapping directory.
#[verifier::rlimit(30)]
fn write_directory(result: &mut Vec<u8>, bkeys: &Vec<u32>, bdata: &Vec<Vec<u8>>, start: u64, Ghost(bs): Ghost<Seq<Bucket>>, Ghost(sv): Ghost<Seq<IndexSource>>)
    requires
        bs.len() == bkeys.len(),
        bs.len() == bdata.len(),
        start < 0x1_0000_0000_0000,
        forall|u: int| 0 <= u < bs.len() ==> #[trigger] bkeys@[u] == bs[u].key,
        forall|u: int| 0 <= u < bs.len() ==> (#[trigger] bdata@[u])@ == bucket_bytes(bs[u].members, sv),
    ensures
        final(result)@ == old(result)@ + dir_bytes(bs, sv, start as int),
{
    let ghost header = result@;
    let nb = bkeys.len();
    let mut acc: u64 = start % 0x1_0000_0000;
    let mut t: usize = 0;
    assert(bs.take(0) =~= Seq::<Bucket>::empty());
    assert(header + dir_bytes(bs.take(0), sv, start as int) =~= header);
    while t < nb
        invariant
            0 <= t <= nb,
            nb == bkeys.len(),
            nb == bdata.len(),
            bs.len() == nb,
            start < 0x1_0000_0000_0000,
            forall|u: int| 0 <= u < bs.len() ==> #[trigger] bkeys@[u] == bs[u].key,
            forall|u: int| 0 <= u < bs.len() ==> (#[trigger] bdata@[u])@ == bucket_bytes(bs[u].members, sv),
            acc == (start + recorded_prefix(bs.take(t as int), sv)) % 0x1_0000_0000,
            result@ == header + dir_bytes(bs.take(t as int), sv, start as int),
        decreases nb - t,
    {
        let ghost before = result@;
        let l: u64 = (bdata[t].len() as u64) % 0x1_0000_0000;
        proof {
            lemma_dir_acc_step(bs, sv, start as int, t as int, acc as int, l as int);
        }
        push_le32(result, bkeys[t]);
        push_le32(result, acc as u32);
        push_le32(result, l as u32);
        assert(result@ =~= before + le32(bs[t as int].key as int) + le32(
            start + recorded_prefix(bs.take(t as int), sv),
        ) + le32(recorded_len(bs[t as int], sv)));
        acc = (acc + l) % 0x1_0000_0000;
        t = t + 1;
    }
    assert(bs.take(nb as int) =~= bs);
}

/// Appends the index table.
fn write_table(result: &mut Vec<u8>, srcs: &Vec<IndexSource>)
    ensures
        final(result)@ == old(result)@ + table_bytes(srcs@),
{
    let ghost with_dir = result@;
    let ghost sv = srcs@;
    let ni = srcs.len();
    let mut u: usize = 0;
    assert(sv.take(0) =~= Seq::<IndexSource>::empty());
    assert(with_dir + table_bytes(sv.take(0)) =~= with_dir);
    while u < ni
        invariant
            0 <= u <= ni,
            ni == srcs.len(),
            sv == srcs@,
            result@ == with_dir + table_bytes(sv.take(u as int)),
        decreases ni - u,
    {
        assert(sv.take(u + 1).drop_last() =~= sv.take(u as int));
        assert(sv.take(u + 1).last() == sv[u as int]);
        let s = srcs[u];
        let ghost before = result@;
        push_le32(result, s.id());
        push_le16(result, s.version());
        result.push(if s.is_remote() { 1u8 } else { 0u8 });
        result.push(0u8);
        result.push(0u8);
        result.push(0u8);
        assert(result@ =~= before + encode_source(s));
        u = u + 1;
    }
    assert(sv.take(ni as int) =~= sv);
}

/// Appends the bucket data.
fn write_bucket_data(result: &mut Vec<u8>, bdata: &Vec<Vec<u8>>, Ghost(bs): Ghost<Seq<Bucket>>, Ghost(sv): Ghost<Seq<IndexSource>>)
    requires
        bs.len() == bdata.len(),
        forall|u: int| 0 <= u < bs.len() ==> (#[trigger] bdata@[u])@ == bucket_bytes(bs[u].members, sv),
    ensures
        final(result)@ == old(result)@ + all_bucket_bytes(bs, sv),
{
    let ghost with_table = result@;
    let nb = bdata.len();
    let mut w: usize = 0;
    assert(bs.take(0) =~= Seq::<Bucket>::empty());
    assert(with_table + all_bucket_bytes(bs.take(0), sv) =~= with_table);
    while w < nb
        invariant
            0 <= w <= nb,
            nb == bdata.len(),
            bs.len() == nb,
            forall|u: int| 0 <= u < bs.len() ==> (#[trigger] bdata@[u])@ == bucket_bytes(bs[u].members, sv),
            result@ == with_table + all_bucket_bytes(bs.take(w as int), sv),
        decreases nb - w,
    {
        assert(bs.take(w + 1).drop_last() =~= bs.take(w as int));
        assert(bs.take(w + 1).last() == bs[w as int]);
        let ghost before = result@;
        let mut d = bdata[w].clone();
        assert(d@ == bdata@[w as int]@);
        result.append(&mut d);
        assert(result@ =~= before + bucket_bytes(bs[w as int].members, sv));
        w = w + 1;
    }
    assert(bs.take(nb as int) =~= bs);
}

/// Convert sheet data to bytes in the version-1 format: header, mapping
/// directory, index table, then the buckets.
pub fn convert_sheet_data_to_bytes(sheet_data: SheetData) -> (r: Vec<u8>)
    ensures
        r@ == sheet_bytes(sheet_data@),
{
    let ms = sheet_data.mappings();
    let ghost mv = mappings_view(ms@);
    let srcs = collect_sources(ms);
    let mut keys: Vec<u32> = Vec::new();
    let mut i: usize = 0;
    while i < ms.len()
        invariant
            0 <= i <= ms.len(),
            keys.len() == i,
            forall|j: int| 0 <= j < i ==> keys@[j] == bucket_key(ms@[j]@.val),
        decreases ms.len() - i,
    {
        let h = calculate_path_hash(ms[i].value().as_slice());
        keys.push(h / 0x10000);
        i = i + 1;
    }
    let order = sort_order(ms, &keys);
    let ghost es = sort_entries(mv);
    assert forall|i: int| 0 <= i < ms.len() implies has_source(srcs@, #[trigger] ms@[i]@.source) by {
        assert(mv[i] == ms@[i]@);
        lemma_sources_cover(mv, i);
    }
    assert forall|i: int| 0 <= i < order.len() implies #[trigger] order@[i] < ms.len() && es[i] == ms@[order@[i] as int]@ by {
        assert(es[i] == order@.map_values(|k: usize| mv[k as int])[i]);
    }
    let (bkeys, bdata) = build_buckets(ms, &keys, &order, &srcs, Ghost(es));
    let ghost bs = group_buckets(es);
    let ghost sv = srcs@;
    let nb = bkeys.len();
    let ni = srcs.len();
    let nb16 = (nb % 0x10000) as u64;
    let ni32 = (ni as u64) % 0x1_0000_0000;
    let mut result: Vec<u8> = Vec::new();
    result.push(1u8);
    push_le16(&mut result, nb16 as u16);
    push_le32(&mut result, ni32 as u32);
    push_le32(&mut result, 15);
    push_le32(&mut result, (15 + 12 * nb16) as u32);
    proof {
        lemma_le16_mod(nb as int);
        lemma_le32_mod(ni as int);
    }
    let start: u64 = 15 + 12 * nb16 + 10 * ni32;
    write_directory(&mut result, &bkeys, &bdata, start, Ghost(bs), Ghost(sv));
    write_table(&mut result, &srcs);
    write_bucket_data(&mut result, &bdata, Ghost(bs), Ghost(sv));
    assert(result@ =~= sheet_bytes(mv));
    result
}

/// Size of the bucket entry of one mapping: the fixed part, the path and
/// the forward payload.
pub fn calculate_mapping_bucket_size(mapping: &LocalMapping) -> (r: usize)
    requires
        7 + path_bytes(mapping@.val).len() + 255 <= usize::MAX,
    ensures
        r == 7 + path_bytes(mapping@.val).len() + forward_bytes(mapping@.forward).len() % 256,
{
    let path_size = serialize_path(mapping.value()).len();
    let (_, forward_info_len, _) = mapping.forward().unpack();
    7 + path_size + forward_info_len as usize
}

} // verus!
