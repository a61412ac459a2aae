//! The worker engine: partitioned execution of one map or reduce task.
//! Everything here is a pure function from the task description and the
//! input file contents to the exact bytes of the files to write, so a
//! re-run of the same task produces byte-identical output.

use vstd::prelude::*;

use std::collections::hash_map::DefaultHasher;
use std::hash::Hasher;

use crate::text::{
    chars_le, dec_digits, find_if, ch_eq, lemma_chars_le_total, lemma_chars_le_trans,
    lemma_find_if_at, parse_u32_spec, split_char, tokens, parse_u32, split_str, str_le,
    u64_to_string, words,
};
use crate::models::{KeyValue, Report};
use crate::rpc::{TaskData, TaskType};

verus! {

use vstd::std_specs::hash::DefaultHasherAdditionalSpecFns;

broadcast use vstd::seq_lib::group_seq_properties;

// ---------------------------------------------------------------------
// Key hashing and partitioning
// ---------------------------------------------------------------------

/// The 64-bit hash of a key: what `DefaultHasher` yields after one write
/// of the key's UTF-8 bytes.  A pure function of the key, so every call,
/// in every map task, agrees on it.
pub open spec fn key_hash64(key: Seq<char>) -> u64 {
    DefaultHasher::spec_finish(seq![vstd::utf8::encode_utf8(key)])
}

/// The key's hash truncated to 32 bits.
pub open spec fn key_hash(key: Seq<char>) -> u32 {
    (key_hash64(key) % 0x1_0000_0000) as u32
}

/// The reduce partition a key is routed to.
pub open spec fn part_of(key: Seq<char>, n_reduce: u32) -> u32
    recommends
        n_reduce > 0,
{
    key_hash(key) % n_reduce
}

/// Hash a key.  The result depends on the key's characters alone.
pub fn ihash(key: &str) -> (r: u32)
    ensures
        r == key_hash(key@),
{
    let mut hasher = DefaultHasher::new();
    hasher.write(key.as_bytes());
    let h = hasher.finish();
    proof {
        assert(hasher@ =~= seq![vstd::utf8::encode_utf8(key@)]);
    }
    (h % 0x1_0000_0000u64) as u32
}

/// The partition for a key: its hash modulo the reduce fan-out.
pub fn partition_for(key: &str, n_reduce: u32) -> (p: u32)
    requires
        n_reduce > 0,
    ensures
        p == part_of(key@, n_reduce),
        p < n_reduce,
{
    ihash(key) % n_reduce
}

// ---------------------------------------------------------------------
// The intermediate record format
// ---------------------------------------------------------------------

/// One serialized intermediate record: `key,value;` on a line of its own.
pub open spec fn record_line(k: Seq<char>, v: Seq<char>) -> Seq<char> {
    k + seq![','] + v + seq![';'] + seq!['\n']
}

/// The serialized form of a run of records.
pub open spec fn lines_of(pairs: Seq<(Seq<char>, Seq<char>)>) -> Seq<char>
    decreases pairs.len(),
{
    if pairs.len() == 0 {
        Seq::empty()
    } else {
        record_line(pairs[0].0, pairs[0].1) + lines_of(pairs.drop_first())
    }
}

proof fn lemma_lines_of_push(pairs: Seq<(Seq<char>, Seq<char>)>, kv: (Seq<char>, Seq<char>))
    ensures
        lines_of(pairs.push(kv)) =~= lines_of(pairs) + record_line(kv.0, kv.1),
    decreases pairs.len(),
{
    if pairs.len() == 0 {
        assert(pairs.push(kv)[0] == kv);
        assert(pairs.push(kv).drop_first() =~= Seq::empty());
    } else {
        assert(pairs.push(kv).drop_first() =~= pairs.drop_first().push(kv));
        assert(pairs.push(kv)[0] == pairs[0]);
        lemma_lines_of_push(pairs.drop_first(), kv);
    }
}

/// A run of records serializes to nothing exactly when it is empty.
pub proof fn lemma_lines_of_empty(pairs: Seq<(Seq<char>, Seq<char>)>)
    ensures
        lines_of(pairs).len() == 0 <==> pairs.len() == 0,
{
    if pairs.len() > 0 {
        assert(record_line(pairs[0].0, pairs[0].1).len() > 0);
    }
}

// ---------------------------------------------------------------------
// The built-in word-count map function
// ---------------------------------------------------------------------

/// The view of the literal value every word-count pair carries.
pub open spec fn one_val() -> Seq<char> {
    seq!['1']
}

/// The pairs the word-count map function emits for a file's content: one
/// `(token, "1")` pair per token, in order of appearance.
pub open spec fn wc_pairs(content: Seq<char>) -> Seq<(Seq<char>, Seq<char>)> {
    tokens(content).map_values(|t: Seq<char>| (t, one_val()))
}

/// The built-in map function: split the content on whitespace and emit one
/// `(token, "1")` pair per token.  The file name takes no part.
pub fn map_words(_filename: &str, content: &str) -> (kvs: Vec<KeyValue>)
    ensures
        kvs.deep_view() == wc_pairs(content@),
{
    let toks = words(content);
    let mut kvs: Vec<KeyValue> = Vec::new();
    let mut idx: usize = 0;
    while idx < toks.len()
        invariant
            0 <= idx <= toks@.len(),
            toks.deep_view() == tokens(content@),
            kvs.deep_view() =~~= wc_pairs(content@).subrange(0, idx as int),
        decreases toks@.len() - idx,
    {
        let one = String::from_str("1");
        proof {
            reveal_strlit("1");
            assert(one@ =~= one_val());
        }
        let kv = KeyValue { key: toks[idx].clone(), value: one };
        let ghost kvv = kv.deep_view();
        let ghost pre = kvs.deep_view();
        kvs.push(kv);
        proof {
            let w = wc_pairs(content@);
            assert(tokens(content@).len() == toks@.len());
            assert(w.len() == toks@.len());
            assert(idx <= w.len());
            assert(pre.len() == idx);
            assert(kvs@.len() == pre.len() + 1);
            assert(kvs@.len() == idx + 1);
            assert(kvs.deep_view()[idx as int] == kvv);
            assert(toks.deep_view()[idx as int] == toks@[idx as int]@);
            assert(w[idx as int] == (tokens(content@)[idx as int], one_val()));
            assert(kvv == w[idx as int]);
            assert forall|k: int| 0 <= k < idx + 1 implies kvs.deep_view()[k] == w.subrange(
                0,
                idx + 1,
            )[k] by {
                if k < idx {
                    assert(kvs.deep_view()[k] == pre[k]);
                }
            }
            assert(kvs.deep_view() =~~= wc_pairs(content@).subrange(0, idx + 1));
        }
        idx += 1;
    }
    proof {
        assert(wc_pairs(content@).subrange(0, toks@.len() as int) =~= wc_pairs(content@));
        assert(kvs.deep_view() =~~= wc_pairs(content@));
    }
    kvs
}

// ---------------------------------------------------------------------
// Partitioning records into buckets
// ---------------------------------------------------------------------

/// The predicate selecting the records routed to partition `p`.
pub open spec fn part_pred(p: u32, n_reduce: u32) -> spec_fn((Seq<char>, Seq<char>)) -> bool {
    |kv: (Seq<char>, Seq<char>)| part_of(kv.0, n_reduce) == p
}

/// The records of `pairs` whose key is routed to partition `p`, in order.
pub open spec fn bucket_pairs(pairs: Seq<(Seq<char>, Seq<char>)>, p: u32, n_reduce: u32) -> Seq<
    (Seq<char>, Seq<char>),
> {
    pairs.filter(part_pred(p, n_reduce))
}

/// The exact content of the intermediate file for partition `p`.
pub open spec fn bucket_content(pairs: Seq<(Seq<char>, Seq<char>)>, p: u32, n_reduce: u32) -> Seq<
    char,
> {
    lines_of(bucket_pairs(pairs, p, n_reduce))
}

/// Serialize the records into one content string per partition, routing
/// each record by the hash of its key.
pub fn partition_pairs(kvs: &Vec<KeyValue>, n_reduce: u32) -> (buckets: Vec<String>)
    requires
        n_reduce > 0,
    ensures
        buckets@.len() == n_reduce,
        forall|p: u32|
            p < n_reduce ==> (#[trigger] buckets@[p as int])@ == bucket_content(
                kvs.deep_view(),
                p,
                n_reduce,
            ),
{
    let ghost dv = kvs.deep_view();
    let mut buckets: Vec<String> = Vec::new();
    while buckets.len() < n_reduce as usize
        invariant
            buckets@.len() <= n_reduce,
            forall|q: int| 0 <= q < buckets@.len() ==> (#[trigger] buckets@[q])@ =~= Seq::<
                char,
            >::empty(),
        decreases n_reduce - buckets@.len(),
    {
        buckets.push(String::new());
    }
    let mut idx: usize = 0;
    proof {
        reveal(Seq::filter);
        assert forall|p: u32| p < n_reduce implies bucket_pairs(dv.subrange(0, 0), p, n_reduce)
            =~= Seq::<(Seq<char>, Seq<char>)>::empty() by {
            assert(dv.subrange(0, 0) =~= Seq::<(Seq<char>, Seq<char>)>::empty());
        }
    }
    while idx < kvs.len()
        invariant
            0 <= idx <= kvs@.len(),
            dv == kvs.deep_view(),
            dv.len() == kvs@.len(),
            n_reduce > 0,
            buckets@.len() == n_reduce,
            forall|p: u32|
                p < n_reduce ==> (#[trigger] buckets@[p as int])@ == bucket_content(
                    dv.subrange(0, idx as int),
                    p,
                    n_reduce,
                ),
        decreases kvs@.len() - idx,
    {
        let kv = &kvs[idx];
        let p = partition_for(kv.key.as_str(), n_reduce);
        let mut line = kv.key.clone();
        line.append(",");
        line.append(kv.value.as_str());
        line.append(";");
        line.append("\n");
        proof {
            reveal_strlit(",");
            reveal_strlit(";");
            reveal_strlit("\n");
            assert(line@ =~= record_line(dv[idx as int].0, dv[idx as int].1));
        }
        let mut b = buckets[p as usize].clone();
        b.append(line.as_str());
        buckets.set(p as usize, b);
        proof {
            assert(dv.subrange(0, idx + 1) =~= dv.subrange(0, idx as int).push(dv[idx as int]));
            assert forall|q: u32| q < n_reduce implies (#[trigger] buckets@[q as int])@
                == bucket_content(dv.subrange(0, idx + 1), q, n_reduce) by {
                dv.subrange(0, idx as int).lemma_filter_push(dv[idx as int], part_pred(q, n_reduce));
                if q == p {
                    lemma_lines_of_push(
                        bucket_pairs(dv.subrange(0, idx as int), q, n_reduce),
                        dv[idx as int],
                    );
                }
            }
        }
        idx += 1;
    }
    proof {
        assert(dv.subrange(0, dv.len() as int) =~= dv);
    }
    buckets
}

// ---------------------------------------------------------------------
// File names
// ---------------------------------------------------------------------

/// The intermediate file a map task writes for one partition:
/// `<dir>/mr-<map_task_id>-<partition_id>`.
pub open spec fn inter_name(dir: Seq<char>, task_id: u32, p: u32) -> Seq<char> {
    dir + "/mr-"@ + dec_digits(task_id as nat) + "-"@ + dec_digits(p as nat)
}

/// The final output file a reduce task writes: `<dir>/mr-out-<reduce_task_id>`.
pub open spec fn out_name(dir: Seq<char>, task_id: u32) -> Seq<char> {
    dir + "/mr-out-"@ + dec_digits(task_id as nat)
}

/// The temporary name a file is first written under, beside its final name.
pub open spec fn temp_of(name: Seq<char>) -> Seq<char> {
    name + ".tmp"@
}

/// Build the intermediate file name for a map task and partition.
pub fn intermediate_file_name(dir: &str, task_id: u32, p: u32) -> (r: String)
    ensures
        r@ == inter_name(dir@, task_id, p),
{
    let mut s = String::from_str(dir);
    s.append("/mr-");
    let t = u64_to_string(task_id as u64);
    s.append(t.as_str());
    s.append("-");
    let q = u64_to_string(p as u64);
    s.append(q.as_str());
    proof {
        assert(s@ =~= inter_name(dir@, task_id, p));
    }
    s
}

/// Build the final output file name for a reduce task.
pub fn output_file_name(dir: &str, task_id: u32) -> (r: String)
    ensures
        r@ == out_name(dir@, task_id),
{
    let mut s = String::from_str(dir);
    s.append("/mr-out-");
    let t = u64_to_string(task_id as u64);
    s.append(t.as_str());
    proof {
        assert(s@ =~= out_name(dir@, task_id));
    }
    s
}

/// Build the temporary name beside a final file name.
pub fn temp_file_name(name: &str) -> (r: String)
    ensures
        r@ == temp_of(name@),
{
    let mut s = String::from_str(name);
    s.append(".tmp");
    proof {
        assert(s@ =~= temp_of(name@));
    }
    s
}

// ---------------------------------------------------------------------
// Parsing intermediate records back
// ---------------------------------------------------------------------

/// What one line of an intermediate file yields: the `key` and value of a
/// well-formed `key,value;` record with a non-empty key, and nothing for a
/// malformed or empty-keyed line, which is skipped rather than fatal.
pub open spec fn parse_line(line: Seq<char>) -> Option<(Seq<char>, u32)> {
    if line.len() == 0 || line.last() != ';' {
        None
    } else {
        let body = line.drop_last();
        let j = find_if(body, ch_eq(','), 0);
        if j == body.len() || j == 0 {
            None
        } else {
            Some((body.subrange(0, j), parse_u32_spec(body.subrange(j + 1, body.len() as int))))
        }
    }
}

/// The records a sequence of lines yields, in order, skipping lines that
/// yield nothing.
pub open spec fn parse_lines(ls: Seq<Seq<char>>) -> Seq<(Seq<char>, u32)>
    decreases ls.len(),
{
    if ls.len() == 0 {
        Seq::empty()
    } else {
        (match parse_line(ls[0]) {
            Some(kv) => seq![kv],
            None => Seq::empty(),
        }) + parse_lines(ls.drop_first())
    }
}

/// The records an intermediate file's whole content yields.
pub open spec fn parse_records_spec(content: Seq<char>) -> Seq<(Seq<char>, u32)> {
    parse_lines(split_char(content, '\n'))
}

/// Find the first occurrence of `d` in `s`, or the length when absent.
fn find_char(s: &str, d: char) -> (j: usize)
    ensures
        j == find_if(s@, ch_eq(d), 0),
        0 <= j <= s@.len(),
{
    let len = s.unicode_len();
    let mut i: usize = 0;
    while i < len
        invariant
            0 <= i <= len == s@.len(),
            forall|m: int| 0 <= m < i ==> #[trigger] s@[m] != d,
        decreases len - i,
    {
        let c = s.get_char(i);
        if c as u32 == d as u32 {
            proof {
                assert(c == d);
                assert(ch_eq(d)(s@[i as int]));
                assert forall|m: int| 0 <= m < i implies !(ch_eq(d)(#[trigger] s@[m])) by {}
                lemma_find_if_at(s@, ch_eq(d), 0, i as int);
            }
            return i;
        }
        i += 1;
    }
    proof {
        assert forall|m: int| 0 <= m < len implies !(ch_eq(d)(#[trigger] s@[m])) by {}
        lemma_find_if_at(s@, ch_eq(d), 0, len as int);
    }
    len
}

/// Parse one line of an intermediate file.
pub fn parse_record(line: &str) -> (r: Option<(String, u32)>)
    ensures
        r.deep_view() == parse_line(line@),
{
    let len = line.unicode_len();
    if len == 0 {
        return None;
    }
    let last = line.get_char(len - 1);
    if last as u32 != ';' as u32 {
        proof {
            assert(line@.last() != ';');
        }
        return None;
    }
    proof {
        assert(line@.last() == ';');
    }
    let body = line.substring_char(0, len - 1);
    proof {
        assert(body@ =~= line@.drop_last());
    }
    let j = find_char(body, ',');
    if j == len - 1 || j == 0 {
        return None;
    }
    let key = String::from_str(body.substring_char(0, j));
    let val = parse_u32(body.substring_char(j + 1, len - 1));
    proof {
        assert(body@.subrange(j + 1, body@.len() as int) =~= body@.subrange(
            j + 1,
            (len - 1) as int,
        ));
    }
    Some((key, val))
}

/// Parse an intermediate file's content into records, skipping malformed
/// lines.
pub fn parse_records(content: &str) -> (recs: Vec<(String, u32)>)
    ensures
        recs.deep_view() == parse_records_spec(content@),
{
    let lines = split_str(content, '\n');
    let mut recs: Vec<(String, u32)> = Vec::new();
    let mut idx: usize = 0;
    proof {
        assert(recs.deep_view() =~= Seq::<(Seq<char>, u32)>::empty());
    }
    while idx < lines.len()
        invariant
            0 <= idx <= lines@.len(),
            lines.deep_view() == split_char(content@, '\n'),
            recs.deep_view() =~~= parse_lines(lines.deep_view().subrange(0, idx as int)),
        decreases lines@.len() - idx,
    {
        let ghost pre = recs.deep_view();
        let r = parse_record(lines[idx].as_str());
        proof {
            assert(lines@[idx as int]@ == lines.deep_view()[idx as int]);
        }
        match r {
            Some(kv) => {
                recs.push(kv);
            },
            None => {},
        }
        proof {
            let lv = lines.deep_view();
            lemma_parse_lines_push(lv.subrange(0, idx as int), lv[idx as int]);
            assert(lv.subrange(0, idx + 1) =~= lv.subrange(0, idx as int).push(lv[idx as int]));
            assert(recs.deep_view() =~~= parse_lines(lv.subrange(0, idx + 1)));
        }
        idx += 1;
    }
    proof {
        let lv = lines.deep_view();
        assert(lv.subrange(0, lv.len() as int) =~= lv);
        assert(recs.deep_view() =~~= parse_records_spec(content@));
    }
    recs
}

proof fn lemma_parse_lines_push(ls: Seq<Seq<char>>, l: Seq<char>)
    ensures
        parse_lines(ls.push(l)) =~= parse_lines(ls) + (match parse_line(l) {
            Some(kv) => seq![kv],
            None => Seq::<(Seq<char>, u32)>::empty(),
        }),
    decreases ls.len(),
{
    if ls.len() == 0 {
        assert(ls.push(l)[0] == l);
        assert(ls.push(l).drop_first() =~= Seq::<Seq<char>>::empty());
    } else {
        assert(ls.push(l).drop_first() =~= ls.drop_first().push(l));
        assert(ls.push(l)[0] == ls[0]);
        lemma_parse_lines_push(ls.drop_first(), l);
    }
}

// ---------------------------------------------------------------------
// Sorting records by key
// ---------------------------------------------------------------------

/// Insert `x` into `s` after every record whose key is at most `x`'s:
/// insertion keeps an already-sorted run sorted, and keeps the earlier of
/// two equal keys first.
pub open spec fn insert_sorted(x: (Seq<char>, u32), s: Seq<(Seq<char>, u32)>) -> Seq<
    (Seq<char>, u32),
>
    decreases s.len(),
{
    if s.len() == 0 {
        seq![x]
    } else if chars_le(s[0].0, x.0) {
        seq![s[0]] + insert_sorted(x, s.drop_first())
    } else {
        seq![x] + s
    }
}

/// The records of `s` in ascending key order: the stable insertion sort of
/// `s`, taking elements left to right.
pub open spec fn sort_records(s: Seq<(Seq<char>, u32)>) -> Seq<(Seq<char>, u32)>
    decreases s.len(),
{
    if s.len() == 0 {
        Seq::empty()
    } else {
        insert_sorted(s.last(), sort_records(s.drop_last()))
    }
}

/// Keys never descend along `s`.
pub open spec fn sorted_by_key(s: Seq<(Seq<char>, u32)>) -> bool {
    forall|i: int, j: int| 0 <= i < j < s.len() ==> chars_le(#[trigger] s[i].0, #[trigger] s[j].0)
}

/// Where `x` ends up: right after the `pos` records whose keys are at most
/// `x`'s key.
proof fn lemma_insert_sorted_at(x: (Seq<char>, u32), s: Seq<(Seq<char>, u32)>, pos: int)
    requires
        0 <= pos <= s.len(),
        forall|m: int| 0 <= m < pos ==> chars_le(#[trigger] s[m].0, x.0),
        pos < s.len() ==> !chars_le(s[pos].0, x.0),
    ensures
        insert_sorted(x, s) =~= s.subrange(0, pos) + seq![x] + s.subrange(pos, s.len() as int),
    decreases pos,
{
    if s.len() == 0 {
    } else if pos == 0 {
        assert(!chars_le(s[0].0, x.0));
    } else {
        assert(chars_le(s[0].0, x.0));
        let t = s.drop_first();
        assert forall|m: int| 0 <= m < pos - 1 implies chars_le(#[trigger] t[m].0, x.0) by {
            assert(t[m] == s[m + 1]);
        }
        lemma_insert_sorted_at(x, t, pos - 1);
        assert(t.subrange(0, pos - 1) =~= s.subrange(1, pos));
        assert(t.subrange(pos - 1, t.len() as int) =~= s.subrange(pos, s.len() as int));
    }
}

/// Every record of the insertion result is `x` or one of `s`'s.
proof fn lemma_insert_sorted_elems(x: (Seq<char>, u32), s: Seq<(Seq<char>, u32)>)
    ensures
        insert_sorted(x, s).len() == s.len() + 1,
        forall|j: int|
            0 <= j < s.len() + 1 ==> (#[trigger] insert_sorted(x, s)[j] == x || s.contains(
                insert_sorted(x, s)[j],
            )),
    decreases s.len(),
{
    let r = insert_sorted(x, s);
    if s.len() == 0 {
    } else if chars_le(s[0].0, x.0) {
        let t = s.drop_first();
        lemma_insert_sorted_elems(x, t);
        assert forall|j: int| 0 <= j < s.len() + 1 implies (#[trigger] r[j] == x || s.contains(
            r[j],
        )) by {
            if j == 0 {
                assert(r[0] == s[0]);
                assert(s.contains(s[0]));
            } else {
                assert(r[j] == insert_sorted(x, t)[j - 1]);
                if insert_sorted(x, t)[j - 1] != x {
                    let m = choose|m: int| 0 <= m < t.len() && t[m] == insert_sorted(x, t)[j - 1];
                    assert(s[m + 1] == t[m]);
                    assert(s.contains(s[m + 1]));
                }
            }
        }
    } else {
        assert forall|j: int| 0 <= j < s.len() + 1 implies (#[trigger] r[j] == x || s.contains(
            r[j],
        )) by {
            if j > 0 {
                assert(r[j] == s[j - 1]);
                assert(s.contains(s[j - 1]));
            }
        }
    }
}

/// Inserting into a sorted run keeps it sorted.
proof fn lemma_insert_sorted_sorted(x: (Seq<char>, u32), s: Seq<(Seq<char>, u32)>)
    requires
        sorted_by_key(s),
    ensures
        sorted_by_key(insert_sorted(x, s)),
    decreases s.len(),
{
    let r = insert_sorted(x, s);
    if s.len() == 0 {
    } else if chars_le(s[0].0, x.0) {
        let t = s.drop_first();
        assert forall|i: int, j: int| 0 <= i < j < t.len() implies chars_le(
            #[trigger] t[i].0,
            #[trigger] t[j].0,
        ) by {
            assert(t[i] == s[i + 1] && t[j] == s[j + 1]);
        }
        lemma_insert_sorted_sorted(x, t);
        lemma_insert_sorted_elems(x, t);
        assert forall|i: int, j: int| 0 <= i < j < r.len() implies chars_le(
            #[trigger] r[i].0,
            #[trigger] r[j].0,
        ) by {
            if i == 0 {
                assert(r[0] == s[0]);
                assert(r[j] == insert_sorted(x, t)[j - 1]);
                if insert_sorted(x, t)[j - 1] == x {
                    assert(chars_le(s[0].0, x.0));
                } else {
                    let m = choose|m: int|
                        0 <= m < t.len() && t[m] == insert_sorted(x, t)[j - 1];
                    assert(t[m] == s[m + 1]);
                    assert(chars_le(s[0].0, s[m + 1].0));
                }
            } else {
                assert(r[i] == insert_sorted(x, t)[i - 1]);
                assert(r[j] == insert_sorted(x, t)[j - 1]);
            }
        }
    } else {
        lemma_chars_le_total(x.0, s[0].0);
        assert forall|i: int, j: int| 0 <= i < j < r.len() implies chars_le(
            #[trigger] r[i].0,
            #[trigger] r[j].0,
        ) by {
            if i == 0 {
                assert(r[0] == x);
                assert(r[j] == s[j - 1]);
                if j - 1 > 0 {
                    assert(chars_le(s[0].0, s[j - 1].0));
                    lemma_chars_le_trans(x.0, s[0].0, s[j - 1].0);
                }
            } else {
                assert(r[i] == s[i - 1] && r[j] == s[j - 1]);
            }
        }
    }
}

/// Sorting yields keys in ascending order.
pub proof fn lemma_sort_records_sorted(s: Seq<(Seq<char>, u32)>)
    ensures
        sorted_by_key(sort_records(s)),
    decreases s.len(),
{
    if s.len() > 0 {
        lemma_sort_records_sorted(s.drop_last());
        lemma_insert_sorted_sorted(s.last(), sort_records(s.drop_last()));
    }
}

/// A single record in front contributes one multiset insertion.
proof fn lemma_cons_multiset(a: (Seq<char>, u32), t: Seq<(Seq<char>, u32)>)
    ensures
        (seq![a] + t).to_multiset() =~= t.to_multiset().insert(a),
{
    broadcast use vstd::seq_lib::group_to_multiset_ensures;
    broadcast use vstd::multiset::group_multiset_axioms;

    let r = seq![a] + t;
    assert(r.remove(0) =~= t);
    vstd::seq_lib::to_multiset_remove(r, 0);
    assert(r[0] == a);
    assert(r.contains(a));
    assert(r.to_multiset().count(a) > 0);
    assert forall|b: (Seq<char>, u32)| #[trigger] (seq![a] + t).to_multiset().count(b)
        == t.to_multiset().insert(a).count(b) by {
        assert(t.to_multiset().count(b) == r.to_multiset().remove(a).count(b));
    }
}

/// Insertion only adds the new record to the multiset of records.
proof fn lemma_insert_sorted_multiset(x: (Seq<char>, u32), s: Seq<(Seq<char>, u32)>)
    ensures
        insert_sorted(x, s).to_multiset() =~= s.to_multiset().insert(x),
    decreases s.len(),
{
    broadcast use vstd::multiset::group_multiset_axioms;

    if s.len() == 0 {
        lemma_cons_multiset(x, Seq::empty());
        assert(seq![x] + Seq::<(Seq<char>, u32)>::empty() =~= seq![x]);
        assert(s.to_multiset() =~= Seq::<(Seq<char>, u32)>::empty().to_multiset());
    } else if chars_le(s[0].0, x.0) {
        let t = insert_sorted(x, s.drop_first());
        lemma_cons_multiset(s[0], t);
        lemma_insert_sorted_multiset(x, s.drop_first());
        lemma_cons_multiset(s[0], s.drop_first());
        assert(seq![s[0]] + s.drop_first() =~= s);
        assert(insert_sorted(x, s).to_multiset() =~= s.drop_first().to_multiset().insert(x).insert(
            s[0],
        ));
        assert(s.drop_first().to_multiset().insert(x).insert(s[0])
            =~= s.drop_first().to_multiset().insert(s[0]).insert(x));
    } else {
        lemma_cons_multiset(x, s);
    }
}

/// Sorting permutes the records: nothing is lost, added, or duplicated.
pub proof fn lemma_sort_records_permutes(s: Seq<(Seq<char>, u32)>)
    ensures
        sort_records(s).to_multiset() =~= s.to_multiset(),
    decreases s.len(),
{
    broadcast use vstd::seq_lib::group_to_multiset_ensures;
    broadcast use vstd::multiset::group_multiset_axioms;

    if s.len() > 0 {
        lemma_sort_records_permutes(s.drop_last());
        lemma_insert_sorted_multiset(s.last(), sort_records(s.drop_last()));
        assert(s.drop_last().push(s.last()) =~= s);
        assert(s.drop_last().push(s.last()).to_multiset() =~= s.drop_last().to_multiset().insert(
            s.last(),
        ));
    }
}

/// Whether the key of `recs[j]` is `key`.
fn key_at_eq(recs: &Vec<(String, u32)>, j: usize, key: &String) -> (r: bool)
    requires
        j < recs@.len(),
    ensures
        r == (recs.deep_view()[j as int].0 == key@),
{
    let e = &recs[j];
    proof {
        assert(recs.deep_view()[j as int].0 == recs@[j as int].0@);
    }
    e.0.eq(key)
}

/// Insert one record into an already sorted vector, after every record
/// whose key is at most its own.
fn insert_record(out: &mut Vec<(String, u32)>, key: String, val: u32)
    ensures
        final(out).deep_view() == insert_sorted((key@, val), old(out).deep_view()),
{
    let ghost dv = out.deep_view();
    let mut pos: usize = 0;
    while pos < out.len() && str_le(out[pos].0.as_str(), key.as_str())
        invariant
            0 <= pos <= out@.len(),
            dv == out.deep_view(),
            dv.len() == out@.len(),
            forall|m: int| 0 <= m < pos ==> chars_le(#[trigger] dv[m].0, key@),
        decreases out@.len() - pos,
    {
        proof {
            assert(dv[pos as int].0 == out@[pos as int].0@);
        }
        pos += 1;
    }
    proof {
        if pos < out@.len() {
            assert(dv[pos as int].0 == out@[pos as int].0@);
        }
        lemma_insert_sorted_at((key@, val), dv, pos as int);
    }
    out.insert(pos, (key, val));
    proof {
        assert(final(out).deep_view() =~~= dv.subrange(0, pos as int) + seq![(key@, val)]
            + dv.subrange(pos as int, dv.len() as int));
    }
}

/// Sort records by key, stably, into ascending key order.
pub fn sort_pairs(recs: Vec<(String, u32)>) -> (out: Vec<(String, u32)>)
    ensures
        out.deep_view() == sort_records(recs.deep_view()),
{
    let ghost dv = recs.deep_view();
    let mut out: Vec<(String, u32)> = Vec::new();
    let mut idx: usize = 0;
    proof {
        assert(dv.subrange(0, 0) =~= Seq::<(Seq<char>, u32)>::empty());
        assert(out.deep_view() =~= Seq::<(Seq<char>, u32)>::empty());
    }
    while idx < recs.len()
        invariant
            0 <= idx <= recs@.len(),
            dv == recs.deep_view(),
            dv.len() == recs@.len(),
            out.deep_view() == sort_records(dv.subrange(0, idx as int)),
        decreases recs@.len() - idx,
    {
        let e = &recs[idx];
        let key = e.0.clone();
        let val = e.1;
        proof {
            assert(dv[idx as int] == (e.0@, e.1));
        }
        insert_record(&mut out, key, val);
        proof {
            assert(dv.subrange(0, idx + 1).drop_last() =~= dv.subrange(0, idx as int));
            assert(dv.subrange(0, idx + 1).last() == dv[idx as int]);
        }
        idx += 1;
    }
    proof {
        assert(dv.subrange(0, dv.len() as int) =~= dv);
    }
    out
}

// ---------------------------------------------------------------------
// Grouping and the built-in reduce function
// ---------------------------------------------------------------------

/// Sum of the values, as an unbounded integer.
pub open spec fn sum_u32s(vs: Seq<u32>) -> nat
    decreases vs.len(),
{
    if vs.len() == 0 {
        0
    } else {
        (sum_u32s(vs.drop_last()) + vs.last()) as nat
    }
}

/// Clamp to the largest `u64`; sums beyond it saturate rather than wrap.
pub open spec fn sat_u64(n: nat) -> u64 {
    if n > u64::MAX {
        u64::MAX
    } else {
        n as u64
    }
}

/// What the built-in reduce function emits for one key and its values:
/// `<key> <sum>`.
pub open spec fn reduce_line(k: Seq<char>, vs: Seq<u32>) -> Seq<char> {
    k + seq![' '] + dec_digits(sat_u64(sum_u32s(vs)) as nat)
}

/// The built-in reduce function: the integer sum of the values, formatted
/// as `<key> <sum>`.
pub fn reduce(key: String, values: Vec<u32>) -> (r: String)
    ensures
        r@ == reduce_line(key@, values@),
{
    let mut total: u64 = 0;
    let mut i: usize = 0;
    proof {
        assert(values@.subrange(0, 0) =~= Seq::<u32>::empty());
    }
    while i < values.len()
        invariant
            0 <= i <= values@.len(),
            total == sat_u64(sum_u32s(values@.subrange(0, i as int))),
        decreases values@.len() - i,
    {
        let v = values[i];
        proof {
            assert(values@.subrange(0, i + 1).drop_last() =~= values@.subrange(0, i as int));
            assert(values@.subrange(0, i + 1).last() == values@[i as int]);
        }
        if total > u64::MAX - (v as u64) {
            total = u64::MAX;
        } else {
            total = total + (v as u64);
        }
        i += 1;
    }
    proof {
        assert(values@.subrange(0, values@.len() as int) =~= values@);
    }
    let ghost k0 = key@;
    let mut r = key;
    r.append(" ");
    let t = u64_to_string(total);
    r.append(t.as_str());
    proof {
        reveal_strlit(" ");
        assert(r@ =~= reduce_line(k0, values@));
    }
    r
}

/// The length of the run of records at the front of `s` whose key is `k`.
pub open spec fn count_run(s: Seq<(Seq<char>, u32)>, k: Seq<char>) -> int
    decreases s.len(),
{
    if s.len() == 0 || s[0].0 != k {
        0
    } else {
        1 + count_run(s.drop_first(), k)
    }
}

proof fn lemma_count_run_bounds(s: Seq<(Seq<char>, u32)>, k: Seq<char>)
    ensures
        0 <= count_run(s, k) <= s.len(),
    decreases s.len(),
{
    if s.len() > 0 && s[0].0 == k {
        lemma_count_run_bounds(s.drop_first(), k);
    }
}

proof fn lemma_count_run_at(s: Seq<(Seq<char>, u32)>, k: Seq<char>, n: int)
    requires
        0 <= n <= s.len(),
        forall|m: int| 0 <= m < n ==> (#[trigger] s[m]).0 == k,
        n == s.len() || s[n].0 != k,
    ensures
        count_run(s, k) == n,
    decreases n,
{
    if n == 0 {
    } else {
        let t = s.drop_first();
        assert forall|m: int| 0 <= m < n - 1 implies (#[trigger] t[m]).0 == k by {
            assert(t[m] == s[m + 1]);
        }
        if n - 1 < t.len() {
            assert(t[n - 1] == s[n]);
        }
        lemma_count_run_at(t, k, n - 1);
    }
}

/// The values of a run of records.
pub open spec fn vals_of(s: Seq<(Seq<char>, u32)>) -> Seq<u32> {
    Seq::new(s.len(), |i: int| s[i].1)
}

/// The full content of a reduce task's output file for sorted records `s`:
/// one `<key> <sum>` line per distinct key, in key order.
pub open spec fn grouped_output(s: Seq<(Seq<char>, u32)>) -> Seq<char>
    decreases s.len(),
    via grouped_output_decreases
{
    if s.len() == 0 {
        Seq::empty()
    } else {
        let n = count_run(s, s[0].0);
        reduce_line(s[0].0, vals_of(s.subrange(0, n))) + seq!['\n'] + grouped_output(
            s.subrange(n, s.len() as int),
        )
    }
}

#[via_fn]
proof fn grouped_output_decreases(s: Seq<(Seq<char>, u32)>) {
    if s.len() > 0 {
        lemma_count_run_bounds(s.drop_first(), s[0].0);
        assert(count_run(s, s[0].0) >= 1);
    }
}

/// The run at the front of `s` is exactly the records keyed `k`, and ends
/// at the first other key.
proof fn lemma_count_run_props(s: Seq<(Seq<char>, u32)>, k: Seq<char>)
    ensures
        0 <= count_run(s, k) <= s.len(),
        forall|m: int| 0 <= m < count_run(s, k) ==> (#[trigger] s[m]).0 == k,
        count_run(s, k) < s.len() ==> s[count_run(s, k)].0 != k,
    decreases s.len(),
{
    if s.len() > 0 && s[0].0 == k {
        let t = s.drop_first();
        lemma_count_run_props(t, k);
        assert forall|m: int| 0 <= m < count_run(s, k) implies (#[trigger] s[m]).0 == k by {
            if m > 0 {
                assert(t[m - 1] == s[m]);
            }
        }
        if count_run(s, k) < s.len() {
            assert(t[count_run(t, k)] == s[count_run(s, k)]);
        }
    }
}

/// The distinct key of each group of the output, in output order.
pub open spec fn group_keys(s: Seq<(Seq<char>, u32)>) -> Seq<Seq<char>>
    decreases s.len(),
    via group_keys_decreases
{
    if s.len() == 0 {
        seq![]
    } else {
        let n = count_run(s, s[0].0);
        seq![s[0].0] + group_keys(s.subrange(n, s.len() as int))
    }
}

#[via_fn]
proof fn group_keys_decreases(s: Seq<(Seq<char>, u32)>) {
    if s.len() > 0 {
        lemma_count_run_bounds(s.drop_first(), s[0].0);
        assert(count_run(s, s[0].0) >= 1);
    }
}

/// Strictly before in the key order.
pub open spec fn chars_lt(a: Seq<char>, b: Seq<char>) -> bool {
    chars_le(a, b) && a != b
}

/// One line per distinct key: on a sorted run of records the output's
/// group keys are strictly ascending, so no key is emitted twice.
pub proof fn lemma_group_keys_strictly_ascending(s: Seq<(Seq<char>, u32)>)
    requires
        sorted_by_key(s),
    ensures
        s.len() > 0 ==> group_keys(s)[0] == s[0].0,
        forall|i: int, j: int|
            0 <= i < j < group_keys(s).len() ==> chars_lt(
                #[trigger] group_keys(s)[i],
                #[trigger] group_keys(s)[j],
            ),
    decreases s.len(),
{
    if s.len() > 0 {
        let head = s[0].0;
        let n = count_run(s, head);
        lemma_count_run_props(s, head);
        let t = s.subrange(n, s.len() as int);
        assert forall|i: int, j: int| 0 <= i < j < t.len() implies chars_le(
            #[trigger] t[i].0,
            #[trigger] t[j].0,
        ) by {
            assert(t[i] == s[n + i] && t[j] == s[n + j]);
        }
        lemma_group_keys_strictly_ascending(t);
        let keys = group_keys(s);
        assert(keys[0] == head);
        if t.len() > 0 {
            assert(t[0] == s[n as int]);
            assert(chars_lt(head, t[0].0)) by {
                assert(t[0].0 != head);
                assert(chars_le(s[0].0, s[n as int].0));
            }
        }
        assert forall|i: int, j: int| 0 <= i < j < keys.len() implies chars_lt(
            #[trigger] keys[i],
            #[trigger] keys[j],
        ) by {
            if i == 0 {
                assert(keys[j] == group_keys(t)[j - 1]);
                if j - 1 == 0 {
                    assert(group_keys(t)[0] == t[0].0);
                } else {
                    assert(chars_lt(group_keys(t)[0], group_keys(t)[j - 1]));
                    assert(chars_lt(head, t[0].0));
                    lemma_chars_le_trans(head, group_keys(t)[0], group_keys(t)[j - 1]);
                    if head == group_keys(t)[j - 1] {
                        lemma_chars_le_trans(group_keys(t)[0], group_keys(t)[j - 1], t[0].0);
                        crate::text::lemma_chars_le_antisym(head, group_keys(t)[0]);
                        assert(false);
                    }
                }
            } else {
                assert(keys[i] == group_keys(t)[i - 1]);
                assert(keys[j] == group_keys(t)[j - 1]);
            }
        }
    }
}

/// Group consecutive records with equal keys and emit one reduce line per
/// group, in order.
pub fn group_and_reduce(recs: &Vec<(String, u32)>) -> (out: String)
    ensures
        out@ == grouped_output(recs.deep_view()),
{
    let ghost dv = recs.deep_view();
    let mut out = String::new();
    let mut i: usize = 0;
    proof {
        assert(dv.subrange(0, dv.len() as int) =~= dv);
        assert(out@ + grouped_output(dv) =~= grouped_output(dv));
    }
    while i < recs.len()
        invariant
            0 <= i <= recs@.len(),
            dv == recs.deep_view(),
            dv.len() == recs@.len(),
            grouped_output(dv) =~= out@ + grouped_output(dv.subrange(i as int, dv.len() as int)),
        decreases recs@.len() - i,
    {
        let e = &recs[i];
        let key = e.0.clone();
        let mut values: Vec<u32> = Vec::new();
        values.push(e.1);
        proof {
            assert(key@ == dv[i as int].0);
            assert(values@ =~= vals_of(dv.subrange(i as int, i + 1)));
        }
        let mut j = i + 1;
        while j < recs.len() && key_at_eq(recs, j, &key)
            invariant
                0 <= i < j <= recs@.len(),
                dv == recs.deep_view(),
                dv.len() == recs@.len(),
                key@ == dv[i as int].0,
                forall|m: int| i <= m < j ==> (#[trigger] dv[m]).0 == key@,
                values@ =~= vals_of(dv.subrange(i as int, j as int)),
            decreases recs@.len() - j,
        {
            let f = &recs[j];
            values.push(f.1);
            proof {
                assert(dv[j as int] == (f.0@, f.1));
                assert(values@ =~= vals_of(dv.subrange(i as int, j + 1)));
            }
            j += 1;
        }
        proof {
            let suf = dv.subrange(i as int, dv.len() as int);
            assert forall|m: int| 0 <= m < j - i implies (#[trigger] suf[m]).0 == key@ by {
                assert(suf[m] == dv[i + m]);
            }
            assert(suf[0].0 == key@);
            if j < dv.len() {
                assert(suf[j - i] == dv[j as int]);
                assert(suf[j - i].0 != key@);
            }
            lemma_count_run_at(suf, key@, j - i);
            assert(suf.subrange(0, j - i) =~= dv.subrange(i as int, j as int));
            assert(suf.subrange(j - i, suf.len() as int) =~= dv.subrange(
                j as int,
                dv.len() as int,
            ));
        }
        let line = reduce(key, values);
        out.append(line.as_str());
        out.append("\n");
        proof {
            reveal_strlit("\n");
            assert(grouped_output(dv) =~= out@ + grouped_output(
                dv.subrange(j as int, dv.len() as int),
            ));
        }
        i = j;
    }
    proof {
        assert(grouped_output(dv.subrange(i as int, dv.len() as int)) =~= Seq::<char>::empty());
        assert(out@ =~= grouped_output(dv));
    }
    out
}

// ---------------------------------------------------------------------
// Whole-task execution
// ---------------------------------------------------------------------

/// One file the engine asks its caller to materialize: write `contents`
/// to `temp_name`, flush, then atomically rename to `final_name`.
#[derive(Debug)]
pub struct FileWrite {
    pub temp_name: String,
    pub final_name: String,
    pub contents: String,
}

/// The partitions in `[p, n_reduce)` whose bucket received data, ascending.
pub open spec fn part_list(pairs: Seq<(Seq<char>, Seq<char>)>, n_reduce: u32, p: int) -> Seq<u32>
    decreases n_reduce - p,
{
    if p < 0 || p >= n_reduce {
        seq![]
    } else if bucket_pairs(pairs, p as u32, n_reduce).len() > 0 {
        seq![p as u32] + part_list(pairs, n_reduce, p + 1)
    } else {
        part_list(pairs, n_reduce, p + 1)
    }
}

/// The partition ids a report carries, in report order.
pub open spec fn part_ids(files: Seq<(u32, String)>) -> Seq<u32> {
    Seq::new(files.len(), |k: int| files[k].0)
}

/// `part_list` holds exactly the non-empty partitions, strictly ascending.
pub proof fn lemma_part_list_props(pairs: Seq<(Seq<char>, Seq<char>)>, n_reduce: u32, p: int)
    requires
        0 <= p <= n_reduce,
    ensures
        forall|k: int|
            0 <= k < part_list(pairs, n_reduce, p).len() ==> p <= #[trigger] part_list(
                pairs,
                n_reduce,
                p,
            )[k] < n_reduce && bucket_pairs(pairs, part_list(pairs, n_reduce, p)[k], n_reduce).len()
                > 0,
        forall|k1: int, k2: int|
            0 <= k1 < k2 < part_list(pairs, n_reduce, p).len() ==> #[trigger] part_list(
                pairs,
                n_reduce,
                p,
            )[k1] < #[trigger] part_list(pairs, n_reduce, p)[k2],
        forall|q: u32|
            p <= q < n_reduce && bucket_pairs(pairs, q, n_reduce).len() > 0 ==> part_list(
                pairs,
                n_reduce,
                p,
            ).contains(q),
    decreases n_reduce - p,
{
    if p < n_reduce {
        lemma_part_list_props(pairs, n_reduce, p + 1);
        let rest = part_list(pairs, n_reduce, p + 1);
        let whole = part_list(pairs, n_reduce, p);
        if bucket_pairs(pairs, p as u32, n_reduce).len() > 0 {
            assert(whole[0] == p as u32);
            assert forall|k: int| 1 <= k < whole.len() implies whole[k] == rest[k - 1] by {}
            assert forall|q: u32|
                p <= q < n_reduce && bucket_pairs(pairs, q, n_reduce).len() > 0 implies whole
                .contains(q) by {
                if q == p {
                    assert(whole[0] == q);
                } else {
                    assert(p + 1 <= q < n_reduce);
                    assert(rest.contains(q));
                    let m = choose|m: int| 0 <= m < rest.len() && rest[m] == q;
                    assert(whole.len() == 1 + rest.len());
                    assert(whole[m + 1] == rest[m]);
                    assert(whole.contains(q));
                }
            }
        } else {
            assert forall|q: u32|
                p <= q < n_reduce && bucket_pairs(pairs, q, n_reduce).len() > 0 implies whole
                .contains(q) by {
                assert(q != p);
            }
        }
    }
}

/// Everything `run_map` promises of its result for the given task.
pub open spec fn map_run_post(
    task_id: u32,
    content: Seq<char>,
    n_reduce: u32,
    dir: Seq<char>,
    writes: Seq<FileWrite>,
    files: Seq<(u32, String)>,
) -> bool {
    &&& files.len() == writes.len()
    &&& part_ids(files) == part_list(wc_pairs(content), n_reduce, 0)
    &&& forall|k: int|
        0 <= k < writes.len() ==> {
            let p = files[k].0;
            &&& (#[trigger] writes[k]).final_name@ == inter_name(dir, task_id, p)
            &&& writes[k].temp_name@ == temp_of(inter_name(dir, task_id, p))
            &&& writes[k].contents@ == bucket_content(wc_pairs(content), p, n_reduce)
            &&& files[k].1@ == inter_name(dir, task_id, p)
        }
}

/// Run one map task on the content of its input file: tokenize, route each
/// record to its partition, and produce one intermediate file per non-empty
/// partition, together with the `partition id -> file` report entries.
pub fn run_map(task_id: u32, input_name: &str, content: &str, n_reduce: u32, output_path: &str) -> (res: (
    Vec<FileWrite>,
    Vec<(u32, String)>,
))
    requires
        n_reduce >= 1,
    ensures
        map_run_post(task_id, content@, n_reduce, output_path@, res.0@, res.1@),
{
    let ghost pairs = wc_pairs(content@);
    let kvs = map_words(input_name, content);
    let buckets = partition_pairs(&kvs, n_reduce);
    let mut writes: Vec<FileWrite> = Vec::new();
    let mut files: Vec<(u32, String)> = Vec::new();
    let mut p: u32 = 0;
    proof {
        assert(part_ids(files@) =~= Seq::<u32>::empty());
        assert(part_ids(files@) + part_list(pairs, n_reduce, 0) =~= part_list(pairs, n_reduce, 0));
    }
    while p < n_reduce
        invariant
            0 <= p <= n_reduce,
            buckets@.len() == n_reduce,
            forall|q: u32|
                q < n_reduce ==> (#[trigger] buckets@[q as int])@ == bucket_content(
                    pairs,
                    q,
                    n_reduce,
                ),
            files@.len() == writes@.len(),
            part_list(pairs, n_reduce, 0) =~= part_ids(files@) + part_list(
                pairs,
                n_reduce,
                p as int,
            ),
            forall|k: int|
                0 <= k < writes@.len() ==> {
                    let q = files@[k].0;
                    &&& (#[trigger] writes@[k]).final_name@ == inter_name(
                        output_path@,
                        task_id,
                        q,
                    )
                    &&& writes@[k].temp_name@ == temp_of(inter_name(output_path@, task_id, q))
                    &&& writes@[k].contents@ == bucket_content(pairs, q, n_reduce)
                    &&& files@[k].1@ == inter_name(output_path@, task_id, q)
                },
        decreases n_reduce - p,
    {
        let b = &buckets[p as usize];
        proof {
            lemma_lines_of_empty(bucket_pairs(pairs, p, n_reduce));
        }
        if !b.as_str().is_empty() {
            let fname = intermediate_file_name(output_path, task_id, p);
            let tname = temp_file_name(fname.as_str());
            let report_name = fname.clone();
            writes.push(FileWrite { temp_name: tname, final_name: fname, contents: b.clone() });
            files.push((p, report_name));
            proof {
                assert(part_ids(files@) =~= part_ids(files@.drop_last()).push(p));
            }
        }
        proof {
            assert(part_ids(files@) + part_list(pairs, n_reduce, p + 1) =~= part_list(
                pairs,
                n_reduce,
                0,
            ));
        }
        p += 1;
    }
    proof {
        assert(part_list(pairs, n_reduce, n_reduce as int) =~= Seq::<u32>::empty());
        assert(part_ids(files@) =~= part_list(pairs, n_reduce, 0));
    }
    (writes, files)
}

/// Idempotent output: two runs of a map task with the same id, input
/// content and fan-out agree on every file name and on every byte of
/// every file, however many retries or backups produced them.
pub proof fn lemma_map_rerun_identical(
    task_id: u32,
    content: Seq<char>,
    n_reduce: u32,
    dir: Seq<char>,
    writes1: Seq<FileWrite>,
    files1: Seq<(u32, String)>,
    writes2: Seq<FileWrite>,
    files2: Seq<(u32, String)>,
)
    requires
        map_run_post(task_id, content, n_reduce, dir, writes1, files1),
        map_run_post(task_id, content, n_reduce, dir, writes2, files2),
    ensures
        files1.len() == files2.len(),
        writes1.len() == writes2.len(),
        forall|k: int|
            0 <= k < files1.len() ==> (#[trigger] files1[k]).0 == files2[k].0 && files1[k].1@
                == files2[k].1@,
        forall|k: int|
            0 <= k < writes1.len() ==> (#[trigger] writes1[k]).final_name@
                == writes2[k].final_name@ && writes1[k].temp_name@ == writes2[k].temp_name@
                && writes1[k].contents@ == writes2[k].contents@,
{
    let ids = part_list(wc_pairs(content), n_reduce, 0);
    assert(part_ids(files1) == ids && part_ids(files2) == ids);
    assert(files1.len() == part_ids(files1).len());
    assert(files2.len() == part_ids(files2).len());
    assert(files1.len() == files2.len());
    assert forall|k: int| 0 <= k < files1.len() implies (#[trigger] files1[k]).0 == files2[k].0
        && files1[k].1@ == files2[k].1@ by {
        assert(part_ids(files1)[k] == files1[k].0);
        assert(part_ids(files2)[k] == files2[k].0);
        assert((#[trigger] writes1[k]).final_name@ == inter_name(dir, task_id, files1[k].0));
        assert((#[trigger] writes2[k]).final_name@ == inter_name(dir, task_id, files2[k].0));
    }
    assert forall|k: int| 0 <= k < writes1.len() implies (#[trigger] writes1[k]).final_name@
        == writes2[k].final_name@ && writes1[k].temp_name@ == writes2[k].temp_name@ && writes1[
        k
    ].contents@ == writes2[k].contents@ by {
        assert(files1[k].0 == files2[k].0);
    }
}

/// All records parsed from the given intermediate file contents, in file
/// order, then record order.
pub open spec fn all_records(contents: Seq<Seq<char>>) -> Seq<(Seq<char>, u32)>
    decreases contents.len(),
{
    if contents.len() == 0 {
        Seq::empty()
    } else {
        all_records(contents.drop_last()) + parse_records_spec(contents.last())
    }
}

/// The exact content of a reduce task's output file, given the contents of
/// its input files: parse them all, sort by key, group, and emit one
/// `<key> <sum>` line per distinct key, in key order.
pub open spec fn reduce_output(contents: Seq<Seq<char>>) -> Seq<char> {
    grouped_output(sort_records(all_records(contents)))
}

/// Run one reduce task on the contents of its input files.
pub fn run_reduce(task_id: u32, contents: &Vec<String>, output_path: &str) -> (w: FileWrite)
    ensures
        w.final_name@ == out_name(output_path@, task_id),
        w.temp_name@ == temp_of(out_name(output_path@, task_id)),
        w.contents@ == reduce_output(contents.deep_view()),
{
    let ghost cv = contents.deep_view();
    let mut recs: Vec<(String, u32)> = Vec::new();
    let mut idx: usize = 0;
    proof {
        assert(cv.subrange(0, 0) =~= Seq::<Seq<char>>::empty());
        assert(recs.deep_view() =~= all_records(cv.subrange(0, 0)));
    }
    while idx < contents.len()
        invariant
            0 <= idx <= contents@.len(),
            cv == contents.deep_view(),
            cv.len() == contents@.len(),
            recs.deep_view() =~~= all_records(cv.subrange(0, idx as int)),
        decreases contents@.len() - idx,
    {
        let ghost pre = recs.deep_view();
        let mut parsed = parse_records(contents[idx].as_str());
        proof {
            assert(contents@[idx as int]@ == cv[idx as int]);
        }
        recs.append(&mut parsed);
        proof {
            assert(cv.subrange(0, idx + 1).drop_last() =~= cv.subrange(0, idx as int));
            assert(cv.subrange(0, idx + 1).last() == cv[idx as int]);
            assert(recs.deep_view() =~~= pre + parse_records_spec(cv[idx as int]));
            assert(recs.deep_view() =~~= all_records(cv.subrange(0, idx + 1)));
        }
        idx += 1;
    }
    proof {
        assert(cv.subrange(0, cv.len() as int) =~= cv);
    }
    let sorted = sort_pairs(recs);
    let out = group_and_reduce(&sorted);
    let fname = output_file_name(output_path, task_id);
    let tname = temp_file_name(fname.as_str());
    FileWrite { temp_name: tname, final_name: fname, contents: out }
}

/// A worker: runs exactly the one task it was constructed for, with no
/// retries of its own — retry is the coordinator's business.
#[derive(Debug)]
pub struct Worker {
    pub task_data: TaskData,
    pub task_type: TaskType,
}

impl Worker {
    /// Package one task for execution.
    pub fn new(data: TaskData, typo: TaskType) -> (w: Worker)
        ensures
            w.task_data == data,
            w.task_type == typo,
    {
        Worker { task_data: data, task_type: typo }
    }

    /// Execute the task on the contents of its input files (`inputs[k]` is
    /// the content of `task_data.input_files[k]`), yielding the files to
    /// materialize and the report to send.  `Idle` and `Exit` pseudo-tasks
    /// do no work.
    pub fn run(&self, inputs: &Vec<String>) -> (res: (Vec<FileWrite>, Report))
        requires
            self.task_type is MapTask ==> inputs@.len() >= 1 && self.task_data.n_reduce >= 1
                && self.task_data.input_files@.len() >= 1,
        ensures
            match self.task_type {
                TaskType::MapTask => match res.1 {
                    Report::MapDone { taskid, files } => taskid == self.task_data.task_id
                        && map_run_post(
                        self.task_data.task_id,
                        inputs.deep_view()[0],
                        self.task_data.n_reduce,
                        self.task_data.output_path@,
                        res.0@,
                        files@,
                    ),
                    _ => false,
                },
                TaskType::ReduceTask => {
                    &&& res.0@.len() == 1
                    &&& res.0@[0].final_name@ == out_name(
                        self.task_data.output_path@,
                        self.task_data.task_id,
                    )
                    &&& res.0@[0].temp_name@ == temp_of(res.0@[0].final_name@)
                    &&& res.0@[0].contents@ == reduce_output(inputs.deep_view())
                    &&& res.1 == (Report::ReducerDone { taskid: self.task_data.task_id })
                },
                _ => res.0@.len() == 0 && res.1 is Exit,
            },
    {
        match self.task_type {
            TaskType::MapTask => {
                let data = &self.task_data;
                let (writes, files) = run_map(
                    data.task_id,
                    data.input_files[0].as_str(),
                    inputs[0].as_str(),
                    data.n_reduce,
                    data.output_path.as_str(),
                );
                proof {
                    assert(inputs@[0]@ == inputs.deep_view()[0]);
                }
                (writes, Report::MapDone { taskid: data.task_id, files })
            },
            TaskType::ReduceTask => {
                let data = &self.task_data;
                let w = run_reduce(data.task_id, inputs, data.output_path.as_str());
                let mut writes: Vec<FileWrite> = Vec::new();
                writes.push(w);
                (writes, Report::ReducerDone { taskid: data.task_id })
            },
            TaskType::Idle => (Vec::new(), Report::Exit),
            TaskType::Exit => (Vec::new(), Report::Exit),
        }
    }
}

// ---------------------------------------------------------------------
// Determinism of partitioning
// ---------------------------------------------------------------------

/// Every record in a partition's bucket was routed there by the hash of
/// its key.
pub proof fn lemma_bucket_keys(
    pairs: Seq<(Seq<char>, Seq<char>)>,
    p: u32,
    n_reduce: u32,
    j: int,
)
    requires
        0 <= j < bucket_pairs(pairs, p, n_reduce).len(),
    ensures
        part_of(bucket_pairs(pairs, p, n_reduce)[j].0, n_reduce) == p,
{
    broadcast use vstd::seq_lib::group_filter_ensures;

    assert(part_pred(p, n_reduce)(bucket_pairs(pairs, p, n_reduce)[j]));
}

/// No record is dropped: each one lands in the bucket of its key's
/// partition.
pub proof fn lemma_record_lands_in_its_bucket(
    pairs: Seq<(Seq<char>, Seq<char>)>,
    n_reduce: u32,
    j: int,
)
    requires
        0 <= j < pairs.len(),
    ensures
        bucket_pairs(pairs, part_of(pairs[j].0, n_reduce), n_reduce).contains(pairs[j]),
{
    broadcast use vstd::seq_lib::group_filter_ensures;

    let p = part_of(pairs[j].0, n_reduce);
    assert(part_pred(p, n_reduce)(pairs[j]));
}

/// Determinism of partitioning: records with equal keys land in the same
/// partition, wherever they stand — even in the buckets of two different
/// map tasks.
pub proof fn lemma_same_key_same_partition(
    pairs1: Seq<(Seq<char>, Seq<char>)>,
    pairs2: Seq<(Seq<char>, Seq<char>)>,
    p1: u32,
    p2: u32,
    n_reduce: u32,
    j1: int,
    j2: int,
)
    requires
        0 <= j1 < bucket_pairs(pairs1, p1, n_reduce).len(),
        0 <= j2 < bucket_pairs(pairs2, p2, n_reduce).len(),
        bucket_pairs(pairs1, p1, n_reduce)[j1].0 == bucket_pairs(pairs2, p2, n_reduce)[j2].0,
    ensures
        p1 == p2,
{
    lemma_bucket_keys(pairs1, p1, n_reduce, j1);
    lemma_bucket_keys(pairs2, p2, n_reduce, j2);
}

} // verus!
