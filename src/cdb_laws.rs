use vstd::prelude::*;

use vstd::seq_lib::to_multiset_insert;
use vstd::seq_lib::to_multiset_build;
use vstd::utf8::{encode_utf8, encode_utf8_decode_utf8};

use crate::cdb::{
    blob_at, decode_le32, encode_record, encode_records, entry_record, etx_from, header,
    index_file, index_records, joined_packages, le32, lemma_encode_records_concat, lex_lt,
    lookup, magic, package_lines, record_fits, records_below, scan, sort_lex, stored_blob,
    stored_name, utf8_all, bucket_records, insert_lex, CDBEntry, CDB_VERSION, ETX, HEADER_LEN,
    MAX_BLOB_LEN, MAX_NAME_LEN,
};

verus! {

/// The bytes of `b` before its first terminator.
pub open spec fn until_etx(b: Seq<u8>) -> Seq<u8> {
    b.take(etx_from(b, 0))
}

/// What a scan decides within the records `rs`: `Some(Some(blob))` on a
/// record named `t`, `Some(None)` on a longer record first, `None` when it
/// runs past them.
pub open spec fn records_lookup(rs: Seq<(Seq<u8>, Seq<u8>)>, t: Seq<u8>) -> Option<Option<Seq<u8>>>
    decreases rs.len(),
{
    if rs.len() == 0 {
        None
    } else if rs[0].0.len() > t.len() {
        Some(None)
    } else if rs[0].0 == t {
        Some(Some(until_etx(rs[0].1)))
    } else {
        records_lookup(rs.drop_first(), t)
    }
}

/// `r` is the record of one of the entries.
pub open spec fn from_entry(es: Seq<CDBEntry>, r: (Seq<u8>, Seq<u8>)) -> bool {
    exists|j: int| 0 <= j < es.len() && r == entry_record(#[trigger] es[j])
}

/// Records ordered by name length, shortest first.
pub open spec fn length_ordered(rs: Seq<(Seq<u8>, Seq<u8>)>) -> bool {
    forall|i: int, j: int| 0 <= i < j < rs.len() ==> #[trigger] rs[i].0.len() <= #[trigger] rs[j].0.len()
}

proof fn lemma_le32_round_trip(v: nat)
    requires
        v < 0x1_0000_0000,
    ensures
        decode_le32(le32(v)) == v,
{
    let x = v as u64;
    assert((x % 256) + ((x / 256) % 256) * 256 + ((x / 65536) % 256) * 65536 + ((x / 16777216)
        % 256) * 16777216 == x) by (bit_vector)
        requires
            x < 0x1_0000_0000u64,
    ;
}

proof fn lemma_encode_records_single(r: (Seq<u8>, Seq<u8>))
    ensures
        encode_records(seq![r]) == encode_record(r.0, r.1),
{
    let one = seq![r];
    assert(one.drop_last() =~= Seq::<(Seq<u8>, Seq<u8>)>::empty());
    assert(one.last() == r);
    assert(encode_records(one.drop_last()) =~= Seq::<u8>::empty());
    assert(encode_records(one) == encode_records(one.drop_last()) + encode_record(r.0, r.1));
    assert(encode_records(one) =~= encode_record(r.0, r.1));
}

proof fn lemma_encode_records_first(rs: Seq<(Seq<u8>, Seq<u8>)>)
    requires
        rs.len() > 0,
    ensures
        encode_records(rs) == encode_record(rs[0].0, rs[0].1) + encode_records(rs.drop_first()),
{
    assert(rs =~= seq![rs[0]] + rs.drop_first());
    lemma_encode_records_concat(seq![rs[0]], rs.drop_first());
    lemma_encode_records_single(rs[0]);
}

/// `etx_from` inside a copy of `b` placed at `start`.
proof fn lemma_etx_in_copy(data: Seq<u8>, start: int, b: Seq<u8>, i: int)
    requires
        0 <= start,
        start + b.len() < data.len(),
        data.subrange(start, start + b.len()) == b,
        data[start + b.len()] == ETX,
        0 <= i <= b.len(),
    ensures
        etx_from(data, start + i) == start + etx_from(b, i),
    decreases b.len() - i,
{
    if i < b.len() {
        assert(data[start + i] == b[i]);
        if b[i] != ETX {
            lemma_etx_in_copy(data, start, b, i + 1);
        }
    }
}

proof fn lemma_etx_from_bounds(b: Seq<u8>, i: int)
    requires
        0 <= i <= b.len(),
    ensures
        i <= etx_from(b, i) <= b.len(),
    decreases b.len() - i,
{
    if i < b.len() && b[i] != ETX {
        lemma_etx_from_bounds(b, i + 1);
    }
}

/// Scanning over encoded records follows `records_lookup`.
proof fn lemma_scan_records(data: Seq<u8>, pos: int, rs: Seq<(Seq<u8>, Seq<u8>)>, t: Seq<u8>)
    requires
        0 <= pos,
        pos + encode_records(rs).len() <= data.len(),
        data.subrange(pos, pos + encode_records(rs).len()) == encode_records(rs),
        forall|k: int| 0 <= k < rs.len() ==> record_fits(#[trigger] rs[k]),
        t.len() <= MAX_NAME_LEN,
    ensures
        match records_lookup(rs, t) {
            Some(x) => scan(data, pos, t) == Ok::<Option<Seq<u8>>, crate::error::CommandoError>(x),
            None => scan(data, pos, t) == scan(data, pos + encode_records(rs).len(), t),
        },
    decreases rs.len(),
{
    if rs.len() == 0 {
        assert(pos + encode_records(rs).len() == pos);
    } else {
        let r = rs[0];
        assert(record_fits(r));
        let rec = encode_record(r.0, r.1);
        let tail = encode_records(rs.drop_first());
        lemma_encode_records_first(rs);
        let e = encode_records(rs);
        let l = r.0.len() as int;
        let bl = r.1.len() as int;
        let ne = pos + 1 + l;
        assert(rec.len() == 1 + l + 4 + bl + 1);
        assert(data[pos] == e[0]);
        assert(data[pos] as int == l);
        assert(data.subrange(pos + 1, ne) =~= r.0) by {
            assert forall|k: int| 0 <= k < l implies data.subrange(pos + 1, ne)[k] == r.0[k] by {
                assert(data[pos + 1 + k] == e[1 + k]);
            }
        }
        assert(data.subrange(ne, ne + 4) =~= le32(bl as nat)) by {
            assert forall|k: int| 0 <= k < 4 implies #[trigger] data.subrange(ne, ne + 4)[k] == le32(
                bl as nat,
            )[k] by {
                assert(data[ne + k] == e[1 + l + k]);
            }
        }
        lemma_le32_round_trip(bl as nat);
        assert(data.subrange(ne + 4, ne + 4 + bl) =~= r.1) by {
            assert forall|k: int| 0 <= k < bl implies data.subrange(ne + 4, ne + 4 + bl)[k]
                == r.1[k] by {
                assert(data[ne + 4 + k] == e[1 + l + 4 + k]);
            }
        }
        assert(data[ne + 4 + bl] == e[1 + l + 4 + bl]);
        assert(data[ne + 4 + bl] == ETX);
        let np = pos + rec.len();
        assert(data.subrange(np, np + tail.len()) =~= tail) by {
            assert forall|k: int| 0 <= k < tail.len() implies data.subrange(np, np + tail.len())[k]
                == tail[k] by {
                assert(data[np + k] == e[rec.len() + k]);
            }
        }
        assert forall|k: int| 0 <= k < rs.drop_first().len() implies record_fits(
            #[trigger] rs.drop_first()[k],
        ) by {
            assert(rs.drop_first()[k] == rs[k + 1]);
        }
        if l > t.len() {
        } else if l == t.len() && r.0 == t {
            lemma_etx_in_copy(data, ne + 4, r.1, 0);
            lemma_etx_from_bounds(r.1, 0);
            let stop = etx_from(r.1, 0);
            assert(etx_from(data, ne + 4) == ne + 4 + stop);
            assert(blob_at(data, ne + 4) =~= until_etx(r.1)) by {
                assert forall|k: int| 0 <= k < stop implies #[trigger] blob_at(data, ne + 4)[k]
                    == r.1[k] by {
                    assert(data.subrange(ne + 4, ne + 4 + bl)[k] == r.1[k]);
                }
            }
        } else {
            assert(np == ne + 4 + decode_le32(data.subrange(ne, ne + 4)) + 1);
            lemma_scan_records(data, np, rs.drop_first(), t);
            if np >= data.len() {
                assert(tail.len() == 0);
            }
        }
    }
}

/// Every record the encoder writes fits the format.
proof fn lemma_stored_records_fit(es: Seq<CDBEntry>, n: nat)
    ensures
        forall|k: int|
            0 <= k < records_below(es, n).len() ==> record_fits(#[trigger] records_below(es, n)[k]),
        forall|k: int|
            0 <= k < records_below(es, n).len() ==> (#[trigger] records_below(es, n)[k]).0.len() < n,
        length_ordered(records_below(es, n)),
    decreases n,
{
    if n > 0 {
        let m = (n - 1) as nat;
        lemma_stored_records_fit(es, m);
        lemma_bucket_shape(es, m);
        let a = records_below(es, m);
        let b = bucket_records(es, m);
        assert(records_below(es, n) == a + b);
        assert forall|k: int| 0 <= k < (a + b).len() implies (#[trigger] (a + b)[k]).0.len() < n
            && record_fits((a + b)[k]) by {
            if k >= a.len() {
                assert((a + b)[k] == b[k - a.len()]);
            }
        }
        assert forall|i: int, j: int| 0 <= i < j < (a + b).len() implies #[trigger] (a + b)[i].0.len()
            <= #[trigger] (a + b)[j].0.len() by {
            if j >= a.len() {
                assert((a + b)[j] == b[j - a.len()]);
                if i >= a.len() {
                    assert((a + b)[i] == b[i - a.len()]);
                }
            }
        }
    }
}

proof fn lemma_stored_name_len(c: Seq<char>)
    ensures
        stored_name(c).len() <= MAX_NAME_LEN,
{
}

proof fn lemma_stored_blob_len(ps: Seq<Seq<u8>>)
    ensures
        stored_blob(ps).len() <= MAX_BLOB_LEN,
{
}

/// Records of one bucket fit, have the bucket's length, and each stands
/// for an entry.
proof fn lemma_bucket_shape(es: Seq<CDBEntry>, l: nat)
    ensures
        forall|k: int|
            0 <= k < bucket_records(es, l).len() ==> {
                &&& record_fits(#[trigger] bucket_records(es, l)[k])
                &&& bucket_records(es, l)[k].0.len() == l
                &&& from_entry(es, bucket_records(es, l)[k])
            },
    decreases es.len(),
{
    if es.len() > 0 {
        lemma_bucket_shape(es.drop_last(), l);
        let prev = bucket_records(es.drop_last(), l);
        lemma_stored_name_len(es.last().command@);
        lemma_stored_blob_len(utf8_all(es.last().packages@));
        assert forall|k: int| 0 <= k < bucket_records(es, l).len() implies {
            &&& record_fits(#[trigger] bucket_records(es, l)[k])
            &&& bucket_records(es, l)[k].0.len() == l
            &&& from_entry(es, bucket_records(es, l)[k])
        } by {
            if k < prev.len() {
                assert(bucket_records(es, l)[k] == prev[k]);
                let j = choose|j: int|
                    0 <= j < es.drop_last().len() && prev[k] == entry_record(
                        #[trigger] es.drop_last()[j],
                    );
                assert(es.drop_last()[j] == es[j]);
            } else {
                assert(bucket_records(es, l)[k] == entry_record(es[es.len() - 1]));
            }
        }
    }
}

/// The record of entry `i` is among the records of its bucket.
proof fn lemma_bucket_contains(es: Seq<CDBEntry>, i: int)
    requires
        0 <= i < es.len(),
    ensures
        bucket_records(es, stored_name(es[i].command@).len()).contains(entry_record(es[i])),
    decreases es.len(),
{
    let l = stored_name(es[i].command@).len();
    if i == es.len() - 1 {
        assert(bucket_records(es, l).last() == entry_record(es[i]));
    } else {
        lemma_bucket_contains(es.drop_last(), i);
        assert(es.drop_last()[i] == es[i]);
        let prev = bucket_records(es.drop_last(), l);
        let k = choose|k: int| 0 <= k < prev.len() && prev[k] == entry_record(es[i]);
        assert(bucket_records(es, l)[k] == prev[k]);
    }
}

proof fn lemma_below_contains(es: Seq<CDBEntry>, i: int, n: nat)
    requires
        0 <= i < es.len(),
        stored_name(es[i].command@).len() < n,
    ensures
        records_below(es, n).contains(entry_record(es[i])),
    decreases n,
{
    let m = (n - 1) as nat;
    let a = records_below(es, m);
    let b = bucket_records(es, m);
    if stored_name(es[i].command@).len() == m {
        lemma_bucket_contains(es, i);
        let k = choose|k: int| 0 <= k < b.len() && b[k] == entry_record(es[i]);
        assert((a + b)[a.len() + k] == b[k]);
    } else {
        lemma_below_contains(es, i, m);
        let k = choose|k: int| 0 <= k < a.len() && a[k] == entry_record(es[i]);
        assert((a + b)[k] == a[k]);
    }
}

proof fn lemma_below_from_entries(es: Seq<CDBEntry>, n: nat)
    ensures
        forall|k: int|
            0 <= k < records_below(es, n).len() ==> from_entry(es, #[trigger] records_below(es, n)[k]),
    decreases n,
{
    if n > 0 {
        let m = (n - 1) as nat;
        lemma_below_from_entries(es, m);
        lemma_bucket_shape(es, m);
        let a = records_below(es, m);
        let b = bucket_records(es, m);
        assert forall|k: int| 0 <= k < (a + b).len() implies from_entry(es, #[trigger] (a + b)[k]) by {
            if k < a.len() {
                assert((a + b)[k] == a[k]);
            } else {
                assert((a + b)[k] == b[k - a.len()]);
            }
        }
    }
}

/// On length-ordered records, a lookup finds the blob that every record
/// named `t` holds.
proof fn lemma_records_lookup_found(rs: Seq<(Seq<u8>, Seq<u8>)>, t: Seq<u8>, b: Seq<u8>)
    requires
        length_ordered(rs),
        rs.contains((t, b)),
        forall|k: int| 0 <= k < rs.len() && (#[trigger] rs[k]).0 == t ==> rs[k].1 == b,
    ensures
        records_lookup(rs, t) == Some(Some(until_etx(b))),
    decreases rs.len(),
{
    let k = choose|k: int| 0 <= k < rs.len() && rs[k] == (t, b);
    if k > 0 {
        assert(rs[0].0.len() <= rs[k].0.len());
    }
    if rs[0].0 != t {
        let d = rs.drop_first();
        assert(d[k - 1] == rs[k]);
        assert forall|i: int, j: int| 0 <= i < j < d.len() implies #[trigger] d[i].0.len()
            <= #[trigger] d[j].0.len() by {
            assert(d[i] == rs[i + 1] && d[j] == rs[j + 1]);
        }
        assert forall|i: int| 0 <= i < d.len() && (#[trigger] d[i]).0 == t implies d[i].1 == b by {
            assert(d[i] == rs[i + 1]);
        }
        lemma_records_lookup_found(d, t, b);
    }
}

/// A lookup of a name that no record holds decides nothing but "absent".
proof fn lemma_records_lookup_absent(rs: Seq<(Seq<u8>, Seq<u8>)>, t: Seq<u8>)
    requires
        forall|k: int| 0 <= k < rs.len() ==> (#[trigger] rs[k]).0 != t,
    ensures
        records_lookup(rs, t) == None::<Option<Seq<u8>>> || records_lookup(rs, t) == Some(
            None::<Seq<u8>>,
        ),
    decreases rs.len(),
{
    if rs.len() > 0 {
        let d = rs.drop_first();
        assert forall|k: int| 0 <= k < d.len() implies (#[trigger] d[k]).0 != t by {
            assert(d[k] == rs[k + 1]);
        }
        lemma_records_lookup_absent(d, t);
    }
}

proof fn lemma_header_checks(rest: Seq<u8>)
    ensures
        (header() + rest).subrange(0, 8) == magic(),
        decode_le32((header() + rest).subrange(8, 12)) == CDB_VERSION as nat,
        (header() + rest).subrange(HEADER_LEN as int, (header() + rest).len() as int) == rest,
{
    let d = header() + rest;
    assert(d.subrange(0, 8) =~= magic());
    assert(d.subrange(8, 12) =~= le32(1));
    assert(d.subrange(12, d.len() as int) =~= rest);
}

/// An index file holds its records in ascending order of name length.
pub proof fn lemma_records_length_ordered(es: Seq<CDBEntry>)
    ensures
        index_file(es) == header() + encode_records(index_records(es)),
        length_ordered(index_records(es)),
        forall|k: int|
            0 <= k < index_records(es).len() ==> record_fits(#[trigger] index_records(es)[k]),
{
    lemma_stored_records_fit(es, (MAX_NAME_LEN + 1) as nat);
}

/// A lookup never depends on what follows the length byte of a record longer
/// than the name looked up: cutting the file there, and putting anything
/// after it, gives the same outcome.
#[verifier::rlimit(60)]
pub proof fn lemma_early_exit(rs: Seq<(Seq<u8>, Seq<u8>)>, k: int, t: Seq<u8>, rest: Seq<u8>)
    requires
        forall|i: int| 0 <= i < rs.len() ==> record_fits(#[trigger] rs[i]),
        0 <= k < rs.len(),
        rs[k].0.len() > t.len(),
    ensures
        lookup(header() + encode_records(rs.take(k)) + seq![rs[k].0.len() as u8] + rest, t)
            == lookup(header() + encode_records(rs), t),
{
    if t.len() <= MAX_NAME_LEN {
        let pre = rs.take(k);
        let e = encode_records(pre);
        let stop = seq![rs[k].0.len() as u8] + rest;
        let more = encode_records(rs.skip(k));
        assert(rs =~= pre + rs.skip(k));
        lemma_encode_records_concat(pre, rs.skip(k));
        lemma_encode_records_first(rs.skip(k));
        assert(rs.skip(k)[0] == rs[k]);
        assert forall|i: int| 0 <= i < pre.len() implies record_fits(#[trigger] pre[i]) by {
            assert(pre[i] == rs[i]);
        }
        assert(header() + e + seq![rs[k].0.len() as u8] + rest =~= header() + (e + stop));
        assert(header() + encode_records(rs) =~= header() + (e + more));
        lemma_stops_after(pre, t, stop);
        lemma_stops_after(pre, t, more);
    }
}

/// A lookup that meets a record longer than the name before any record
/// holding the name reports the name absent.
pub proof fn lemma_absent_before_longer(rs: Seq<(Seq<u8>, Seq<u8>)>, k: int, t: Seq<u8>)
    requires
        forall|i: int| 0 <= i < rs.len() ==> record_fits(#[trigger] rs[i]),
        0 <= k < rs.len(),
        rs[k].0.len() > t.len(),
        t.len() <= MAX_NAME_LEN,
        forall|i: int| 0 <= i < k ==> (#[trigger] rs[i]).0 != t,
    ensures
        lookup(header() + encode_records(rs), t) == Ok::<Option<Seq<u8>>, crate::error::CommandoError>(
            None,
        ),
{
    let pre = rs.take(k);
    let e = encode_records(pre);
    let more = encode_records(rs.skip(k));
    assert(rs =~= pre + rs.skip(k));
    lemma_encode_records_concat(pre, rs.skip(k));
    lemma_encode_records_first(rs.skip(k));
    assert(rs.skip(k)[0] == rs[k]);
    assert forall|i: int| 0 <= i < pre.len() implies record_fits(#[trigger] pre[i]) by {
        assert(pre[i] == rs[i]);
    }
    assert forall|i: int| 0 <= i < pre.len() implies (#[trigger] pre[i]).0 != t by {
        assert(pre[i] == rs[i]);
    }
    assert(header() + encode_records(rs) =~= header() + (e + more));
    lemma_stops_after(pre, t, more);
    lemma_records_lookup_absent(pre, t);
}

/// Looking up in `header() + e + tail`, where `e` encodes `pre` and `tail`
/// starts with a length byte above the name's length, is decided by `pre`.
proof fn lemma_stops_after(pre: Seq<(Seq<u8>, Seq<u8>)>, t: Seq<u8>, tail: Seq<u8>)
    requires
        forall|i: int| 0 <= i < pre.len() ==> record_fits(#[trigger] pre[i]),
        t.len() <= MAX_NAME_LEN,
        tail.len() > 0,
        tail[0] as int > t.len(),
    ensures
        lookup(header() + (encode_records(pre) + tail), t) == match records_lookup(pre, t) {
            Some(x) => Ok::<Option<Seq<u8>>, crate::error::CommandoError>(x),
            None => Ok(None),
        },
{
    let e = encode_records(pre);
    let d = header() + (e + tail);
    lemma_header_checks(e + tail);
    assert(d.subrange(12, 12 + e.len() as int) =~= e);
    lemma_scan_records(d, 12, pre, t);
    assert(d[12 + e.len() as int] == tail[0]);
}

/// Encoding, then looking up a stored name, gives back that name's
/// packages sorted and newline-joined, when names are unique, no name is
/// over 255 bytes, no package name holds the terminator byte, and the
/// joined list fits a record.
pub proof fn lemma_round_trip(es: Seq<CDBEntry>, i: int)
    requires
        0 <= i < es.len(),
        forall|j: int| 0 <= j < es.len() ==> encode_utf8((#[trigger] es[j]).command@).len() <= MAX_NAME_LEN,
        forall|j: int, k: int|
            0 <= j < es.len() && 0 <= k < es.len() && (#[trigger] es[j]).command@ == (#[trigger] es[k]).command@
                ==> j == k,
        forall|p: Seq<u8>| #[trigger] utf8_all(es[i].packages@).contains(p) ==> !p.contains(ETX),
        joined_packages(sort_lex(utf8_all(es[i].packages@))).len() <= MAX_BLOB_LEN,
    ensures
        lookup(index_file(es), encode_utf8(es[i].command@)) == Ok::<
            Option<Seq<u8>>,
            crate::error::CommandoError,
        >(Some(joined_packages(sort_lex(utf8_all(es[i].packages@))))),
{
    let t = encode_utf8(es[i].command@);
    let rs = index_records(es);
    let b = stored_blob(utf8_all(es[i].packages@));
    lemma_records_length_ordered(es);
    lemma_below_contains(es, i, (MAX_NAME_LEN + 1) as nat);
    lemma_below_from_entries(es, (MAX_NAME_LEN + 1) as nat);
    assert(entry_record(es[i]) == (t, b));
    assert forall|k: int| 0 <= k < rs.len() && (#[trigger] rs[k]).0 == t implies rs[k].1 == b by {
        let j = choose|j: int| 0 <= j < es.len() && rs[k] == entry_record(#[trigger] es[j]);
        assert(stored_name(es[j].command@) == encode_utf8(es[j].command@));
        encode_utf8_decode_utf8(es[j].command@);
        encode_utf8_decode_utf8(es[i].command@);
    }
    lemma_records_lookup_found(rs, t, b);
    lemma_joined_free_of_etx(sort_lex(utf8_all(es[i].packages@)), utf8_all(es[i].packages@));
    lemma_until_etx_free(b);
    let e = encode_records(rs);
    lemma_header_checks(e);
    lemma_scan_records(index_file(es), 12, rs, t);
}

/// An encoded name that no entry has is reported absent.
pub proof fn lemma_absent(es: Seq<CDBEntry>, t: Seq<u8>)
    requires
        t.len() <= MAX_NAME_LEN,
        forall|j: int| 0 <= j < es.len() ==> stored_name((#[trigger] es[j]).command@) != t,
    ensures
        lookup(index_file(es), t) == Ok::<Option<Seq<u8>>, crate::error::CommandoError>(None),
{
    let rs = index_records(es);
    lemma_records_length_ordered(es);
    lemma_below_from_entries(es, (MAX_NAME_LEN + 1) as nat);
    assert forall|k: int| 0 <= k < rs.len() implies (#[trigger] rs[k]).0 != t by {
        let j = choose|j: int| 0 <= j < es.len() && rs[k] == entry_record(#[trigger] es[j]);
    }
    lemma_records_lookup_absent(rs, t);
    let e = encode_records(rs);
    lemma_header_checks(e);
    lemma_scan_records(index_file(es), 12, rs, t);
}

proof fn lemma_until_etx_free(b: Seq<u8>)
    requires
        !b.contains(ETX),
    ensures
        until_etx(b) == b,
{
    lemma_etx_free_from(b, 0);
    assert(b.take(b.len() as int) =~= b);
}

proof fn lemma_etx_free_from(b: Seq<u8>, i: int)
    requires
        !b.contains(ETX),
        0 <= i <= b.len(),
    ensures
        etx_from(b, i) == b.len(),
    decreases b.len() - i,
{
    if i < b.len() {
        assert(b[i] != ETX);
        lemma_etx_free_from(b, i + 1);
    }
}

/// Elements of an insertion are the old ones and the new one.
proof fn lemma_insert_lex_elements(s: Seq<Seq<u8>>, x: Seq<u8>)
    ensures
        forall|p: Seq<u8>| #[trigger] insert_lex(s, x).contains(p) ==> p == x || s.contains(p),
    decreases s.len(),
{
    if s.len() > 0 && !lex_lt(x, s[0]) {
        lemma_insert_lex_elements(s.drop_first(), x);
        assert forall|p: Seq<u8>| #[trigger] insert_lex(s, x).contains(p) implies p == x || s.contains(
            p,
        ) by {
            let r = insert_lex(s, x);
            let k = choose|k: int| 0 <= k < r.len() && r[k] == p;
            if k == 0 {
                assert(s[0] == p);
            } else {
                assert(insert_lex(s.drop_first(), x)[k - 1] == p);
                assert(insert_lex(s.drop_first(), x).contains(p));
                if p != x {
                    let m = choose|m: int| 0 <= m < s.drop_first().len() && s.drop_first()[m] == p;
                    assert(s[m + 1] == p);
                }
            }
        }
    } else if s.len() > 0 {
        assert forall|p: Seq<u8>| #[trigger] insert_lex(s, x).contains(p) implies p == x || s.contains(
            p,
        ) by {
            let r = insert_lex(s, x);
            let k = choose|k: int| 0 <= k < r.len() && r[k] == p;
            if k > 0 {
                assert(s[k - 1] == p);
            }
        }
    }
}

/// Sorting keeps only elements of the input.
proof fn lemma_sort_lex_elements(s: Seq<Seq<u8>>)
    ensures
        forall|p: Seq<u8>| #[trigger] sort_lex(s).contains(p) ==> s.contains(p),
    decreases s.len(),
{
    if s.len() > 0 {
        lemma_sort_lex_elements(s.drop_last());
        lemma_insert_lex_elements(sort_lex(s.drop_last()), s.last());
        assert forall|p: Seq<u8>| #[trigger] sort_lex(s).contains(p) implies s.contains(p) by {
            if p != s.last() {
                let m = choose|m: int| 0 <= m < s.drop_last().len() && s.drop_last()[m] == p;
                assert(s[m] == p);
            } else {
                assert(s[s.len() - 1] == p);
            }
        }
    }
}

proof fn lemma_lines_free_of_etx(ps: Seq<Seq<u8>>)
    requires
        forall|k: int| 0 <= k < ps.len() ==> !(#[trigger] ps[k]).contains(ETX),
    ensures
        !package_lines(ps).contains(ETX),
    decreases ps.len(),
{
    if ps.len() > 0 {
        let d = ps.drop_last();
        assert forall|k: int| 0 <= k < d.len() implies !(#[trigger] d[k]).contains(ETX) by {
            assert(d[k] == ps[k]);
        }
        lemma_lines_free_of_etx(d);
        let a = package_lines(d);
        let l = ps.last();
        assert(!l.contains(ETX));
        let whole = a + l + seq![10u8];
        assert forall|j: int| 0 <= j < whole.len() implies whole[j] != ETX by {
            if j < a.len() {
                assert(whole[j] == a[j]);
            } else if j < a.len() + l.len() {
                assert(whole[j] == l[j - a.len()]);
            }
        }
    }
}

proof fn lemma_joined_free_of_etx(sorted: Seq<Seq<u8>>, ps: Seq<Seq<u8>>)
    requires
        sorted == sort_lex(ps),
        forall|p: Seq<u8>| #[trigger] ps.contains(p) ==> !p.contains(ETX),
    ensures
        !joined_packages(sorted).contains(ETX),
{
    lemma_sort_lex_elements(ps);
    assert forall|k: int| 0 <= k < sorted.len() implies !(#[trigger] sorted[k]).contains(ETX) by {
        assert(sorted.contains(sorted[k]));
    }
    lemma_lines_free_of_etx(sorted);
    if sorted.len() == 0 {
        assert(!seq![10u8].contains(ETX)) by {
            assert forall|j: int| 0 <= j < 1 implies seq![10u8][j] != ETX by {}
        }
    }
}

/// No element is below an earlier one in byte-wise order.
pub open spec fn lex_sorted(s: Seq<Seq<u8>>) -> bool {
    forall|i: int, j: int| 0 <= i < j < s.len() ==> !lex_lt(#[trigger] s[j], #[trigger] s[i])
}

proof fn lemma_lex_irreflexive(a: Seq<u8>)
    ensures
        !lex_lt(a, a),
    decreases a.len(),
{
    if a.len() > 0 {
        lemma_lex_irreflexive(a.drop_first());
    }
}

proof fn lemma_lex_transitive(a: Seq<u8>, b: Seq<u8>, c: Seq<u8>)
    requires
        lex_lt(a, b),
        lex_lt(b, c),
    ensures
        lex_lt(a, c),
    decreases a.len(),
{
    if a.len() > 0 && a[0] == b[0] && b[0] == c[0] {
        lemma_lex_transitive(a.drop_first(), b.drop_first(), c.drop_first());
    }
}

proof fn lemma_lex_total(a: Seq<u8>, b: Seq<u8>)
    ensures
        a == b || lex_lt(a, b) || lex_lt(b, a),
    decreases a.len(),
{
    if a.len() == 0 {
        if b.len() == 0 {
            assert(a =~= b);
        }
    } else if b.len() > 0 && a[0] == b[0] {
        lemma_lex_total(a.drop_first(), b.drop_first());
        if a.drop_first() == b.drop_first() {
            assert(a =~= seq![a[0]] + a.drop_first());
            assert(b =~= seq![b[0]] + b.drop_first());
        }
    }
}

/// `insert_lex` puts `x` at some position of `s`.
proof fn lemma_insert_lex_position(s: Seq<Seq<u8>>, x: Seq<u8>) -> (k: int)
    ensures
        0 <= k <= s.len(),
        insert_lex(s, x) == s.insert(k, x),
    decreases s.len(),
{
    if s.len() == 0 {
        assert(insert_lex(s, x) =~= s.insert(0, x));
        0
    } else if lex_lt(x, s[0]) {
        assert(insert_lex(s, x) =~= s.insert(0, x));
        0
    } else {
        let k = lemma_insert_lex_position(s.drop_first(), x);
        assert(insert_lex(s, x) =~= s.insert(k + 1, x));
        k + 1
    }
}

proof fn lemma_insert_lex_sorted(s: Seq<Seq<u8>>, x: Seq<u8>)
    requires
        lex_sorted(s),
    ensures
        lex_sorted(insert_lex(s, x)),
    decreases s.len(),
{
    if s.len() == 0 {
    } else if lex_lt(x, s[0]) {
        let r = insert_lex(s, x);
        assert(r == seq![x] + s);
        assert forall|i: int, j: int| 0 <= i < j < r.len() implies !lex_lt(#[trigger] r[j], #[trigger] r[i]) by {
            if i == 0 {
                assert(r[j] == s[j - 1]);
                if j - 1 > 0 {
                    lemma_lex_total(s[0], s[j - 1]);
                    if lex_lt(s[j - 1], x) {
                        lemma_lex_transitive(s[j - 1], x, s[0]);
                        if s[0] == s[j - 1] {
                            lemma_lex_irreflexive(s[0]);
                        } else {
                            lemma_lex_transitive(s[0], s[j - 1], s[0]);
                            lemma_lex_irreflexive(s[0]);
                        }
                    }
                } else if lex_lt(s[0], x) {
                    lemma_lex_transitive(s[0], x, s[0]);
                    lemma_lex_irreflexive(s[0]);
                }
            } else {
                assert(r[i] == s[i - 1] && r[j] == s[j - 1]);
            }
        }
    } else {
        let d = s.drop_first();
        assert forall|i: int, j: int| 0 <= i < j < d.len() implies !lex_lt(#[trigger] d[j], #[trigger] d[i]) by {
            assert(d[i] == s[i + 1] && d[j] == s[j + 1]);
        }
        lemma_insert_lex_sorted(d, x);
        lemma_insert_lex_elements(d, x);
        let t = insert_lex(d, x);
        let r = insert_lex(s, x);
        assert(r == seq![s[0]] + t);
        assert forall|i: int, j: int| 0 <= i < j < r.len() implies !lex_lt(#[trigger] r[j], #[trigger] r[i]) by {
            assert(r[j] == t[j - 1]);
            if i == 0 {
                assert(t.contains(t[j - 1]));
                if t[j - 1] != x {
                    let m = choose|m: int| 0 <= m < d.len() && d[m] == t[j - 1];
                    assert(s[m + 1] == t[j - 1]);
                }
            } else {
                assert(r[i] == t[i - 1]);
            }
        }
    }
}

/// The order in which a record stores its packages is a sorting of them:
/// the same names, each as often, in ascending byte-wise order.
pub proof fn lemma_sort_lex_sorted_permutation(s: Seq<Seq<u8>>)
    ensures
        lex_sorted(sort_lex(s)),
        sort_lex(s).to_multiset() == s.to_multiset(),
    decreases s.len(),
{
    if s.len() > 0 {
        lemma_sort_lex_sorted_permutation(s.drop_last());
        lemma_insert_lex_sorted(sort_lex(s.drop_last()), s.last());
        let k = lemma_insert_lex_position(sort_lex(s.drop_last()), s.last());
        to_multiset_insert(sort_lex(s.drop_last()), k, s.last());
        to_multiset_build(s.drop_last(), s.last());
        assert(s.drop_last().push(s.last()) =~= s);
    } else {
        assert(sort_lex(s) =~= s);
    }
}

} // verus!
