use vstd::prelude::*;

use vstd::utf8::encode_utf8;

use crate::error::CommandoError;

verus! {

/// Format version written by this library.
pub const CDB_VERSION: u32 = 1;

/// Format version of unstable development builds, read with no guarantee.
pub const CDB_UNSTABLE_VERSION: u32 = 0;

/// Byte that ends every record.
pub const ETX: u8 = 3;

/// Longest name that a record can hold, in bytes.
pub const MAX_NAME_LEN: usize = 255;

/// Longest package blob that a record holds, in bytes.
pub const MAX_BLOB_LEN: usize = 4294967294;

/// Size of the header: magic and version.
pub const HEADER_LEN: usize = 12;

/// The eight bytes that open every index file.
pub open spec fn magic() -> Seq<u8> {
    seq![0x7Fu8, 0x43u8, 0x4Fu8, 0x4Du8, 0x4Du8, 0x44u8, 0x42u8, 0x7Fu8]
}

/// Little-endian encoding of a 32-bit value.
pub open spec fn le32(v: nat) -> Seq<u8> {
    seq![
        (v % 256) as u8,
        ((v / 256) % 256) as u8,
        ((v / 65536) % 256) as u8,
        ((v / 16777216) % 256) as u8,
    ]
}

/// Value of four little-endian bytes.
pub open spec fn decode_le32(b: Seq<u8>) -> nat {
    (b[0] as nat) + (b[1] as nat) * 256 + (b[2] as nat) * 65536 + (b[3] as nat) * 16777216
}

/// Header of an index file in the current format version.
pub open spec fn header() -> Seq<u8> {
    magic() + le32(CDB_VERSION as nat)
}

/// One record: length byte, name, blob length, blob, terminator.
pub open spec fn encode_record(name: Seq<u8>, blob: Seq<u8>) -> Seq<u8> {
    seq![name.len() as u8] + name + le32(blob.len()) + blob + seq![ETX]
}

/// Records one after the other, in sequence order.
pub open spec fn encode_records(rs: Seq<(Seq<u8>, Seq<u8>)>) -> Seq<u8>
    decreases rs.len(),
{
    if rs.len() == 0 {
        Seq::empty()
    } else {
        encode_records(rs.drop_last()) + encode_record(rs.last().0, rs.last().1)
    }
}

/// A record that the format can hold exactly.
pub open spec fn record_fits(r: (Seq<u8>, Seq<u8>)) -> bool {
    r.0.len() <= MAX_NAME_LEN && r.1.len() <= MAX_BLOB_LEN
}

/// Index of the first terminator at or after `i`, or the end of `data`.
pub open spec fn etx_from(data: Seq<u8>, i: int) -> int
    decreases data.len() - i,
{
    if i < 0 || i >= data.len() {
        data.len() as int
    } else if data[i] == ETX {
        i
    } else {
        etx_from(data, i + 1)
    }
}

/// Bytes from `i` up to (not including) the next terminator.
pub open spec fn blob_at(data: Seq<u8>, i: int) -> Seq<u8> {
    data.subrange(i, etx_from(data, i))
}

/// Outcome of scanning the records of `data` from offset `pos` for `t`:
/// `Ok(Some(packages))` on a match, `Ok(None)` when `t` cannot occur.
///
/// Records shorter than `t`, and records of the same length with another
/// name, are skipped by their stored blob length; a record longer than `t`
/// ends the scan, as does the end of the data at a record boundary.
pub open spec fn scan(data: Seq<u8>, pos: int, t: Seq<u8>) -> Result<Option<Seq<u8>>, CommandoError>
    decreases data.len() - pos,
{
    if pos < 0 || pos >= data.len() {
        Ok(None)
    } else {
        let l = data[pos] as int;
        let name_end = pos + 1 + l;
        if l > t.len() {
            Ok(None)
        } else if l == t.len() && name_end > data.len() {
            Err(CommandoError::Truncated)
        } else if name_end + 4 > data.len() {
            Err(CommandoError::Truncated)
        } else if l == t.len() && data.subrange(pos + 1, name_end) == t {
            Ok(Some(blob_at(data, name_end + 4)))
        } else {
            let next = name_end + 4 + decode_le32(data.subrange(name_end, name_end + 4)) + 1;
            if next >= data.len() {
                Ok(None)
            } else {
                scan(data, next, t)
            }
        }
    }
}

/// Outcome of looking `t` up in a whole index file.
pub open spec fn lookup(data: Seq<u8>, t: Seq<u8>) -> Result<Option<Seq<u8>>, CommandoError> {
    if t.len() > MAX_NAME_LEN {
        Err(CommandoError::TooLong)
    } else if data.len() < 8 {
        Err(CommandoError::Truncated)
    } else if data.subrange(0, 8) != magic() {
        Err(CommandoError::BadMagic)
    } else if data.len() < HEADER_LEN {
        Err(CommandoError::Truncated)
    } else {
        let v = decode_le32(data.subrange(8, 12));
        if v != CDB_VERSION as nat && v != CDB_UNSTABLE_VERSION as nat {
            Err(CommandoError::BadVersion { expected: CDB_VERSION, got: v as u32 })
        } else {
            scan(data, HEADER_LEN as int, t)
        }
    }
}

/// Result of a lookup that did not fail.
#[derive(Debug)]
pub enum Lookup {
    /// The newline-joined package names stored for the name.
    Found(Vec<u8>),
    /// No record holds the name.
    NotFound,
}

impl Lookup {
    pub open spec fn view(&self) -> Option<Seq<u8>> {
        match self {
            Lookup::Found(b) => Some(b@),
            Lookup::NotFound => None,
        }
    }
}

/// What a lookup returned, as a model value.
pub open spec fn lookup_view(r: Result<Lookup, CommandoError>) -> Result<Option<Seq<u8>>, CommandoError> {
    match r {
        Ok(l) => Ok(l.view()),
        Err(e) => Err(e),
    }
}

fn read_le32(data: &[u8], p: usize) -> (v: u32)
    requires
        p + 4 <= data@.len(),
    ensures
        v as nat == decode_le32(data@.subrange(p as int, p + 4)),
{
    let v: u64 = (data[p] as u64) + (data[p + 1] as u64) * 256 + (data[p + 2] as u64) * 65536
        + (data[p + 3] as u64) * 16777216;
    v as u32
}

fn has_magic(data: &[u8]) -> (r: bool)
    requires
        data@.len() >= 8,
    ensures
        r == (data@.subrange(0, 8) == magic()),
{
    let r = data[0] == 0x7F && data[1] == 0x43 && data[2] == 0x4F && data[3] == 0x4D && data[4]
        == 0x4D && data[5] == 0x44 && data[6] == 0x42 && data[7] == 0x7F;
    assert(r ==> data@.subrange(0, 8) =~= magic());
    assert(data@.subrange(0, 8) == magic() ==> data@.subrange(0, 8)[7] == 0x7F);
    r
}

/// Whether `data[start..start + t.len()]` equals `t`.
fn name_at(data: &[u8], start: usize, t: &[u8]) -> (r: bool)
    requires
        start + t@.len() <= data@.len(),
    ensures
        r == (data@.subrange(start as int, start + t@.len()) == t@),
{
    let n = data.len();
    let mut i: usize = 0;
    while i < t.len()
        invariant
            n == data@.len(),
            i <= t@.len(),
            start + t@.len() <= data@.len(),
            data@.subrange(start as int, start + i) =~= t@.subrange(0, i as int),
        decreases t@.len() - i,
    {
        if data[start + i] != t[i] {
            assert(data@.subrange(start as int, start + t@.len())[i as int] != t@[i as int]);
            return false;
        }
        i = i + 1;
    }
    assert(t@.subrange(0, t@.len() as int) =~= t@);
    true
}

/// Copies the bytes from `i` up to the next terminator.
fn read_blob(data: &[u8], i: usize) -> (r: Vec<u8>)
    requires
        i <= data@.len(),
    ensures
        r@ == blob_at(data@, i as int),
{
    let mut out: Vec<u8> = Vec::new();
    let mut j: usize = i;
    while j < data.len() && data[j] != ETX
        invariant
            i <= j <= data@.len(),
            etx_from(data@, i as int) == etx_from(data@, j as int),
            out@ =~= data@.subrange(i as int, j as int),
        decreases data@.len() - j,
    {
        out.push(data[j]);
        j = j + 1;
    }
    out
}

/// The format version an index file declares, if its header is complete.
pub fn index_version(data: &[u8]) -> (r: Option<u32>)
    ensures
        data@.len() < HEADER_LEN ==> r is None,
        data@.len() >= HEADER_LEN ==> r == Some(decode_le32(data@.subrange(8, 12)) as u32),
{
    if data.len() < HEADER_LEN {
        None
    } else {
        Some(read_le32(data, 8))
    }
}

/// Scans the records from `pos` on; see [`scan`].
fn scan_records(data: &[u8], pos: usize, t: &[u8]) -> (r: Result<Lookup, CommandoError>)
    requires
        t@.len() <= MAX_NAME_LEN,
    ensures
        lookup_view(r) == scan(data@, pos as int, t@),
{
    let mut p: usize = pos;
    loop
        invariant
            t@.len() <= MAX_NAME_LEN,
            scan(data@, p as int, t@) == scan(data@, pos as int, t@),
        decreases data@.len() - p,
    {
        if p >= data.len() {
            return Ok(Lookup::NotFound);
        }
        let l = data[p] as usize;
        if l > t.len() {
            return Ok(Lookup::NotFound);
        }
        let rest = data.len() - p - 1;
        if l == t.len() && l > rest {
            return Err(CommandoError::Truncated);
        }
        if l + 4 > rest {
            return Err(CommandoError::Truncated);
        }
        let name_end = p + 1 + l;
        if l == t.len() && name_at(data, p + 1, t) {
            return Ok(Lookup::Found(read_blob(data, name_end + 4)));
        }
        let blen = read_le32(data, name_end);
        let after = data.len() - (name_end + 4);
        if (blen as u64) + 1 >= after as u64 {
            return Ok(Lookup::NotFound);
        }
        p = name_end + 4 + (blen as usize) + 1;
    }
}

/// Looks `command` up in the bytes of a whole index file.
///
/// Returns the stored newline-joined package names, `NotFound` when no record
/// holds the name, or the error that makes the file unusable.
pub fn search_in_cdb(command: &str, data: &[u8]) -> (r: Result<Lookup, CommandoError>)
    ensures
        lookup_view(r) == lookup(data@, encode_utf8(command@)),
{
    let t = command.as_bytes();
    if t.len() > MAX_NAME_LEN {
        return Err(CommandoError::TooLong);
    }
    if data.len() < 8 {
        return Err(CommandoError::Truncated);
    }
    if !has_magic(data) {
        return Err(CommandoError::BadMagic);
    }
    if data.len() < HEADER_LEN {
        return Err(CommandoError::Truncated);
    }
    let v = read_le32(data, 8);
    if v != CDB_VERSION && v != CDB_UNSTABLE_VERSION {
        return Err(CommandoError::BadVersion { expected: CDB_VERSION, got: v });
    }
    scan_records(data, HEADER_LEN, t)
}

/// One in-memory index entry: an executable name and the packages that ship it.
pub struct CDBEntry {
    pub command: String,
    pub packages: Vec<String>,
}

/// Byte-wise lexicographic order, the order of `String` comparison.
pub open spec fn lex_lt(a: Seq<u8>, b: Seq<u8>) -> bool
    decreases a.len(),
{
    if a.len() == 0 {
        b.len() > 0
    } else if b.len() == 0 {
        false
    } else if a[0] != b[0] {
        a[0] < b[0]
    } else {
        lex_lt(a.drop_first(), b.drop_first())
    }
}

/// `s` with `x` put before its first element that is greater than `x`.
pub open spec fn insert_lex(s: Seq<Seq<u8>>, x: Seq<u8>) -> Seq<Seq<u8>>
    decreases s.len(),
{
    if s.len() == 0 {
        seq![x]
    } else if lex_lt(x, s[0]) {
        seq![x] + s
    } else {
        seq![s[0]] + insert_lex(s.drop_first(), x)
    }
}

/// `s` sorted ascending, equal elements kept in their order.
pub open spec fn sort_lex(s: Seq<Seq<u8>>) -> Seq<Seq<u8>>
    decreases s.len(),
{
    if s.len() == 0 {
        s
    } else {
        insert_lex(sort_lex(s.drop_last()), s.last())
    }
}

/// UTF-8 bytes of each string.
pub open spec fn utf8_all(ps: Seq<String>) -> Seq<Seq<u8>> {
    ps.map_values(|p: String| encode_utf8(p@))
}

/// Each name followed by a newline.
pub open spec fn package_lines(ps: Seq<Seq<u8>>) -> Seq<u8>
    decreases ps.len(),
{
    if ps.len() == 0 {
        Seq::empty()
    } else {
        package_lines(ps.drop_last()) + ps.last() + seq![10u8]
    }
}

/// Names joined by newlines, with a trailing newline.
pub open spec fn joined_packages(ps: Seq<Seq<u8>>) -> Seq<u8> {
    if ps.len() == 0 {
        seq![10u8]
    } else {
        package_lines(ps)
    }
}

/// The blob stored for a package list: sorted, joined, and cut to the
/// longest blob the format holds, still ending in a newline.
pub open spec fn stored_blob(ps: Seq<Seq<u8>>) -> Seq<u8> {
    let j = joined_packages(sort_lex(ps));
    if j.len() > MAX_BLOB_LEN {
        j.take(MAX_BLOB_LEN - 1).push(10u8)
    } else {
        j
    }
}

/// The name stored for a command: its UTF-8 bytes, cut to 255.
pub open spec fn stored_name(c: Seq<char>) -> Seq<u8> {
    let b = encode_utf8(c);
    if b.len() > MAX_NAME_LEN {
        b.take(MAX_NAME_LEN as int)
    } else {
        b
    }
}

/// The record that stands for one entry.
pub open spec fn entry_record(e: CDBEntry) -> (Seq<u8>, Seq<u8>) {
    (stored_name(e.command@), stored_blob(utf8_all(e.packages@)))
}

/// Records of the entries whose stored name has `l` bytes, in entry order.
pub open spec fn bucket_records(es: Seq<CDBEntry>, l: nat) -> Seq<(Seq<u8>, Seq<u8>)>
    decreases es.len(),
{
    if es.len() == 0 {
        Seq::empty()
    } else if stored_name(es.last().command@).len() == l {
        bucket_records(es.drop_last(), l).push(entry_record(es.last()))
    } else {
        bucket_records(es.drop_last(), l)
    }
}

/// Records of the entries whose stored name is shorter than `n` bytes,
/// shortest first.
pub open spec fn records_below(es: Seq<CDBEntry>, n: nat) -> Seq<(Seq<u8>, Seq<u8>)>
    decreases n,
{
    if n == 0 {
        Seq::empty()
    } else {
        records_below(es, (n - 1) as nat) + bucket_records(es, (n - 1) as nat)
    }
}

/// The records of an index, in file order.
pub open spec fn index_records(es: Seq<CDBEntry>) -> Seq<(Seq<u8>, Seq<u8>)> {
    records_below(es, (MAX_NAME_LEN + 1) as nat)
}

/// The bytes of the index file for `es`.
pub open spec fn index_file(es: Seq<CDBEntry>) -> Seq<u8> {
    header() + encode_records(index_records(es))
}

fn push_le32(out: &mut Vec<u8>, v: u32)
    ensures
        final(out)@ == old(out)@ + le32(v as nat),
{
    out.push((v % 256) as u8);
    out.push(((v / 256) % 256) as u8);
    out.push(((v / 65536) % 256) as u8);
    out.push(((v / 16777216) % 256) as u8);
    assert(final(out)@ =~= old(out)@ + le32(v as nat));
}

/// Appends the first `n` bytes of `src`.
fn push_prefix(out: &mut Vec<u8>, src: &[u8], n: usize)
    requires
        n <= src@.len(),
    ensures
        final(out)@ == old(out)@ + src@.take(n as int),
{
    let ghost start = out@;
    let mut i: usize = 0;
    while i < n
        invariant
            n <= src@.len(),
            i <= n,
            out@ =~= start + src@.take(i as int),
        decreases n - i,
    {
        out.push(src[i]);
        i = i + 1;
        assert(out@ =~= start + src@.take(i as int));
    }
}

fn is_lex_lt(a: &[u8], b: &[u8]) -> (r: bool)
    ensures
        r == lex_lt(a@, b@),
{
    let mut i: usize = 0;
    assert(a@.skip(0) =~= a@ && b@.skip(0) =~= b@);
    while i < a.len() && i < b.len() && a[i] == b[i]
        invariant
            i <= a@.len(),
            i <= b@.len(),
            lex_lt(a@, b@) == lex_lt(a@.skip(i as int), b@.skip(i as int)),
        decreases a@.len() - i,
    {
        assert(a@.skip(i as int).drop_first() =~= a@.skip(i + 1));
        assert(b@.skip(i as int).drop_first() =~= b@.skip(i + 1));
        i = i + 1;
    }
    if i == a.len() {
        i < b.len()
    } else if i == b.len() {
        false
    } else {
        a[i] < b[i]
    }
}

/// Inserts `x` as `insert_lex` does.
fn insert_sorted(out: &mut Vec<String>, x: String)
    ensures
        utf8_all(final(out)@) == insert_lex(utf8_all(old(out)@), encode_utf8(x@)),
{
    let ghost xs = encode_utf8(x@);
    let ghost s0 = utf8_all(out@);
    let mut j: usize = 0;
    assert(s0.take(0) + insert_lex(s0.skip(0), xs) =~= insert_lex(s0, xs)) by {
        assert(s0.skip(0) =~= s0);
    }
    while j < out.len() && !is_lex_lt(x.as_str().as_bytes(), out[j].as_str().as_bytes())
        invariant
            j <= out@.len(),
            xs == encode_utf8(x@),
            s0 == utf8_all(out@),
            insert_lex(s0, xs) == s0.take(j as int) + insert_lex(s0.skip(j as int), xs),
        decreases out@.len() - j,
    {
        let ghost rest = s0.skip(j as int);
        assert(rest[0] == s0[j as int]);
        assert(s0[j as int] == encode_utf8(out@[j as int]@));
        assert(!lex_lt(xs, rest[0]));
        assert(rest.drop_first() =~= s0.skip(j + 1));
        assert(insert_lex(rest, xs) == seq![rest[0]] + insert_lex(rest.drop_first(), xs));
        assert(s0.take(j + 1) =~= s0.take(j as int) + seq![s0[j as int]]);
        assert(s0.take(j as int) + insert_lex(rest, xs) =~= s0.take(j + 1) + insert_lex(
            s0.skip(j + 1),
            xs,
        ));
        j = j + 1;
    }
    proof {
        let rest = s0.skip(j as int);
        if j < out@.len() {
            assert(s0[j as int] == encode_utf8(out@[j as int]@));
            assert(lex_lt(xs, rest[0]));
            assert(insert_lex(rest, xs) == seq![xs] + rest);
        } else {
            assert(rest.len() == 0);
            assert(insert_lex(rest, xs) == seq![xs]);
        }
    }
    out.insert(j, x);
    assert(utf8_all(out@) =~= s0.take(j as int) + insert_lex(s0.skip(j as int), xs));
}

/// The package names as UTF-8 byte strings, sorted.
fn sort_packages(packages: &Vec<String>) -> (r: Vec<String>)
    ensures
        utf8_all(r@) == sort_lex(utf8_all(packages@)),
{
    let mut out: Vec<String> = Vec::new();
    let mut i: usize = 0;
    while i < packages.len()
        invariant
            i <= packages@.len(),
            utf8_all(out@) == sort_lex(utf8_all(packages@.take(i as int))),
        decreases packages@.len() - i,
    {
        assert(utf8_all(packages@.take(i + 1)).drop_last() =~= utf8_all(packages@.take(i as int)));
        insert_sorted(&mut out, packages[i].clone());
        i = i + 1;
    }
    assert(packages@.take(i as int) =~= packages@);
    out
}

/// Appends the record of `e`.
fn push_record(out: &mut Vec<u8>, e: &CDBEntry)
    ensures
        final(out)@ == old(out)@ + encode_record(entry_record(*e).0, entry_record(*e).1),
{
    let name = e.command.as_str().as_bytes();
    let nlen = if name.len() > MAX_NAME_LEN { MAX_NAME_LEN } else { name.len() };
    out.push(nlen as u8);
    push_prefix(out, name, nlen);
    assert(name@.take(nlen as int) =~= stored_name(e.command@)) by {
        assert(name@.take(name@.len() as int) =~= name@);
    }

    let sorted = sort_packages(&e.packages);
    let ghost ss = utf8_all(sorted@);
    let mut blob: Vec<u8> = Vec::new();
    if sorted.len() == 0 {
        blob.push(10u8);
    }
    let mut i: usize = 0;
    while i < sorted.len()
        invariant
            i <= sorted@.len(),
            ss == utf8_all(sorted@),
            sorted@.len() == 0 ==> blob@ == seq![10u8],
            sorted@.len() > 0 ==> blob@ == package_lines(ss.take(i as int)),
        decreases sorted@.len() - i,
    {
        if i == 0 {
            blob.clear();
            assert(package_lines(ss.take(0)) =~= Seq::<u8>::empty());
        }
        let p = sorted[i].as_str().as_bytes();
        push_prefix(&mut blob, p, p.len());
        blob.push(10u8);
        assert(ss.take(i + 1).drop_last() =~= ss.take(i as int));
        assert(p@.take(p@.len() as int) =~= p@);
        i = i + 1;
    }
    assert(ss.take(ss.len() as int) =~= ss);
    assert(blob@ == joined_packages(ss));
    let blen = if blob.len() > MAX_BLOB_LEN { MAX_BLOB_LEN } else { blob.len() };
    push_le32(out, blen as u32);
    if blob.len() > MAX_BLOB_LEN {
        push_prefix(out, blob.as_slice(), MAX_BLOB_LEN - 1);
        out.push(10u8);
    } else {
        push_prefix(out, blob.as_slice(), blob.len());
        assert(blob@.take(blob@.len() as int) =~= blob@);
    }
    out.push(ETX);
    assert(final(out)@ =~= old(out)@ + encode_record(entry_record(*e).0, entry_record(*e).1));
}

/// Concatenation of record lists encodes as the concatenation of encodings.
pub proof fn lemma_encode_records_concat(a: Seq<(Seq<u8>, Seq<u8>)>, b: Seq<(Seq<u8>, Seq<u8>)>)
    ensures
        encode_records(a + b) == encode_records(a) + encode_records(b),
    decreases b.len(),
{
    if b.len() == 0 {
        assert(a + b =~= a);
        assert(encode_records(a) + encode_records(b) =~= encode_records(a));
    } else {
        assert((a + b).drop_last() =~= a + b.drop_last());
        lemma_encode_records_concat(a, b.drop_last());
        assert(encode_records(a + b) =~= encode_records(a) + encode_records(b));
    }
}

/// Appends the records of the entries whose stored name has `l` bytes.
fn push_bucket(out: &mut Vec<u8>, entries: &Vec<CDBEntry>, l: usize)
    ensures
        final(out)@ == old(out)@ + encode_records(bucket_records(entries@, l as nat)),
{
    let ghost es = entries@;
    let ghost start = out@;
    let mut i: usize = 0;
    assert(encode_records(bucket_records(es.take(0), l as nat)) =~= Seq::<u8>::empty());
    while i < entries.len()
        invariant
            es == entries@,
            i <= es.len(),
            out@ =~= start + encode_records(bucket_records(es.take(i as int), l as nat)),
        decreases es.len() - i,
    {
        let cs = entries[i].command.as_str();
        let n = cs.as_bytes().len();
        assert(cs@ == es[i as int].command@);
        let key = if n > MAX_NAME_LEN { MAX_NAME_LEN } else { n };
        let ghost prev = bucket_records(es.take(i as int), l as nat);
        let ghost cur = es.take(i + 1);
        assert(cur.drop_last() =~= es.take(i as int));
        assert(cur.last() == es[i as int]);
        assert(stored_name(es[i as int].command@).len() == key);
        if key == l {
            push_record(out, &entries[i]);
            assert(bucket_records(cur, l as nat) == prev.push(entry_record(es[i as int])));
            assert(prev.push(entry_record(es[i as int])).drop_last() =~= prev);
        } else {
            assert(bucket_records(cur, l as nat) == prev);
        }
        i = i + 1;
    }
    assert(es.take(es.len() as int) =~= es);
}

/// Encodes the entries as an index file: header, then one record per entry,
/// shortest stored name first.
pub fn create_cdb(entries: Vec<CDBEntry>) -> (r: Vec<u8>)
    ensures
        r@ == index_file(entries@),
{
    let mut out: Vec<u8> = Vec::new();
    out.push(0x7F);
    out.push(0x43);
    out.push(0x4F);
    out.push(0x4D);
    out.push(0x4D);
    out.push(0x44);
    out.push(0x42);
    out.push(0x7F);
    push_le32(&mut out, CDB_VERSION);
    assert(out@ =~= header() + encode_records(records_below(entries@, 0)));
    let mut l: usize = 0;
    while l <= MAX_NAME_LEN
        invariant
            l <= MAX_NAME_LEN + 1,
            out@ == header() + encode_records(records_below(entries@, l as nat)),
        decreases MAX_NAME_LEN + 1 - l,
    {
        push_bucket(&mut out, &entries, l);
        proof {
            lemma_encode_records_concat(
                records_below(entries@, l as nat),
                bucket_records(entries@, l as nat),
            );
        }
        l = l + 1;
        assert(out@ =~= header() + encode_records(records_below(entries@, l as nat)));
    }
    out
}

} // verus!
