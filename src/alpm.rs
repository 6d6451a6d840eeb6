use vstd::prelude::*;

use vstd::utf8::{decode_utf8, encode_utf8, encode_utf8_decode_utf8, valid_utf8};

use crate::cdb::CDBEntry;
use crate::error::CommandoError;
use crate::text::{
    first_group_captures, opt_views, push_str, regex_first_groups, split_by, split_by_of,
    trim_end, trim_end_of, views,
};

verus! {

/// The two text files of one package in a manifest archive.
pub struct PackageDir {
    /// The descriptor (`desc`), which holds the package name.
    pub desc: String,
    /// The file listing (`files`), one path per line.
    pub files: String,
}

/// Pattern of an executable path: `/bin/` and a name without white space,
/// slash or dot; the name is the first group.
pub const BIN_PATTERN: &'static str = "/bin/([^\\s/.]+)";

/// Bytes of the text that excludes a listing line.
pub open spec fn excluded_marker() -> Seq<u8> {
    seq![110u8, 111u8, 100u8, 101u8, 95u8, 109u8, 111u8, 100u8, 117u8, 108u8, 101u8, 115u8]
}

/// `b` holds `p` as a contiguous part.
pub open spec fn holds_bytes(b: Seq<u8>, p: Seq<u8>) -> bool {
    exists|i: int| 0 <= i <= b.len() - p.len() && #[trigger] b.subrange(i, i + p.len()) == p
}

/// A listing line that names no executable: it lies under `node_modules`.
pub open spec fn excluded_line(l: Seq<char>) -> bool {
    holds_bytes(encode_utf8(l), excluded_marker())
}

/// The lines that are not excluded, each ended by a newline.
pub open spec fn kept_lines(ls: Seq<Seq<char>>) -> Seq<char>
    decreases ls.len(),
{
    if ls.len() == 0 {
        Seq::empty()
    } else if excluded_line(ls.last()) {
        kept_lines(ls.drop_last())
    } else {
        kept_lines(ls.drop_last()) + ls.last() + seq!['\n']
    }
}

/// The captured names, each kept once, in order of first capture.
pub open spec fn distinct_some(cs: Seq<Option<Seq<char>>>) -> Seq<Seq<char>>
    decreases cs.len(),
{
    if cs.len() == 0 {
        Seq::empty()
    } else {
        let p = distinct_some(cs.drop_last());
        match cs.last() {
            Some(n) => if p.contains(n) {
                p
            } else {
                p.push(n)
            },
            None => p,
        }
    }
}

/// The executables that a file listing ships.
pub open spec fn package_bins(files: Seq<char>) -> Seq<Seq<char>> {
    match regex_first_groups(BIN_PATTERN@, kept_lines(split_by(files, seq!['\n']))) {
        Some(cs) => distinct_some(cs),
        None => Seq::empty(),
    }
}

/// Bytes of the line that marks the package name in a descriptor.
pub open spec fn name_marker() -> Seq<u8> {
    seq![37u8, 78u8, 65u8, 77u8, 69u8, 37u8]
}

/// The package name found from line `i` on: the line after the first one
/// that is exactly `%NAME%`, with its trailing white space trimmed.
pub open spec fn name_from(ls: Seq<Seq<char>>, i: int) -> Result<Seq<char>, CommandoError>
    decreases ls.len() - i,
{
    if i < 0 || i >= ls.len() {
        Err(CommandoError::PackageNameDescFind)
    } else if encode_utf8(ls[i]) == name_marker() {
        if i + 1 < ls.len() {
            Ok(trim_end(ls[i + 1]))
        } else {
            Err(CommandoError::PackageNameDescRead)
        }
    } else {
        name_from(ls, i + 1)
    }
}

/// The package name a descriptor gives.
pub open spec fn package_name(desc: Seq<char>) -> Result<Seq<char>, CommandoError> {
    name_from(split_by(desc, seq!['\n']), 0)
}

/// A name result as a model value.
pub open spec fn name_view(r: Result<String, CommandoError>) -> Result<Seq<char>, CommandoError> {
    match r {
        Ok(s) => Ok(s@),
        Err(e) => Err(e),
    }
}

/// Index of the first entry for command `c` from `i` on, or -1.
pub open spec fn command_index(es: Seq<(Seq<char>, Seq<Seq<char>>)>, c: Seq<char>, i: int) -> int
    decreases es.len() - i,
{
    if i < 0 || i >= es.len() {
        -1
    } else if es[i].0 == c {
        i
    } else {
        command_index(es, c, i + 1)
    }
}

/// `n` added as a provider of `c`: to the entry of `c`, or as a new entry.
pub open spec fn add_provider(es: Seq<(Seq<char>, Seq<Seq<char>>)>, c: Seq<char>, n: Seq<char>) -> Seq<
    (Seq<char>, Seq<Seq<char>>),
> {
    let k = command_index(es, c, 0);
    if k < 0 {
        es.push((c, seq![n]))
    } else {
        es.update(k, (c, es[k].1.push(n)))
    }
}

/// `n` added as a provider of each command in `cs`, in order.
pub open spec fn add_providers(
    es: Seq<(Seq<char>, Seq<Seq<char>>)>,
    cs: Seq<Seq<char>>,
    n: Seq<char>,
) -> Seq<(Seq<char>, Seq<Seq<char>>)>
    decreases cs.len(),
{
    if cs.len() == 0 {
        es
    } else {
        add_provider(add_providers(es, cs.drop_last(), n), cs.last(), n)
    }
}

/// The index entries of a list of packages: each package that ships
/// executables is added as a provider of each; the first package whose name
/// cannot be read ends the work with that error.
pub open spec fn index_packages(ds: Seq<PackageDir>) -> Result<Seq<(Seq<char>, Seq<Seq<char>>)>, CommandoError>
    decreases ds.len(),
{
    if ds.len() == 0 {
        Ok(Seq::empty())
    } else {
        match index_packages(ds.drop_last()) {
            Err(e) => Err(e),
            Ok(es) => {
                let bins = package_bins(ds.last().files@);
                if bins.len() == 0 {
                    Ok(es)
                } else {
                    match package_name(ds.last().desc@) {
                        Err(e) => Err(e),
                        Ok(n) => Ok(add_providers(es, bins, n)),
                    }
                }
            },
        }
    }
}

/// Entries as model values.
pub open spec fn entries_view(v: Seq<CDBEntry>) -> Seq<(Seq<char>, Seq<Seq<char>>)> {
    v.map_values(|e: CDBEntry| (e.command@, views(e.packages@)))
}

/// An index result as a model value.
pub open spec fn index_view(r: Result<Vec<CDBEntry>, CommandoError>) -> Result<
    Seq<(Seq<char>, Seq<Seq<char>>)>,
    CommandoError,
> {
    match r {
        Ok(v) => Ok(entries_view(v@)),
        Err(e) => Err(e),
    }
}

/// Read package name from a descriptor.
pub fn read_package_name(desc: &str) -> (r: Result<String, CommandoError>)
    ensures
        name_view(r) == package_name(desc@),
{
    proof {
        reveal_strlit("\n");
        assert("\n"@ =~= seq!['\n']);
    }
    let lines = split_by_of(desc, "\n");
    let ghost ls = views(lines@);
    let mut i: usize = 0;
    while i < lines.len()
        invariant
            ls == views(lines@),
            i <= lines@.len(),
            name_from(ls, i as int) == package_name(desc@),
        decreases lines@.len() - i,
    {
        let b = lines[i].as_str().as_bytes();
        let marker = b.len() == 6 && b[0] == 37 && b[1] == 78 && b[2] == 65 && b[3] == 77 && b[4]
            == 69 && b[5] == 37;
        assert(ls[i as int] == lines@[i as int]@);
        assert(marker == (b@ == name_marker())) by {
            if b@ == name_marker() {
                assert(b@[5] == 37u8);
            }
            if marker {
                assert(b@ =~= name_marker());
            }
        }
        if marker {
            if i + 1 < lines.len() {
                let n = trim_end_of(lines[i + 1].as_str());
                assert(ls[i + 1] == lines@[i + 1]@);
                return Ok(n);
            } else {
                return Err(CommandoError::PackageNameDescRead);
            }
        }
        i = i + 1;
    }
    Err(CommandoError::PackageNameDescFind)
}

/// Whether the bytes of `s` hold the `node_modules` marker.
fn is_excluded(s: &str) -> (r: bool)
    ensures
        r == excluded_line(s@),
{
    let b = s.as_bytes();
    let pat: [u8; 12] = [110, 111, 100, 101, 95, 109, 111, 100, 117, 108, 101, 115];
    assert(pat@ =~= excluded_marker());
    if b.len() < 12 {
        assert(!holds_bytes(b@, excluded_marker())) by {
            if holds_bytes(b@, excluded_marker()) {
                let i = choose|i: int|
                    0 <= i <= b@.len() - 12 && #[trigger] b@.subrange(i, i + 12) == excluded_marker();
            }
        }
        return false;
    }
    let n = b.len();
    let mut i: usize = 0;
    while i <= n - 12
        invariant
            n == b@.len(),
            b@ == encode_utf8(s@),
            b@.len() >= 12,
            pat@ == excluded_marker(),
            forall|k: int| 0 <= k < i ==> #[trigger] b@.subrange(k, k + 12) != excluded_marker(),
        decreases b@.len() - i,
    {
        let mut j: usize = 0;
        while j < 12 && b[i + j] == pat[j]
            invariant
                n == b@.len(),
                n >= 12,
                i <= n - 12,
                j <= 12,
                forall|m: int| 0 <= m < j ==> b@[i + m] == pat@[m],
            decreases 12 - j,
        {
            j = j + 1;
        }
        if j == 12 {
            assert(b@.subrange(i as int, i + 12) =~= excluded_marker());
            return true;
        }
        assert(b@.subrange(i as int, i + 12)[j as int] != excluded_marker()[j as int]);
        i = i + 1;
    }
    false
}

/// The listing without its excluded lines, each kept line ended by a newline.
pub fn kept_listing(files: &str) -> (r: String)
    ensures
        r@ == kept_lines(split_by(files@, seq!['\n'])),
{
    proof {
        reveal_strlit("\n");
        assert("\n"@ =~= seq!['\n']);
    }
    let lines = split_by_of(files, "\n");
    let ghost ls = views(lines@);
    let mut out = String::new();
    let mut i: usize = 0;
    while i < lines.len()
        invariant
            ls == views(lines@),
            i <= lines@.len(),
            out@ == kept_lines(ls.take(i as int)),
        decreases lines@.len() - i,
    {
        assert(ls.take(i + 1).drop_last() =~= ls.take(i as int));
        assert(ls.take(i + 1).last() == lines@[i as int]@);
        if !is_excluded(lines[i].as_str()) {
            push_str(&mut out, lines[i].as_str());
            push_str(&mut out, "\n");
            proof {
                reveal_strlit("\n");
            }
            assert(out@ =~= kept_lines(ls.take(i + 1)));
        }
        i = i + 1;
    }
    assert(ls.take(ls.len() as int) =~= ls);
    out
}

fn contains_string(v: &Vec<String>, s: &String) -> (r: bool)
    ensures
        r == views(v@).contains(s@),
{
    let mut i: usize = 0;
    while i < v.len()
        invariant
            i <= v@.len(),
            forall|k: int| 0 <= k < i ==> v@[k]@ != s@,
        decreases v@.len() - i,
    {
        if v[i] == *s {
            assert(views(v@)[i as int] == s@);
            return true;
        }
        i = i + 1;
    }
    assert(!views(v@).contains(s@)) by {
        if views(v@).contains(s@) {
            let k = choose|k: int| 0 <= k < views(v@).len() && views(v@)[k] == s@;
            assert(v@[k]@ == s@);
        }
    }
    false
}

/// The captured names, each kept once, in order of first capture.
pub fn distinct_captures(caps: &Vec<Option<String>>) -> (r: Vec<String>)
    ensures
        views(r@) == distinct_some(opt_views(caps@)),
{
    let ghost cs = opt_views(caps@);
    let mut out: Vec<String> = Vec::new();
    let mut i: usize = 0;
    while i < caps.len()
        invariant
            cs == opt_views(caps@),
            i <= caps@.len(),
            views(out@) == distinct_some(cs.take(i as int)),
        decreases caps@.len() - i,
    {
        assert(cs.take(i + 1).drop_last() =~= cs.take(i as int));
        assert(cs.take(i + 1).last() == cs[i as int]);
        match &caps[i] {
            Some(n) => {
                if !contains_string(&out, n) {
                    out.push(n.clone());
                    assert(views(out@) =~= distinct_some(cs.take(i as int)).push(n@));
                }
            },
            None => {},
        }
        i = i + 1;
    }
    assert(cs.take(cs.len() as int) =~= cs);
    out
}

/// Read the executables that a file listing ships: the names after `/bin/`
/// on lines that are not under `node_modules`, each once.
pub fn read_package_bins(files: &str) -> (r: Vec<String>)
    ensures
        views(r@) == package_bins(files@),
{
    let text = kept_listing(files);
    match first_group_captures(BIN_PATTERN, text.as_str()) {
        Some(caps) => distinct_captures(&caps),
        None => Vec::new(),
    }
}

/// Adds `n` as a provider of `c`.
fn add_entry(entries: &mut Vec<CDBEntry>, c: &String, n: &String)
    ensures
        entries_view(final(entries)@) == add_provider(entries_view(old(entries)@), c@, n@),
{
    let ghost es = entries_view(entries@);
    let mut k: usize = 0;
    while k < entries.len()
        invariant
            es == entries_view(entries@),
            entries@ == old(entries)@,
            k <= entries@.len(),
            command_index(es, c@, k as int) == command_index(es, c@, 0),
        decreases entries@.len() - k,
    {
        if entries[k].command == *c {
            let mut e = CDBEntry { command: String::new(), packages: Vec::new() };
            entries.set_and_swap(k, &mut e);
            let ghost old_pk = e.packages@;
            e.packages.push(n.clone());
            assert(views(e.packages@) =~= views(old_pk).push(n@));
            entries.set_and_swap(k, &mut e);
            assert(command_index(es, c@, k as int) == k);
            assert(entries_view(entries@)[k as int] == (c@, es[k as int].1.push(n@)));
            assert(entries_view(entries@) =~= es.update(k as int, (c@, es[k as int].1.push(n@))));
            assert(add_provider(es, c@, n@) == es.update(k as int, (c@, es[k as int].1.push(n@))));
            return;
        }
        k = k + 1;
    }
    let pk = vec![n.clone()];
    assert(views(pk@) =~= seq![n@]);
    entries.push(CDBEntry { command: c.clone(), packages: pk });
    assert(entries_view(entries@) =~= es.push((c@, seq![n@])));
}

/// Reads the package list and returns the index entries: one per executable,
/// with every package that ships it.
pub fn parse_alpm_db(data: Vec<PackageDir>) -> (r: Result<Vec<CDBEntry>, CommandoError>)
    ensures
        index_view(r) == index_packages(data@),
{
    let mut entries: Vec<CDBEntry> = Vec::new();
    let mut i: usize = 0;
    assert(data@.take(0) =~= Seq::<PackageDir>::empty());
    assert(entries_view(entries@) =~= Seq::<(Seq<char>, Seq<Seq<char>>)>::empty());
    while i < data.len()
        invariant
            i <= data@.len(),
            index_packages(data@.take(i as int)) == Ok::<_, CommandoError>(entries_view(entries@)),
        decreases data@.len() - i,
    {
        let ghost prev = entries_view(entries@);
        assert(data@.take(i + 1).drop_last() =~= data@.take(i as int));
        assert(data@.take(i + 1).last() == data@[i as int]);
        let bins = read_package_bins(data[i].files.as_str());
        if bins.len() > 0 {
            let name = match read_package_name(data[i].desc.as_str()) {
                Ok(n) => n,
                Err(e) => {
                    assert(data@.take(i + 1).len() > 0);
                    proof {
                        lemma_index_error_stays(data@, (i + 1) as int);
                    }
                    return Err(e);
                },
            };
            let mut j: usize = 0;
            while j < bins.len()
                invariant
                    j <= bins@.len(),
                    entries_view(entries@) == add_providers(prev, views(bins@).take(j as int), name@),
                decreases bins@.len() - j,
            {
                assert(views(bins@).take(j + 1).drop_last() =~= views(bins@).take(j as int));
                add_entry(&mut entries, &bins[j], &name);
                j = j + 1;
            }
            assert(views(bins@).take(bins@.len() as int) =~= views(bins@));
        }
        i = i + 1;
    }
    assert(data@.take(data@.len() as int) =~= data@);
    Ok(entries)
}

/// An error on a prefix of the packages is the error of the whole list.
proof fn lemma_index_error_stays(ds: Seq<PackageDir>, n: int)
    requires
        0 <= n <= ds.len(),
        index_packages(ds.take(n)) is Err,
    ensures
        index_packages(ds) == index_packages(ds.take(n)),
    decreases ds.len() - n,
{
    if n < ds.len() {
        assert(ds.take(n + 1).drop_last() =~= ds.take(n));
        lemma_index_error_stays(ds, n + 1);
    } else {
        assert(ds.take(n) =~= ds);
    }
}

/// One step of reading a manifest archive.
pub enum ArchiveEvent {
    /// A new entry starts; its path inside the archive.
    StartOfEntry(String),
    /// Bytes of the current entry.
    DataChunk(Vec<u8>),
    /// The current entry ends.
    EndOfEntry,
    /// The archive could not be read; what the reader said.
    Failed(String),
}

/// Relies on `String::from_utf8`: a string exactly when the bytes are valid
/// UTF-8, holding those bytes.
#[verifier::external_body]
fn utf8_string(b: Vec<u8>) -> (r: Option<String>)
    ensures
        r is Some <==> valid_utf8(b@),
        r matches Some(s) ==> encode_utf8(s@) == b@,
{
    String::from_utf8(b).ok()
}

/// Model of a collector: current entry path, the two buffers, and the
/// packages emitted so far as (descriptor, listing) pairs.
pub struct CollectorModel {
    pub entry: Seq<char>,
    pub desc: Seq<char>,
    pub files: Seq<char>,
    pub done: Seq<(Seq<char>, Seq<char>)>,
}

/// Gathers the descriptor and the file listing of each package from the
/// events of one archive.
pub struct PackageCollector {
    entry: String,
    desc: String,
    files: String,
    done: Vec<PackageDir>,
}

/// Packages as (descriptor, listing) pairs.
pub open spec fn dirs_view(v: Seq<PackageDir>) -> Seq<(Seq<char>, Seq<char>)> {
    v.map_values(|d: PackageDir| (d.desc@, d.files@))
}

/// Bytes of the path suffix of a descriptor entry.
pub open spec fn desc_suffix() -> Seq<u8> {
    seq![47u8, 100u8, 101u8, 115u8, 99u8]
}

/// Bytes of the path suffix of a file-listing entry.
pub open spec fn files_suffix() -> Seq<u8> {
    seq![47u8, 102u8, 105u8, 108u8, 101u8, 115u8]
}

/// `b` ends with `p`.
pub open spec fn ends_with_bytes(b: Seq<u8>, p: Seq<u8>) -> bool {
    b.len() >= p.len() && b.subrange(b.len() - p.len(), b.len() as int) == p
}

/// The collector after one event, or the error that ends the archive.
pub open spec fn collect_step(m: CollectorModel, ev: ArchiveEvent) -> Result<CollectorModel, CommandoError> {
    match ev {
        ArchiveEvent::Failed(msg) => Err(CommandoError::CorruptedAlpm { message: msg }),
        ArchiveEvent::StartOfEntry(p) => Ok(CollectorModel { entry: p@, ..m }),
        ArchiveEvent::DataChunk(b) => if !valid_utf8(b@) {
            Ok(m)
        } else if ends_with_bytes(encode_utf8(m.entry), desc_suffix()) {
            Ok(CollectorModel { desc: m.desc + decode_utf8(b@), ..m })
        } else if ends_with_bytes(encode_utf8(m.entry), files_suffix()) {
            Ok(CollectorModel { files: m.files + decode_utf8(b@), ..m })
        } else {
            Ok(m)
        },
        ArchiveEvent::EndOfEntry => if m.desc.len() > 0 && m.files.len() > 0 {
            Ok(
                CollectorModel {
                    desc: Seq::empty(),
                    files: Seq::empty(),
                    done: m.done.push((m.desc, m.files)),
                    ..m
                },
            )
        } else {
            Ok(m)
        },
    }
}

fn ends_with(s: &str, suffix: &[u8]) -> (r: bool)
    ensures
        r == ends_with_bytes(encode_utf8(s@), suffix@),
{
    let b = s.as_bytes();
    if b.len() < suffix.len() {
        return false;
    }
    let n = b.len();
    let off = n - suffix.len();
    let mut i: usize = 0;
    while i < suffix.len()
        invariant
            n == b@.len(),
            b@ == encode_utf8(s@),
            off + suffix@.len() == b@.len(),
            i <= suffix@.len(),
            forall|k: int| 0 <= k < i ==> b@[off + k] == suffix@[k],
        decreases suffix@.len() - i,
    {
        if b[off + i] != suffix[i] {
            assert(b@.subrange(off as int, b@.len() as int)[i as int] != suffix@[i as int]);
            return false;
        }
        i = i + 1;
    }
    assert(b@.subrange(off as int, b@.len() as int) =~= suffix@);
    true
}

impl View for PackageCollector {
    type V = CollectorModel;

    closed spec fn view(&self) -> CollectorModel {
        CollectorModel {
            entry: self.entry@,
            desc: self.desc@,
            files: self.files@,
            done: dirs_view(self.done@),
        }
    }
}

impl PackageCollector {
    /// A collector before any event.
    pub fn new() -> (r: Self)
        ensures
            r@.entry.len() == 0 && r@.desc.len() == 0 && r@.files.len() == 0 && r@.done.len() == 0,
    {
        PackageCollector { entry: String::new(), desc: String::new(), files: String::new(), done: Vec::new() }
    }

    /// Takes one event of the archive; an unreadable entry is an error.
    pub fn feed(&mut self, ev: ArchiveEvent) -> (r: Result<(), CommandoError>)
        ensures
            match collect_step(old(self)@, ev) {
                Ok(m) => r is Ok && final(self)@ == m,
                Err(e) => r == Err::<(), CommandoError>(e) && final(self)@ == old(self)@,
            },
    {
        match ev {
            ArchiveEvent::Failed(msg) => Err(CommandoError::CorruptedAlpm { message: msg }),
            ArchiveEvent::StartOfEntry(p) => {
                self.entry = p;
                Ok(())
            },
            ArchiveEvent::DataChunk(b) => {
                let ghost bytes = b@;
                match utf8_string(b) {
                    None => {},
                    Some(text) => {
                        proof {
                            encode_utf8_decode_utf8(text@);
                        }
                        assert(text@ == decode_utf8(bytes));
                        let desc_end: [u8; 5] = [47, 100, 101, 115, 99];
                        let files_end: [u8; 6] = [47, 102, 105, 108, 101, 115];
                        assert(desc_end@ =~= desc_suffix());
                        assert(files_end@ =~= files_suffix());
                        if ends_with(self.entry.as_str(), desc_end.as_slice()) {
                            push_str(&mut self.desc, text.as_str());
                        } else if ends_with(self.entry.as_str(), files_end.as_slice()) {
                            push_str(&mut self.files, text.as_str());
                        }
                    },
                }
                Ok(())
            },
            ArchiveEvent::EndOfEntry => {
                if !self.desc.as_str().is_empty() && !self.files.as_str().is_empty() {
                    let mut desc = String::new();
                    let mut files = String::new();
                    std::mem::swap(&mut desc, &mut self.desc);
                    std::mem::swap(&mut files, &mut self.files);
                    self.done.push(PackageDir { desc, files });
                    assert(dirs_view(self.done@) =~= dirs_view(old(self).done@).push(
                        (old(self).desc@, old(self).files@),
                    ));
                }
                Ok(())
            },
        }
    }

    /// The packages gathered so far.
    pub fn finish(self) -> (r: Vec<PackageDir>)
        ensures
            dirs_view(r@) == self@.done,
    {
        self.done
    }
}

/// Every command has one entry, and every entry at least one package.
pub open spec fn well_formed_entries(es: Seq<(Seq<char>, Seq<Seq<char>>)>) -> bool {
    &&& forall|i: int, j: int| 0 <= i < j < es.len() ==> (#[trigger] es[i]).0 != (#[trigger] es[j]).0
    &&& forall|i: int| 0 <= i < es.len() ==> (#[trigger] es[i]).1.len() > 0
}

proof fn lemma_command_index(es: Seq<(Seq<char>, Seq<Seq<char>>)>, c: Seq<char>, i: int)
    requires
        0 <= i <= es.len(),
    ensures
        command_index(es, c, i) < 0 ==> forall|k: int| i <= k < es.len() ==> (#[trigger] es[k]).0 != c,
        command_index(es, c, i) >= 0 ==> i <= command_index(es, c, i) < es.len() && es[command_index(
            es,
            c,
            i,
        )].0 == c,
    decreases es.len() - i,
{
    if i < es.len() && es[i].0 != c {
        lemma_command_index(es, c, i + 1);
    }
}

proof fn lemma_add_provider_well_formed(es: Seq<(Seq<char>, Seq<Seq<char>>)>, c: Seq<char>, n: Seq<char>)
    requires
        well_formed_entries(es),
    ensures
        well_formed_entries(add_provider(es, c, n)),
{
    lemma_command_index(es, c, 0);
    let r = add_provider(es, c, n);
    let k = command_index(es, c, 0);
    if k < 0 {
        assert forall|i: int, j: int| 0 <= i < j < r.len() implies (#[trigger] r[i]).0 != (#[trigger] r[j]).0 by {
            if j == es.len() {
                assert(r[i] == es[i]);
            } else {
                assert(r[i] == es[i] && r[j] == es[j]);
            }
        }
        assert forall|i: int| 0 <= i < r.len() implies (#[trigger] r[i]).1.len() > 0 by {
            if i < es.len() {
                assert(r[i] == es[i]);
            }
        }
    } else {
        assert forall|i: int, j: int| 0 <= i < j < r.len() implies (#[trigger] r[i]).0 != (#[trigger] r[j]).0 by {
            assert(r[i].0 == es[i].0 && r[j].0 == es[j].0);
        }
        assert forall|i: int| 0 <= i < r.len() implies (#[trigger] r[i]).1.len() > 0 by {
            if i != k {
                assert(r[i] == es[i]);
            }
        }
    }
}

proof fn lemma_add_providers_well_formed(es: Seq<(Seq<char>, Seq<Seq<char>>)>, cs: Seq<Seq<char>>, n: Seq<char>)
    requires
        well_formed_entries(es),
    ensures
        well_formed_entries(add_providers(es, cs, n)),
    decreases cs.len(),
{
    if cs.len() > 0 {
        lemma_add_providers_well_formed(es, cs.drop_last(), n);
        lemma_add_provider_well_formed(add_providers(es, cs.drop_last(), n), cs.last(), n);
    }
}

/// The entries built from any package list have one entry per command,
/// each naming at least one package.
pub proof fn lemma_index_well_formed(ds: Seq<PackageDir>)
    ensures
        index_packages(ds) matches Ok(es) ==> well_formed_entries(es),
    decreases ds.len(),
{
    if ds.len() > 0 {
        lemma_index_well_formed(ds.drop_last());
        if let Ok(es) = index_packages(ds.drop_last()) {
            if let Ok(n) = package_name(ds.last().desc@) {
                lemma_add_providers_well_formed(es, package_bins(ds.last().files@), n);
            }
        }
    }
}

} // verus!
