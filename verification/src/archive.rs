//! ZIP archive handling for EPUB files

use vstd::prelude::*;
use vstd::utf8::*;

use crate::error::{err_view, EpubError, ErrView};
use crate::text::{byte_len, chars_of, push_all, str_eq, string_from_chars, string_from_utf8, utf8_error_message, utf8_error_text};

verus! {

#[verifier::external_type_specification]
#[verifier::external_body]
#[verifier::reject_recursive_types(R)]
pub struct ExZipArchive<R>(zip::ZipArchive<R>);

#[verifier::external_type_specification]
#[verifier::external_body]
#[verifier::reject_recursive_types(T)]
pub struct ExCursor<T>(std::io::Cursor<T>);

#[verifier::external_type_specification]
#[verifier::external_body]
pub struct ExZipError(zip::result::ZipError);

#[verifier::external_type_specification]
#[verifier::external_body]
pub struct ExIoError(std::io::Error);

/// One entry of an archive: its name (`ZipFile::name`), whether it is a
/// file (`ZipFile::is_file`) and its decompressed contents (what
/// `Read::read_to_end` gives, `None` when reading fails).
pub type EntryView = (Seq<char>, bool, Option<Seq<u8>>);

/// What `zip::ZipArchive::new` finds in `bytes`: `None` when it refuses
/// them; else the entries in the archive's order, each `None` where
/// `ZipArchive::by_index` refuses it (an encrypted entry or an unsupported
/// compression, say).
pub uninterp spec fn zip_listing(bytes: Seq<u8>) -> Option<Seq<Option<EntryView>>>;

/// The entries of an open archive, as [`zip_listing`] describes them.
pub uninterp spec fn zip_entries(a: zip::ZipArchive<std::io::Cursor<Vec<u8>>>) -> Seq<Option<EntryView>>;

/// Entry `i` of a listing; `None` out of range.
pub open spec fn entry_at(es: Seq<Option<EntryView>>, i: int) -> Option<EntryView> {
    if 0 <= i < es.len() {
        es[i]
    } else {
        None
    }
}

/// `zip::ZipArchive::new` over an in-memory reader (`std::io::Cursor::new`):
/// it fails exactly when [`zip_listing`] finds no archive; the archive
/// opened holds the entries listed.
#[verifier::external_body]
fn zip_open(bytes: Vec<u8>) -> (r: Result<zip::ZipArchive<std::io::Cursor<Vec<u8>>>, zip::result::ZipError>)
    ensures
        match zip_listing(bytes@) {
            Some(l) => r matches Ok(a) && zip_entries(a) == l,
            None => r is Err,
        },
{
    zip::ZipArchive::new(std::io::Cursor::new(bytes))
}

/// `ZipArchive::len`: the number of entries.
#[verifier::external_body]
fn zip_len(a: &zip::ZipArchive<std::io::Cursor<Vec<u8>>>) -> (n: usize)
    ensures
        n == zip_entries(*a).len(),
{
    a.len()
}

/// `ZipArchive::by_index`, then the entry's `ZipFile::name` (copied) and
/// `ZipFile::is_file` (neither a directory nor a symlink): the name and
/// kind of entry `i`; an error for an index out of range or an entry that
/// `by_index` refuses. The entries stay as they are.
#[verifier::external_body]
fn zip_entry_info(a: &mut zip::ZipArchive<std::io::Cursor<Vec<u8>>>, i: usize) -> (r: Result<(String, bool), zip::result::ZipError>)
    ensures
        zip_entries(*final(a)) == zip_entries(*old(a)),
        match entry_at(zip_entries(*old(a)), i as int) {
            Some(e) => r matches Ok(x) && x.0@ == e.0 && x.1 == e.1,
            None => r is Err,
        },
{
    match a.by_index(i) {
        Ok(f) => Ok((f.name().to_string(), f.is_file())),
        Err(e) => Err(e),
    }
}

/// `ZipArchive::by_index`, then `Read::read_to_end` on the entry: the
/// decompressed contents of entry `i`, the reading's error, or the error of
/// `by_index` as in [`zip_entry_info`]. The entries stay as they are.
#[verifier::external_body]
fn zip_entry_data(a: &mut zip::ZipArchive<std::io::Cursor<Vec<u8>>>, i: usize) -> (r: Result<Result<Vec<u8>, std::io::Error>, zip::result::ZipError>)
    ensures
        zip_entries(*final(a)) == zip_entries(*old(a)),
        match entry_at(zip_entries(*old(a)), i as int) {
            Some(e) => match e.2 {
                Some(d) => r matches Ok(Ok(c)) && c@ == d,
                None => r matches Ok(Err(_)),
            },
            None => r is Err,
        },
{
    match a.by_index(i) {
        Ok(mut f) => {
            let mut contents = Vec::new();
            match std::io::Read::read_to_end(&mut f, &mut contents) {
                Ok(_) => Ok(Ok(contents)),
                Err(e) => Ok(Err(e)),
            }
        },
        Err(e) => Err(e),
    }
}

/// Why an archive could not be read: the archive itself (or an entry of it)
/// is refused, or reading an entry's contents failed.
pub enum ZipFault {
    Archive,
    Io,
}

/// The files the first `k` entries of a listing give, each file entry
/// stored under its name (a later entry replacing an earlier one of the same
/// name); or the fault of the first entry that cannot be read.
pub open spec fn listed_files(l: Seq<Option<EntryView>>, k: int) -> Result<Seq<(Seq<char>, Seq<u8>)>, ZipFault>
    decreases k,
{
    if k <= 0 || k > l.len() {
        Ok(Seq::empty())
    } else {
        match listed_files(l, k - 1) {
            Err(f) => Err(f),
            Ok(prev) => match l[k - 1] {
                None => Err(ZipFault::Archive),
                Some(e) => if !e.1 {
                    Ok(prev)
                } else {
                    match e.2 {
                        None => Err(ZipFault::Io),
                        Some(d) => Ok(insert_file(prev, e.0, d)),
                    }
                },
            },
        }
    }
}

/// The files of the archive in `bytes`, or why they cannot be had.
pub open spec fn zip_files(bytes: Seq<u8>) -> Result<Seq<(Seq<char>, Seq<u8>)>, ZipFault> {
    match zip_listing(bytes) {
        None => Err(ZipFault::Archive),
        Some(l) => listed_files(l, l.len() as int),
    }
}

/// Whether `bytes` are an archive whose every entry can be read.
pub open spec fn zip_readable(bytes: Seq<u8>) -> bool {
    zip_files(bytes) is Ok
}

/// The `Display` text of a `zip::result::ZipError`.
#[verifier::external_body]
fn zip_error_text(e: &zip::result::ZipError) -> (s: String) {
    e.to_string()
}

/// The `Display` text of a `std::io::Error`.
#[verifier::external_body]
fn io_error_text(e: &std::io::Error) -> (s: String) {
    e.to_string()
}

/// No name occurs twice.
pub open spec fn files_ok(es: Seq<(Seq<char>, Seq<u8>)>) -> bool {
    &&& forall|i: int, j: int| 0 <= i < j < es.len() ==> #[trigger] es[i].0 != #[trigger] es[j].0
}

/// The index of the file named `name`, or `-1`.
pub open spec fn index_of_name(es: Seq<(Seq<char>, Seq<u8>)>, name: Seq<char>) -> int
    decreases es.len(),
{
    if es.len() == 0 {
        -1
    } else if es.last().0 == name {
        es.len() - 1
    } else {
        index_of_name(es.drop_last(), name)
    }
}

/// The contents of the file named `name`.
pub open spec fn lookup(es: Seq<(Seq<char>, Seq<u8>)>, name: Seq<char>) -> Option<Seq<u8>> {
    let i = index_of_name(es, name);
    if 0 <= i < es.len() {
        Some(es[i].1)
    } else {
        None
    }
}

/// `es` with the file `name` set to `data`: replaced where it was, else
/// added at the end.
pub open spec fn insert_file(es: Seq<(Seq<char>, Seq<u8>)>, name: Seq<char>, data: Seq<u8>) -> Seq<(Seq<char>, Seq<u8>)> {
    let i = index_of_name(es, name);
    if 0 <= i < es.len() {
        es.update(i, (name, data))
    } else {
        es.push((name, data))
    }
}

/// `p` without its leading slashes (`str::trim_start_matches('/')`).
pub open spec fn trim_slashes(p: Seq<char>) -> Seq<char>
    decreases p.len(),
{
    if p.len() > 0 && p[0] == '/' {
        trim_slashes(p.drop_first())
    } else {
        p
    }
}

pub proof fn lemma_index_of_name(es: Seq<(Seq<char>, Seq<u8>)>, name: Seq<char>)
    ensures
        -1 <= index_of_name(es, name) < es.len(),
        0 <= index_of_name(es, name) ==> es[index_of_name(es, name)].0 == name,
        index_of_name(es, name) == -1 ==> forall|k: int| 0 <= k < es.len() ==> #[trigger] es[k].0 != name,
    decreases es.len(),
{
    if es.len() > 0 {
        lemma_index_of_name(es.drop_last(), name);
        if es.last().0 != name && index_of_name(es, name) == -1 {
            assert forall|k: int| 0 <= k < es.len() implies #[trigger] es[k].0 != name by {
                if k < es.len() - 1 {
                    assert(es.drop_last()[k] == es[k]);
                }
            }
        }
    }
}

pub proof fn lemma_index_unique(es: Seq<(Seq<char>, Seq<u8>)>, name: Seq<char>, k: int)
    requires
        files_ok(es),
        0 <= k < es.len(),
        es[k].0 == name,
    ensures
        index_of_name(es, name) == k,
{
    lemma_index_of_name(es, name);
}

/// Stored files as (name, contents) views.
pub open spec fn entries_of(f: Seq<(String, Vec<u8>)>) -> Seq<(Seq<char>, Seq<u8>)> {
    Seq::new(f.len(), |i: int| (f[i].0@, f[i].1@))
}

/// Leading slashes do not matter: `/p` names the same file as `p`.
pub proof fn law_leading_slash(p: Seq<char>)
    ensures
        trim_slashes(seq!['/'] + p) == trim_slashes(p),
{
    assert((seq!['/'] + p).drop_first() =~= p);
}

/// A fault among the first `k` entries stays a fault for every longer
/// prefix of the listing.
proof fn lemma_listed_files_fault(l: Seq<Option<EntryView>>, k: int)
    requires
        0 <= k <= l.len(),
        listed_files(l, k) is Err,
    ensures
        listed_files(l, l.len() as int) == listed_files(l, k),
    decreases l.len() - k,
{
    if k < l.len() {
        assert(listed_files(l, k + 1) == listed_files(l, k));
        lemma_listed_files_fault(l, k + 1);
    }
}

/// The files of an archive, by name.
pub struct Archive {
    files: Vec<(String, Vec<u8>)>,
}

impl Archive {
    /// The files, as (name, contents) in the order they were stored.
    pub closed spec fn entries(self) -> Seq<(Seq<char>, Seq<u8>)> {
        entries_of(self.files@)
    }

    #[verifier::type_invariant]
    spec fn inv(self) -> bool {
        files_ok(self.entries())
    }

    /// An archive with no files.
    pub fn new() -> (a: Archive)
        ensures
            a.entries() == Seq::<(Seq<char>, Seq<u8>)>::empty(),
    {
        let a = Archive { files: Vec::new() };
        assert(a.entries() =~= Seq::<(Seq<char>, Seq<u8>)>::empty());
        a
    }

    /// Store a file; a file of the same name is replaced.
    pub fn insert(&mut self, name: String, contents: Vec<u8>)
        ensures
            final(self).entries() == insert_file(old(self).entries(), name@, contents@),
    {
        proof {
            use_type_invariant(&*self);
            lemma_index_of_name(self.entries(), name@);
        }
        let ghost es = self.entries();
        let ghost nv = name@;
        let ghost cv = contents@;
        let mut k: usize = 0;
        while k < self.files.len()
            invariant
                k <= self.files@.len(),
                es == self.entries(),
                es == old(self).entries(),
                files_ok(es),
                forall|j: int| 0 <= j < k ==> #[trigger] es[j].0 != nv,
                nv == name@,
                cv == contents@,
            decreases self.files@.len() - k,
        {
            assert(es[k as int] == (self.files@[k as int].0@, self.files@[k as int].1@));
            if str_eq(self.files[k].0.as_str(), name.as_str()) {
                proof {
                    lemma_index_unique(es, nv, k as int);
                }
                let mut files: Vec<(String, Vec<u8>)> = Vec::new();
                std::mem::swap(&mut files, &mut self.files);
                files.set(k, (name, contents));
                proof {
                    let ne = entries_of(files@);
                    assert(ne =~= es.update(k as int, (nv, cv)));
                    assert forall|i: int, j: int| 0 <= i < j < ne.len() implies #[trigger] ne[i].0 != #[trigger] ne[j].0 by {
                        assert(ne[i].0 == es[i].0);
                        assert(ne[j].0 == es[j].0);
                    }
                    assert(files_ok(ne));
                }
                self.files = files;
                assert(self.entries() == es.update(k as int, (nv, cv)));
                return;
            }
            k += 1;
        }
        proof {
            lemma_index_of_name(es, nv);
        }
        let mut files: Vec<(String, Vec<u8>)> = Vec::new();
        std::mem::swap(&mut files, &mut self.files);
        files.push((name, contents));
        proof {
            assert(entries_of(files@) =~= es.push((nv, cv)));
            assert(files_ok(entries_of(files@)));
        }
        self.files = files;
    }

    /// Open an EPUB's ZIP container from its bytes (useful for WASM): every
    /// entry that is a file is stored under its name, a later entry of the
    /// same name replacing an earlier one (see [`zip_files`]). It fails, with
    /// the first fault met, when `zip` refuses the archive or an entry, or
    /// reading an entry fails.
    pub fn from_bytes(bytes: Vec<u8>) -> (r: Result<Archive, EpubError>)
        ensures
            r is Ok <==> zip_readable(bytes@),
            match (r, zip_files(bytes@)) {
                (Ok(a), Ok(f)) => a.entries() == f,
                (Err(e), Err(ZipFault::Archive)) => e is ArchiveError,
                (Err(e), Err(ZipFault::Io)) => e is IoError,
                _ => false,
            },
    {
        let ghost lst = zip_listing(bytes@);
        let mut za = match zip_open(bytes) {
            Ok(a) => a,
            Err(e) => return Err(EpubError::ArchiveError(zip_error_text(&e))),
        };
        let ghost listing = lst->Some_0;
        let n = zip_len(&za);
        let mut archive = Archive::new();
        let mut i: usize = 0;
        while i < n
            invariant
                i <= n,
                lst == Some(listing),
                lst == zip_listing(bytes@),
                n == listing.len(),
                zip_entries(za) == listing,
                listed_files(listing, i as int) == Ok::<Seq<(Seq<char>, Seq<u8>)>, ZipFault>(archive.entries()),
            decreases n - i,
        {
            let (name, is_file) = match zip_entry_info(&mut za, i) {
                Ok(x) => x,
                Err(e) => {
                    proof {
                        assert(listing[i as int] is None);
                        assert(listed_files(listing, i as int + 1) == Err::<Seq<(Seq<char>, Seq<u8>)>, ZipFault>(ZipFault::Archive));
                        lemma_listed_files_fault(listing, i as int + 1);
                    }
                    return Err(EpubError::ArchiveError(zip_error_text(&e)));
                },
            };
            if is_file {
                let contents = match zip_entry_data(&mut za, i) {
                    Ok(Ok(c)) => c,
                    Ok(Err(e)) => {
                        proof {
                            let en = listing[i as int]->Some_0;
                            assert(en.1 && en.2 is None);
                            assert(listed_files(listing, i as int + 1) == Err::<Seq<(Seq<char>, Seq<u8>)>, ZipFault>(ZipFault::Io));
                            lemma_listed_files_fault(listing, i as int + 1);
                        }
                        return Err(EpubError::IoError(io_error_text(&e)));
                    },
                    Err(e) => {
                        return Err(EpubError::ArchiveError(zip_error_text(&e)));
                    },
                };
                archive.insert(name, contents);
            }
            i += 1;
        }
        Ok(archive)
    }

    /// Get a file from the archive as bytes. Leading slashes of `path` are
    /// ignored.
    pub fn get_file(&self, path: &str) -> (r: Option<&[u8]>)
        ensures
            match (r, lookup(self.entries(), trim_slashes(path@))) {
                (Some(b), Some(d)) => b@ == d,
                (None, None) => true,
                _ => false,
            },
    {
        proof {
            use_type_invariant(self);
        }
        let name = trim_leading_slashes(path);
        let ghost es = self.entries();
        proof {
            lemma_index_of_name(es, name@);
        }
        let mut k: usize = 0;
        while k < self.files.len()
            invariant
                k <= self.files@.len(),
                es == self.entries(),
                files_ok(es),
                name@ == trim_slashes(path@),
                forall|j: int| 0 <= j < k ==> #[trigger] es[j].0 != name@,
            decreases self.files@.len() - k,
        {
            assert(es[k as int] == (self.files@[k as int].0@, self.files@[k as int].1@));
            if str_eq(self.files[k].0.as_str(), name.as_str()) {
                proof {
                    lemma_index_unique(es, name@, k as int);
                }
                return Some(self.files[k].1.as_slice());
            }
            k += 1;
        }
        proof {
            lemma_index_of_name(es, name@);
        }
        None
    }

    /// Get a file from the archive as a UTF-8 string.
    pub fn get_file_string(&self, path: &str) -> (r: Result<String, EpubError>)
        ensures
            match lookup(self.entries(), trim_slashes(path@)) {
                None => r matches Err(e) && err_view(e) == ErrView::MissingFile(path@),
                Some(d) => if valid_utf8(d) {
                    r matches Ok(s) && s@ == decode_utf8(d)
                } else {
                    r matches Err(e) && err_view(e) == ErrView::InvalidStructure(
                        "Invalid UTF-8 in "@ + path@ + ": "@ + utf8_error_message(d),
                    )
                },
            },
    {
        proof {
            use_type_invariant(self);
            lemma_index_of_name(self.entries(), trim_slashes(path@));
        }
        let bytes = match self.get_file(path) {
            Some(b) => b,
            None => return Err(EpubError::MissingFile(path.to_owned())),
        };
        let mut v: Vec<u8> = Vec::new();
        let mut k: usize = 0;
        while k < bytes.len()
            invariant
                k <= bytes@.len(),
                v@ == bytes@.take(k as int),
            decreases bytes@.len() - k,
        {
            v.push(bytes[k]);
            k += 1;
            assert(v@ =~= bytes@.take(k as int));
        }
        assert(bytes@.take(k as int) =~= bytes@);
        let ghost d = v@;
        match string_from_utf8(v) {
            Some(s) => {
                proof {
                    encode_utf8_decode_utf8(s@);
                }
                Ok(s)
            },
            None => {
                let mut m = chars_of("Invalid UTF-8 in ");
                let pc = chars_of(path);
                push_all(&mut m, &pc);
                let sep = chars_of(": ");
                push_all(&mut m, &sep);
                let mut w: Vec<u8> = Vec::new();
                let mut j: usize = 0;
                while j < bytes.len()
                    invariant
                        j <= bytes@.len(),
                        w@ == bytes@.take(j as int),
                    decreases bytes@.len() - j,
                {
                    w.push(bytes[j]);
                    j += 1;
                    assert(w@ =~= bytes@.take(j as int));
                }
                assert(bytes@.take(j as int) =~= bytes@);
                let et = utf8_error_text(w);
                let ec = chars_of(et.as_str());
                push_all(&mut m, &ec);
                Err(EpubError::InvalidStructure(string_from_chars(m.as_slice())))
            },
        }
    }

    /// Check if a file exists in the archive. Leading slashes of `path` are
    /// ignored.
    pub fn has_file(&self, path: &str) -> (b: bool)
        ensures
            b == lookup(self.entries(), trim_slashes(path@)) is Some,
    {
        self.get_file(path).is_some()
    }

    /// List all files in the archive, in the order they were stored.
    pub fn list_files(&self) -> (r: Vec<&str>)
        ensures
            r@.len() == self.entries().len(),
            forall|k: int| 0 <= k < r@.len() ==> #[trigger] r@[k]@ == self.entries()[k].0,
    {
        let mut out: Vec<&str> = Vec::new();
        let mut k: usize = 0;
        while k < self.files.len()
            invariant
                k <= self.files@.len(),
                out@.len() == k,
                forall|j: int| 0 <= j < k ==> #[trigger] out@[j]@ == self.entries()[j].0,
            decreases self.files@.len() - k,
        {
            out.push(self.files[k].0.as_str());
            k += 1;
        }
        out
    }

    /// The names of the files for which `predicate` holds, in the order they
    /// were stored.
    pub fn files_matching<F: Fn(&str) -> bool>(&self, predicate: F) -> (r: Vec<&str>)
        requires
            forall|s: &str| #[trigger] predicate.requires((s,)),
        ensures
            exists|picks: Seq<bool>| {
                &&& picks.len() == self.entries().len()
                &&& forall|k: int| 0 <= k < picks.len() ==> #[trigger] picked(predicate, self.entries()[k].0, picks[k])
                &&& names_of(r@) == chosen(self.entries(), picks)
            },
    {
        let ghost es = self.entries();
        let mut out: Vec<&str> = Vec::new();
        let ghost mut picks: Seq<bool> = Seq::empty();
        let mut k: usize = 0;
        while k < self.files.len()
            invariant
                k <= self.files@.len(),
                es == self.entries(),
                picks.len() == k,
                forall|s: &str| #[trigger] predicate.requires((s,)),
                forall|j: int| 0 <= j < k ==> #[trigger] picked(predicate, es[j].0, picks[j]),
                names_of(out@) == chosen(es.take(k as int), picks),
            decreases self.files@.len() - k,
        {
            let name = self.files[k].0.as_str();
            let b = predicate(name);
            let ghost pk = picks;
            assert(es[k as int] == (self.files@[k as int].0@, self.files@[k as int].1@));
            let ghost before = out@;
            if b {
                out.push(name);
            }
            proof {
                let t = es.take(k + 1);
                assert(t.drop_last() =~= es.take(k as int));
                assert(picks.push(b).drop_last() =~= picks);
                assert(es[k as int].0 == name@);
                if b {
                    assert(names_of(out@) =~= names_of(before).push(name@));
                } else {
                    assert(names_of(out@) =~= names_of(before));
                }
                picks = picks.push(b);
                assert(picks[k as int] == b);
                assert(name@ == es[k as int].0 && predicate.ensures((name,), picks[k as int]));
            }
            k += 1;
            assert forall|j: int| 0 <= j < k implies #[trigger] picked(predicate, es[j].0, picks[j]) by {
                if j < k - 1 {
                    assert(picks[j] == pk[j]);
                    assert(picked(predicate, es[j].0, pk[j]));
                } else {
                    assert(name@ == es[j].0 && predicate.ensures((name,), picks[j]));
                }
            }
        }
        assert(es.take(k as int) =~= es);
        assert(picks.len() == self.entries().len());
        out
    }

}

/// `predicate` answered `b` for a name viewed as `name`.
pub open spec fn picked<F: Fn(&str) -> bool>(predicate: F, name: Seq<char>, b: bool) -> bool {
    exists|s: &str| s@ == name && #[trigger] predicate.ensures((s,), b)
}

/// The views of some names.
pub open spec fn names_of(v: Seq<&str>) -> Seq<Seq<char>> {
    Seq::new(v.len(), |i: int| v[i]@)
}

/// The names of the files picked.
pub open spec fn chosen(es: Seq<(Seq<char>, Seq<u8>)>, picks: Seq<bool>) -> Seq<Seq<char>>
    decreases es.len(),
{
    if es.len() == 0 || picks.len() != es.len() {
        Seq::empty()
    } else if picks.last() {
        chosen(es.drop_last(), picks.drop_last()).push(es.last().0)
    } else {
        chosen(es.drop_last(), picks.drop_last())
    }
}

/// `path` without its leading slashes.
pub fn trim_leading_slashes(path: &str) -> (r: String)
    ensures
        r@ == trim_slashes(path@),
{
    let c = chars_of(path);
    let mut k: usize = 0;
    assert(c@.skip(0) =~= c@);
    while k < c.len() && c[k] == '/'
        invariant
            k <= c@.len(),
            trim_slashes(path@) == trim_slashes(c@.skip(k as int)),
            c@ == path@,
        decreases c@.len() - k,
    {
        assert(c@.skip(k as int).drop_first() =~= c@.skip(k + 1));
        k += 1;
    }
    assert(trim_slashes(c@.skip(k as int)) == c@.skip(k as int));
    let mut out: Vec<char> = Vec::new();
    let mut j = k;
    while j < c.len()
        invariant
            k <= j <= c@.len(),
            out@ == c@.subrange(k as int, j as int),
        decreases c@.len() - j,
    {
        out.push(c[j]);
        j += 1;
        assert(out@ =~= c@.subrange(k as int, j as int));
    }
    assert(out@ =~= c@.skip(k as int));
    string_from_chars(out.as_slice())
}

} // verus!
