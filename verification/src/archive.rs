//! The files of one package version, read from its compressed archive.
//!
//! An archive is accepted only if its digest is the one that the registry
//! lists.  A file is stored under its path below the archive's top
//! directory, spelled as the archive spells it: two spellings are two files.
//! No file is stored under the empty path or under one with a `..`.

use crate::buffer::contents;
use crate::digest::{sha256, sha256_digest};
use crate::order::same_bytes;
use crate::path::{after_prefix, check_safe, is_safe, text_of};
use crate::registry::VersionInfo;
use crate::text_map::TextMap;
use bytes::Bytes;
use flate2::bufread::GzDecoder;
use std::io::Read;
use tar::Archive;
use vstd::prelude::*;
use vstd::slice::slice_to_vec;
use vstd::string::StringExecFns;
use vstd::utf8::{decode_utf8, valid_utf8};

verus! {

/// One entry of an archive as it was read.
#[derive(Clone, Debug, PartialEq, Eq)]
pub struct RawEntry {
    /// The entry is a regular file.
    pub is_file: bool,
    /// The entry's path, as the archive spells it.
    pub path: Vec<u8>,
    /// The entry's content, as far as it could be read.
    pub data: Bytes,
    /// The content was read to its end.
    pub intact: bool,
}

/// A [`RawEntry`] as plain values.
pub struct EntryView {
    pub is_file: bool,
    pub path: Seq<u8>,
    pub data: Seq<u8>,
    pub intact: bool,
}

impl View for RawEntry {
    type V = EntryView;

    open spec fn view(&self) -> EntryView {
        EntryView {
            is_file: self.is_file,
            path: self.path@,
            data: contents(self.data),
            intact: self.intact,
        }
    }
}

/// The entries of a list as plain values.
pub open spec fn entry_views(entries: Seq<RawEntry>) -> Seq<EntryView> {
    Seq::new(entries.len(), |i: int| entries[i]@)
}

/// What reading a gzip-compressed tar archive yields: its entries in
/// stream order, up to the first one that could not be read to its end, and
/// whether reading failed before the end of the archive.
pub uninterp spec fn unpacked(data: Seq<u8>) -> (Seq<EntryView>, bool);

/// `tar::Archive::entries` over `flate2::bufread::GzDecoder`: reads the
/// entries of a compressed archive one by one, of each its kind
/// (`EntryType::is_file`), its path (`Entry::path_bytes`) and its content
/// (`read_to_end`), and stops at the first error.  The message of that
/// error is returned beside the entries read so far; an entry whose content
/// broke off is the last of them and is marked.
#[verifier::external_body]
pub(crate) fn read_archive(data: &[u8]) -> (listing: (Vec<RawEntry>, Option<String>))
    ensures
        (entry_views(listing.0@), listing.1 is Some) == unpacked(data@),
{
    let mut entries: Vec<RawEntry> = Vec::new();
    let mut archive = Archive::new(GzDecoder::new(data));
    let mut read_all = || {
        for next in archive.entries()? {
            let mut entry = next?;
            let (is_file, mut data) = (entry.header().entry_type().is_file(), Vec::new());
            let read = entry.read_to_end(&mut data);
            let path = entry.path_bytes().into_owned();
            entries.push(RawEntry { is_file, path, data: Bytes::from(data), intact: read.is_ok() });
            read?;
        }
        Ok::<(), std::io::Error>(())
    };
    let failure = read_all().err().map(|error| error.to_string());
    (entries, failure)
}

/// Why an archive was not accepted.
#[derive(Debug, PartialEq, Eq)]
pub enum CrateSourceError {
    /// The digest of the download is not the one that the registry lists.
    HashsumMismatch { expected: Vec<u8>, got: Vec<u8> },
    /// The archive could not be decompressed or is no well-formed tar
    /// stream; the message says what the reader reported.
    Io(String),
    /// The path of a file is not UTF-8.  A lossy decoding could make two
    /// paths collide and hide a file, so this is an error.
    PathEncoding,
    /// The path of a file does not name a file of the directory that the
    /// archive is expected to unpack to: it does not start with the
    /// directory's name, it ends there, or it leaves the directory by a
    /// `..`.
    InvalidPrefix { path: String, prefix: String },
}

/// What is done with one entry of an archive.
pub enum Verdict {
    /// The entry is passed over.
    Skip,
    /// The entry's content is stored under this path.
    Keep(Seq<char>),
    /// The archive is refused: the entry's path is not UTF-8.
    BadPath,
    /// The archive is refused: the entry, whose path this is, is no file of
    /// the expected directory.
    Outside(Seq<char>),
    /// The archive is refused: the entry's content broke off.
    Broken,
}

/// What is done with `entry` when files are expected below `prefix`.  An
/// entry that is no regular file is passed over.  A file whose path does not
/// start with `prefix`, is `prefix` itself, or has a `..` after it, is
/// refused in strict mode and passed over otherwise.  Every other file is
/// kept under what follows `prefix` in its path, letter for letter.
pub open spec fn verdict(entry: EntryView, prefix: Seq<char>, strict: bool) -> Verdict {
    if !entry.is_file {
        Verdict::Skip
    } else if !valid_utf8(entry.path) {
        Verdict::BadPath
    } else {
        let path = decode_utf8(entry.path);
        if !prefix.is_prefix_of(path) || !is_safe(path.skip(prefix.len() as int)) {
            if strict {
                Verdict::Outside(path)
            } else {
                Verdict::Skip
            }
        } else if !entry.intact {
            Verdict::Broken
        } else {
            Verdict::Keep(path.skip(prefix.len() as int))
        }
    }
}

/// The verdict refuses the archive.
pub open spec fn refuses(verdict: Verdict) -> bool {
    verdict is BadPath || verdict is Outside || verdict is Broken
}

/// `error` is the error that a refusing verdict is reported as.
pub open spec fn reports(error: CrateSourceError, verdict: Verdict, prefix: Seq<char>) -> bool {
    match verdict {
        Verdict::BadPath => error is PathEncoding,
        Verdict::Outside(path) => error matches CrateSourceError::InvalidPrefix {
            path: reported,
            prefix: expected,
        } && reported@ == path && expected@ == prefix,
        Verdict::Broken => error is Io,
        _ => false,
    }
}

/// None of the first `n` entries is refused.
pub open spec fn none_refused(
    entries: Seq<EntryView>,
    prefix: Seq<char>,
    strict: bool,
    n: int,
) -> bool {
    forall|i: int| 0 <= i < n ==> !refuses(#[trigger] verdict(entries[i], prefix, strict))
}

/// Entry `i` is the last among the first `n` that is kept under `key`.
pub open spec fn last_kept(
    entries: Seq<EntryView>,
    prefix: Seq<char>,
    strict: bool,
    n: int,
    key: Seq<char>,
    i: int,
) -> bool {
    &&& 0 <= i < n
    &&& verdict(entries[i], prefix, strict) == Verdict::Keep(key)
    &&& forall|j: int|
        i < j < n ==> #[trigger] verdict(entries[j], prefix, strict) != Verdict::Keep(key)
}

/// `files` holds what the first `n` entries keep: a path is stored exactly
/// if some entry is kept under it, with the content of the last such entry.
pub open spec fn holds_kept(
    files: Map<Seq<char>, Bytes>,
    entries: Seq<EntryView>,
    prefix: Seq<char>,
    strict: bool,
    n: int,
) -> bool {
    &&& forall|i: int|
        0 <= i < n ==> match #[trigger] verdict(entries[i], prefix, strict) {
            Verdict::Keep(key) => files.dom().contains(key),
            _ => true,
        }
    &&& forall|key: Seq<char>| #[trigger]
        files.dom().contains(key) ==> exists|i: int|
            #![trigger entries[i]]
            last_kept(entries, prefix, strict, n, key, i) && contents(files[key])
                == entries[i].data
}

/// `result` is the outcome of storing the entries of an archive: the error
/// of the first refused entry; else an error if reading the archive failed;
/// else the files kept.
pub open spec fn parsed(
    result: Result<TextMap<Bytes>, CrateSourceError>,
    prefix: Seq<char>,
    entries: Seq<EntryView>,
    failed: bool,
    strict: bool,
) -> bool {
    match result {
        Ok(files) => {
            &&& files.wf()
            &&& !failed
            &&& none_refused(entries, prefix, strict, entries.len() as int)
            &&& holds_kept(files@, entries, prefix, strict, entries.len() as int)
        },
        Err(error) => {
            ||| exists|i: int|
                #![trigger entries[i]]
                {
                    &&& 0 <= i < entries.len()
                    &&& none_refused(entries, prefix, strict, i)
                    &&& reports(error, verdict(entries[i], prefix, strict), prefix)
                }
            ||| {
                &&& failed
                &&& error is Io
                &&& none_refused(entries, prefix, strict, entries.len() as int)
            }
        },
    }
}

/// Entry `j` of a stream into which `extra` was put before entry `at`.
proof fn lemma_put_at(entries: Seq<EntryView>, at: int, extra: EntryView, j: int)
    requires
        0 <= at <= entries.len(),
        0 <= j <= entries.len(),
    ensures
        entries.insert(at, extra).len() == entries.len() + 1,
        entries.insert(at, extra)[j] == if j < at {
            entries[j]
        } else if j == at {
            extra
        } else {
            entries[j - 1]
        },
{
}

/// With an entry that is no regular file put before entry `at`, the first
/// `n` entries hold a refused one exactly if those before did.
proof fn lemma_none_refused_put(
    entries: Seq<EntryView>,
    prefix: Seq<char>,
    strict: bool,
    at: int,
    extra: EntryView,
    n: int,
)
    requires
        0 <= at <= entries.len(),
        0 <= n <= entries.len() + 1,
        !extra.is_file,
    ensures
        none_refused(entries.insert(at, extra), prefix, strict, n) == none_refused(
            entries,
            prefix,
            strict,
            if n <= at {
                n
            } else {
                n - 1
            },
        ),
{
    let with = entries.insert(at, extra);
    let m = if n <= at {
        n
    } else {
        n - 1
    };
    if none_refused(with, prefix, strict, n) {
        assert forall|i: int| 0 <= i < m implies !refuses(
            #[trigger] verdict(entries[i], prefix, strict),
        ) by {
            let j = if i < at {
                i
            } else {
                i + 1
            };
            lemma_put_at(entries, at, extra, j);
            assert(!refuses(verdict(with[j], prefix, strict)));
        }
    }
    if none_refused(entries, prefix, strict, m) {
        assert forall|j: int| 0 <= j < n implies !refuses(
            #[trigger] verdict(with[j], prefix, strict),
        ) by {
            lemma_put_at(entries, at, extra, j);
            if j < at {
                assert(!refuses(verdict(entries[j], prefix, strict)));
            } else if j > at {
                assert(!refuses(verdict(entries[j - 1], prefix, strict)));
            }
        }
    }
}

/// With an entry that is no regular file put before entry `at`, the same
/// files are kept.
proof fn lemma_holds_kept_put(
    files: Map<Seq<char>, Bytes>,
    entries: Seq<EntryView>,
    prefix: Seq<char>,
    strict: bool,
    at: int,
    extra: EntryView,
)
    requires
        0 <= at <= entries.len(),
        !extra.is_file,
    ensures
        holds_kept(files, entries.insert(at, extra), prefix, strict, entries.len() as int + 1)
            == holds_kept(files, entries, prefix, strict, entries.len() as int),
{
    let with = entries.insert(at, extra);
    let len = entries.len() as int;
    if holds_kept(files, entries, prefix, strict, len) {
        assert forall|j: int| 0 <= j < len + 1 implies match #[trigger] verdict(
            with[j],
            prefix,
            strict,
        ) {
            Verdict::Keep(key) => files.dom().contains(key),
            _ => true,
        } by {
            lemma_put_at(entries, at, extra, j);
            if j < at {
                assert(verdict(entries[j], prefix, strict) == verdict(with[j], prefix, strict));
            } else if j > at {
                assert(verdict(entries[j - 1], prefix, strict) == verdict(
                    with[j],
                    prefix,
                    strict,
                ));
            }
        }
        assert forall|key: Seq<char>| #[trigger] files.dom().contains(key) implies exists|j: int|
            #![trigger with[j]]
            last_kept(with, prefix, strict, len + 1, key, j) && contents(files[key])
                == with[j].data by {
            let i = choose|i: int|
                #![trigger entries[i]]
                last_kept(entries, prefix, strict, len, key, i) && contents(files[key])
                    == entries[i].data;
            let j = if i < at {
                i
            } else {
                i + 1
            };
            lemma_put_at(entries, at, extra, j);
            assert forall|k: int| j < k < len + 1 implies #[trigger] verdict(
                with[k],
                prefix,
                strict,
            ) != Verdict::Keep(key) by {
                lemma_put_at(entries, at, extra, k);
                if k < at {
                    assert(verdict(entries[k], prefix, strict) != Verdict::Keep(key));
                } else if k > at {
                    assert(verdict(entries[k - 1], prefix, strict) != Verdict::Keep(key));
                }
            }
            assert(last_kept(with, prefix, strict, len + 1, key, j) && contents(files[key])
                == with[j].data);
        }
    }
    if holds_kept(files, with, prefix, strict, len + 1) {
        assert forall|i: int| 0 <= i < len implies match #[trigger] verdict(
            entries[i],
            prefix,
            strict,
        ) {
            Verdict::Keep(key) => files.dom().contains(key),
            _ => true,
        } by {
            let j = if i < at {
                i
            } else {
                i + 1
            };
            lemma_put_at(entries, at, extra, j);
            assert(verdict(with[j], prefix, strict) == verdict(entries[i], prefix, strict));
        }
        assert forall|key: Seq<char>| #[trigger] files.dom().contains(key) implies exists|i: int|
            #![trigger entries[i]]
            last_kept(entries, prefix, strict, len, key, i) && contents(files[key])
                == entries[i].data by {
            let j = choose|j: int|
                #![trigger with[j]]
                last_kept(with, prefix, strict, len + 1, key, j) && contents(files[key])
                    == with[j].data;
            lemma_put_at(entries, at, extra, j);
            let i = if j < at {
                j
            } else {
                j - 1
            };
            assert forall|k: int| i < k < len implies #[trigger] verdict(
                entries[k],
                prefix,
                strict,
            ) != Verdict::Keep(key) by {
                let l = if k < at {
                    k
                } else {
                    k + 1
                };
                lemma_put_at(entries, at, extra, l);
                assert(verdict(with[l], prefix, strict) != Verdict::Keep(key));
            }
            assert(last_kept(entries, prefix, strict, len, key, i) && contents(files[key])
                == entries[i].data);
        }
    }
}

/// An entry that is no regular file changes nothing: put anywhere into the
/// stream of an archive, it leaves every outcome of storing the entries as
/// it was, the files kept and the error alike.
pub proof fn lemma_other_entries_change_nothing(
    result: Result<TextMap<Bytes>, CrateSourceError>,
    prefix: Seq<char>,
    entries: Seq<EntryView>,
    failed: bool,
    strict: bool,
    at: int,
    extra: EntryView,
)
    requires
        0 <= at <= entries.len(),
        !extra.is_file,
    ensures
        parsed(result, prefix, entries.insert(at, extra), failed, strict) == parsed(
            result,
            prefix,
            entries,
            failed,
            strict,
        ),
{
    let with = entries.insert(at, extra);
    let len = entries.len() as int;
    lemma_put_at(entries, at, extra, at);
    lemma_none_refused_put(entries, prefix, strict, at, extra, len + 1);
    match result {
        Ok(files) => {
            lemma_holds_kept_put(files@, entries, prefix, strict, at, extra);
        },
        Err(error) => {
            if parsed(result, prefix, entries, failed, strict) && !(failed && error is Io
                && none_refused(entries, prefix, strict, len)) {
                let i = choose|i: int|
                    #![trigger entries[i]]
                    {
                        &&& 0 <= i < entries.len()
                        &&& none_refused(entries, prefix, strict, i)
                        &&& reports(error, verdict(entries[i], prefix, strict), prefix)
                    };
                let j = if i < at {
                    i
                } else {
                    i + 1
                };
                lemma_put_at(entries, at, extra, j);
                lemma_none_refused_put(entries, prefix, strict, at, extra, j);
                assert(reports(error, verdict(with[j], prefix, strict), prefix));
            }
            if parsed(result, prefix, with, failed, strict) && !(failed && error is Io
                && none_refused(with, prefix, strict, len + 1)) {
                let j = choose|j: int|
                    #![trigger with[j]]
                    {
                        &&& 0 <= j < with.len()
                        &&& none_refused(with, prefix, strict, j)
                        &&& reports(error, verdict(with[j], prefix, strict), prefix)
                    };
                lemma_put_at(entries, at, extra, j);
                lemma_none_refused_put(entries, prefix, strict, at, extra, j);
                let i = if j < at {
                    j
                } else {
                    j - 1
                };
                assert(reports(error, verdict(entries[i], prefix, strict), prefix));
            }
        },
    }
}

/// Stores the files of an archive's entries that lie below `prefix`.
///
/// The entries are taken in stream order, so of two files with the same
/// path the later one stays.  `failure` is what reading the archive ended
/// with, if it failed.
pub fn parse_entries(
    prefix: &str,
    entries: &Vec<RawEntry>,
    failure: Option<String>,
    strict: bool,
) -> (result: Result<TextMap<Bytes>, CrateSourceError>)
    ensures
        parsed(result, prefix@, entry_views(entries@), failure is Some, strict),
        result matches Ok(files) ==> forall|key: Seq<char>| #[trigger]
            files@.dom().contains(key) ==> is_safe(key),
{
    let ghost views = entry_views(entries@);
    let mut files: TextMap<Bytes> = TextMap::new();
    let mut i: usize = 0;
    while i < entries.len()
        invariant
            i <= entries@.len(),
            views == entry_views(entries@),
            files.wf(),
            none_refused(views, prefix@, strict, i as int),
            holds_kept(files@, views, prefix@, strict, i as int),
        decreases entries.len() - i,
    {
        let entry = &entries[i];
        let ghost outcome = verdict(views[i as int], prefix@, strict);
        if entry.is_file {
            let path = match text_of(entry.path.as_slice()) {
                Some(path) => path,
                None => {
                    return Err(CrateSourceError::PathEncoding);
                },
            };
            let below = match after_prefix(path, prefix) {
                Some(rest) => if check_safe(rest) {
                    assert(path@.skip(prefix@.len() as int) =~= rest@);
                    Some(rest)
                } else {
                    assert(path@.skip(prefix@.len() as int) =~= rest@);
                    None
                },
                None => None,
            };
            match below {
                None => {
                    if strict {
                        return Err(
                            CrateSourceError::InvalidPrefix {
                                path: path.to_owned(),
                                prefix: prefix.to_owned(),
                            },
                        );
                    }
                },
                Some(rest) => {
                    if !entry.intact {
                        let message = match failure {
                            Some(message) => message,
                            None => String::new(),
                        };
                        return Err(CrateSourceError::Io(message));
                    }
                    files.insert(rest.to_owned(), entry.data.clone());
                },
            }
        } else {
            assert(outcome == Verdict::Skip);
        }
        i = i + 1;
    }
    match failure {
        Some(message) => Err(CrateSourceError::Io(message)),
        None => Ok(files),
    }
}

/// The directory that the archive of a version unpacks to: the package's
/// name, a hyphen, the version number and a slash.
pub open spec fn archive_prefix(version: VersionInfo) -> Seq<char> {
    version.krate@ + seq!['-'] + version.version@ + seq!['/']
}

/// The directory that the archive of a version unpacks to.
pub fn prefix_of(version: &VersionInfo) -> (prefix: String)
    ensures
        prefix@ == archive_prefix(*version),
{
    proof {
        reveal_strlit("-");
        reveal_strlit("/");
    }
    let mut prefix = version.krate.clone();
    prefix.append("-");
    prefix.append(version.version.as_str());
    prefix.append("/");
    prefix
}

/// The files of one package version, by path.
#[derive(Clone, Debug, PartialEq, Eq)]
pub struct CrateSource {
    /// The version that these are the files of.
    pub version: VersionInfo,
    /// Content of every file, by its path below the archive's top directory.
    pub files: TextMap<Bytes>,
}

impl CrateSource {
    /// The files are sorted by path; no path is empty, and none has a
    /// `..` among its components.
    pub open spec fn wf(self) -> bool {
        &&& self.files.wf()
        &&& forall|key: Seq<char>| #[trigger] self.files@.dom().contains(key) ==> is_safe(key)
    }

    /// Are the files sorted by path, with no empty path and no `..`?
    pub fn is_well_formed(&self) -> (well: bool)
        ensures
            well == self.wf(),
    {
        if !self.files.is_sorted() {
            return false;
        }
        let mut n: usize = 0;
        while n < self.files.len()
            invariant
                n <= self.files.slots@.len(),
                self.files.wf(),
                forall|i: int| 0 <= i < n ==> is_safe(#[trigger] self.files.spec_key(i)),
            decreases self.files.slots@.len() - n,
        {
            if !check_safe(self.files.key(n).as_str()) {
                proof {
                    self.files.lemma_slot(n as int);
                }
                return false;
            }
            n = n + 1;
        }
        proof {
            assert forall|key: Seq<char>| #[trigger]
                self.files@.dom().contains(key) implies is_safe(key) by {
                let i = crate::text_map::slot_of(self.files.slots@, key);
                assert(self.files.spec_key(i) == key);
            }
        }
        true
    }

    /// Holds the digest of a download against the one that the registry
    /// lists for the version.
    pub fn check_digest(version: &VersionInfo, digest: Vec<u8>) -> (result: Result<
        (),
        CrateSourceError,
    >)
        ensures
            match result {
                Ok(_) => digest@ == version.checksum@,
                Err(error) => {
                    &&& digest@ != version.checksum@
                    &&& error matches CrateSourceError::HashsumMismatch { expected, got }
                    &&& expected@ == version.checksum@
                    &&& got@ == digest@
                },
            },
    {
        if same_bytes(digest.as_slice(), version.checksum.as_slice()) {
            Ok(())
        } else {
            Err(
                CrateSourceError::HashsumMismatch {
                    expected: slice_to_vec(version.checksum.as_slice()),
                    got: digest,
                },
            )
        }
    }

    /// Reads a compressed archive and stores its files that lie below
    /// `prefix`.  A file elsewhere, or one whose path leaves `prefix` by a
    /// `..`, is an error if `error_outside_prefix` is set, and is passed
    /// over if not.
    pub fn parse_archive(prefix: &str, data: &[u8], error_outside_prefix: bool) -> (result: Result<
        TextMap<Bytes>,
        CrateSourceError,
    >)
        ensures
            parsed(result, prefix@, unpacked(data@).0, unpacked(data@).1, error_outside_prefix),
            result matches Ok(files) ==> forall|key: Seq<char>| #[trigger]
                files@.dom().contains(key) ==> is_safe(key),
    {
        let (entries, failure) = read_archive(data);
        parse_entries(prefix, &entries, failure, error_outside_prefix)
    }

    /// Builds the file store of a version from its downloaded archive.
    ///
    /// The digest of `data` is held against the version's checksum before
    /// anything is decompressed.  Then every regular file of the archive
    /// must lie below the directory named after the package and the version.
    pub fn new(version: VersionInfo, data: &[u8]) -> (result: Result<Self, CrateSourceError>)
        ensures
            match result {
                Ok(source) => {
                    &&& sha256_digest(data@) == version.checksum@
                    &&& source.version == version
                    &&& source.wf()
                    &&& parsed(
                        Ok(source.files),
                        archive_prefix(version),
                        unpacked(data@).0,
                        unpacked(data@).1,
                        true,
                    )
                },
                Err(error) => if sha256_digest(data@) != version.checksum@ {
                    &&& error matches CrateSourceError::HashsumMismatch { expected, got }
                    &&& expected@ == version.checksum@
                    &&& got@ == sha256_digest(data@)
                } else {
                    parsed(
                        Err(error),
                        archive_prefix(version),
                        unpacked(data@).0,
                        unpacked(data@).1,
                        true,
                    )
                },
            },
    {
        let digest = sha256(data);
        match Self::check_digest(&version, digest) {
            Err(error) => {
                return Err(error);
            },
            Ok(_) => {},
        }
        let prefix = prefix_of(&version);
        match Self::parse_archive(prefix.as_str(), data, true) {
            Ok(files) => {
                Ok(CrateSource { version, files })
            },
            Err(error) => Err(error),
        }
    }
}

} // verus!
