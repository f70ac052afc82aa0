use vstd::prelude::*;
use vstd::string::*;

use crate::date::{fixed_digits, Date};
use crate::error::TaskError;
use crate::store::{agrees_except, Store};

verus! {

/// Whether the artifact at `loc` exists in `m`; a target with no location
/// never exists.
pub open spec fn present(m: Map<Seq<char>, Seq<u8>>, loc: Option<Seq<char>>) -> bool {
    match loc {
        Some(k) => m.contains_key(k),
        None => false,
    }
}

/// The bytes that reading `loc` yields from `m`: nothing for a target with
/// no location.
pub open spec fn stored(m: Map<Seq<char>, Seq<u8>>, loc: Option<Seq<char>>) -> Seq<u8> {
    match loc {
        Some(k) => m[k],
        None => Seq::empty(),
    }
}

/// `m` after writing `data` to `loc`; writing to no location changes nothing.
pub open spec fn put(m: Map<Seq<char>, Seq<u8>>, loc: Option<Seq<char>>, data: Seq<u8>) -> Map<
    Seq<char>,
    Seq<u8>,
> {
    match loc {
        Some(k) => m.insert(k, data),
        None => m,
    }
}

/// `m` after deleting `loc`.
pub open spec fn erase(m: Map<Seq<char>, Seq<u8>>, loc: Option<Seq<char>>) -> Map<
    Seq<char>,
    Seq<u8>,
> {
    match loc {
        Some(k) => m.remove(k),
        None => m,
    }
}

/// Writing bytes to a target and deleting it leaves it absent; writing
/// bytes to a target with a location and reading it back yields them.
pub proof fn lemma_write_round_trip(m: Map<Seq<char>, Seq<u8>>, loc: Option<Seq<char>>, data: Seq<u8>)
    ensures
        !present(erase(put(m, loc, data), loc), loc),
        loc is Some ==> present(put(m, loc, data), loc) && stored(put(m, loc, data), loc) == data,
{
}

/// A persistent artifact, addressed in a backing store. A target without a
/// location is a sink: it never exists, reads as empty, and ignores writes
/// and deletes.
pub trait Target {
    /// Where the artifact lives in the store.
    closed spec fn location(&self) -> Option<Seq<char>> {
        None
    }

    /// The address of the artifact, computed afresh.
    fn address(&self) -> (r: Option<String>)
        ensures
            r is Some <==> self.location() is Some,
            r is Some ==> r->Some_0@ == self.location()->Some_0,
    ;

    /// Reads the artifact's bytes; fails where it does not exist.
    fn read<S: Store>(&self, store: &S) -> (r: Result<Vec<u8>, TaskError>)
        ensures
            r is Ok ==> present(store.contents(), self.location()) || self.location() is None,
            r is Ok ==> r->Ok_0@ == stored(store.contents(), self.location()),
            self.location() is Some && !present(store.contents(), self.location()) ==> r is Err,
            self.location() is None ==> r is Ok,
    {
        match self.address() {
            Some(key) => store.read(key.as_str()),
            None => Ok(Vec::new()),
        }
    }

    /// Creates or overwrites the artifact with `data`.
    fn write<S: Store>(&self, store: &mut S, data: &[u8]) -> (r: Result<(), TaskError>)
        ensures
            r is Ok ==> final(store).contents() == put(old(store).contents(), self.location(), data@),
            r is Err ==> self.location() is Some && agrees_except(
                old(store).contents(),
                final(store).contents(),
                self.location()->Some_0,
            ),
            self.location() is None ==> r is Ok && final(store).contents() == old(store).contents(),
    {
        match self.address() {
            Some(key) => store.write(key.as_str(), data),
            None => Ok(()),
        }
    }

    /// Removes the artifact.
    fn delete<S: Store>(&self, store: &mut S) -> (r: Result<(), TaskError>)
        ensures
            r is Ok ==> final(store).contents() == erase(old(store).contents(), self.location()),
            r is Err ==> final(store).contents() == old(store).contents(),
            !present(old(store).contents(), self.location()) ==> r is Ok && final(store).contents()
                == old(store).contents(),
    {
        match self.address() {
            Some(key) => store.remove(key.as_str()),
            None => Ok(()),
        }
    }

    /// Whether the artifact exists.
    fn is_present<S: Store>(&self, store: &S) -> (r: Result<bool, TaskError>)
        ensures
            r is Ok ==> r->Ok_0 == present(store.contents(), self.location()),
            self.location() is None ==> r == Ok::<bool, TaskError>(false),
    {
        match self.address() {
            Some(key) => store.contains(key.as_str()),
            None => Ok(false),
        }
    }
}

/// The target of a task whose value lies in running its dependencies.
#[derive(Debug, PartialEq, Eq)]
pub struct NullTarget {}

impl Target for NullTarget {
    open spec fn location(&self) -> Option<Seq<char>> {
        None
    }

    fn address(&self) -> (r: Option<String>) {
        None
    }
}

/// The path of `name` inside the directory `dir`, as a path join forms it:
/// an absolute `name` stands alone, and a separator is added where `dir`
/// does not already end with one.
pub open spec fn joined(dir: Seq<char>, name: Seq<char>) -> Seq<char> {
    if name.len() > 0 && name[0] == '/' {
        name
    } else if dir.len() == 0 || dir.last() == '/' {
        dir + name
    } else {
        dir + seq!['/'] + name
    }
}

/// Joins `name` onto the directory `dir`.
pub fn join_path(dir: &str, name: &str) -> (r: String)
    ensures
        r@ == joined(dir@, name@),
{
    let name_len = name.unicode_len();
    let dir_len = dir.unicode_len();
    if name_len > 0 && name.get_char(0) == '/' {
        String::from_str(name)
    } else if dir_len == 0 || dir.get_char(dir_len - 1) == '/' {
        String::from_str(dir).concat(name)
    } else {
        proof {
            reveal_strlit("/");
        }
        String::from_str(dir).concat("/").concat(name)
    }
}

/// A target stored as the file `local_filename` in the directory `cache_dir`.
#[derive(Debug, PartialEq, Eq)]
pub struct FileTarget {
    pub cache_dir: String,
    pub local_filename: String,
}

impl FileTarget {
    pub fn new(cache_dir: &str, local_filename: &str) -> (r: FileTarget)
        ensures
            r.cache_dir@ == cache_dir@,
            r.local_filename@ == local_filename@,
    {
        FileTarget { cache_dir: String::from_str(cache_dir), local_filename: String::from_str(local_filename) }
    }

    /// The full path of the file.
    pub fn filename(&self) -> (r: String)
        ensures
            r@ == joined(self.cache_dir@, self.local_filename@),
    {
        join_path(self.cache_dir.as_str(), self.local_filename.as_str())
    }
}

impl Target for FileTarget {
    open spec fn location(&self) -> Option<Seq<char>> {
        Some(joined(self.cache_dir@, self.local_filename@))
    }

    fn address(&self) -> (r: Option<String>) {
        Some(self.filename())
    }
}

/// A target stored as a file whose name carries a date in front:
/// `<cache_dir>/YYYYMMDD_<local_filename>`.
#[derive(Debug, PartialEq, Eq)]
pub struct DatedFileTarget {
    file_target: FileTarget,
    date: Date,
}

impl DatedFileTarget {
    pub fn new(cache_dir: &str, local_filename: &str, date: Date) -> (r: DatedFileTarget)
        ensures
            r.spec_dir() == cache_dir@,
            r.spec_local_filename() == local_filename@,
            r.spec_date() == date,
    {
        DatedFileTarget { file_target: FileTarget::new(cache_dir, local_filename), date }
    }

    pub closed spec fn spec_dir(&self) -> Seq<char> {
        self.file_target.cache_dir@
    }

    pub closed spec fn spec_local_filename(&self) -> Seq<char> {
        self.file_target.local_filename@
    }

    pub closed spec fn spec_date(&self) -> Date {
        self.date
    }

    pub open spec fn spec_filename(&self) -> Seq<char> {
        joined(self.spec_dir(), self.spec_date().spec_stamp() + seq!['_'] + self.spec_local_filename())
    }

    /// The full path of the dated file.
    pub fn filename(&self) -> (r: String)
        ensures
            r@ == self.spec_filename(),
            0 <= self.spec_date().spec_year() <= 9999 ==> r@ == joined(
                self.spec_dir(),
                fixed_digits(self.spec_date().spec_year(), 4) + fixed_digits(self.spec_date().spec_month(), 2)
                    + fixed_digits(self.spec_date().spec_day(), 2) + seq!['_'] + self.spec_local_filename(),
            ),
    {
        proof {
            reveal_strlit("_");
        }
        let local = self.date.stamp().concat("_").concat(self.file_target.local_filename.as_str());
        join_path(self.file_target.cache_dir.as_str(), local.as_str())
    }
}

impl Target for DatedFileTarget {
    open spec fn location(&self) -> Option<Seq<char>> {
        Some(self.spec_filename())
    }

    fn address(&self) -> (r: Option<String>) {
        Some(self.filename())
    }
}

/// One of the library's targets, for tasks whose outputs go to targets of
/// different kinds.
#[derive(Debug, PartialEq, Eq)]
pub enum AnyTarget {
    Null(NullTarget),
    File(FileTarget),
    Dated(DatedFileTarget),
}

impl Target for AnyTarget {
    open spec fn location(&self) -> Option<Seq<char>> {
        match self {
            AnyTarget::Null(t) => t.location(),
            AnyTarget::File(t) => t.location(),
            AnyTarget::Dated(t) => t.location(),
        }
    }

    fn address(&self) -> (r: Option<String>) {
        match self {
            AnyTarget::Null(t) => t.address(),
            AnyTarget::File(t) => t.address(),
            AnyTarget::Dated(t) => t.address(),
        }
    }
}

} // verus!
