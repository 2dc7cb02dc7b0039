use vstd::prelude::*;
use vstd::string::StringExecFns;

verus! {

/// The block size requested of a backend when the caller requests none: 1 GiB.
pub const DEFAULT_BLOCK_SIZE: u64 = 1 * 1024 * 1024 * 1024;

/// The alignment of the buffers of backends that bypass the page cache.
pub const DEFAULT_ALIGNMENT: usize = 4096;

#[verifier::external_type_specification]
#[verifier::external_body]
pub struct ExIoError(std::io::Error);

/// std's text for an I/O error (`ToString::to_string` through its `Display`); what the text
/// says depends on the error and the platform, and nothing is stated of it.
#[verifier::external_body]
fn io_error_text(e: &std::io::Error) -> String {
    e.to_string()
}

/// How a file is going to be accessed: sequentially, at random, both, or not said.
#[derive(Debug, PartialEq, Eq, Clone, Copy, Structural)]
pub enum AccessPattern {
    Sequential,
    Rand,
    RandSeq,
    Unspecified,
}

/// Information common to backends: the length of the open file, the backend's block size, and
/// how far into the file the last read went.
#[derive(Debug, PartialEq, Eq, Clone, Copy, Structural)]
pub struct BackendInfo {
    pub file_len: u64,
    pub block_size: u64,
    pub cursor: u64,
}

/// An error of a backend.
#[derive(Debug)]
pub enum BackendError {
    IoError(std::io::Error),
    RegionOutsideFileBounds,
    ZeroRangeSpecified,
    ThreadSendRecvError(String),
    UnsupportedOperation,
}

impl BackendError {
    /// A description of the error.
    pub fn to_string(&self) -> (s: String)
        ensures
            match self {
                BackendError::IoError(_) => s@.len() >= 11 && s@.subrange(0, 11) == "I/O error: "@,
                BackendError::RegionOutsideFileBounds => s@ == "Specified region outside of file bounds"@,
                BackendError::ZeroRangeSpecified => s@ == "Attempting to read zero bytes is an error"@,
                BackendError::ThreadSendRecvError(e) => s@ == "Failed to communicate with other thread: "@
                    + e@,
                BackendError::UnsupportedOperation => s@ == "Operation is unsupported by this backend"@,
            },
    {
        match self {
            BackendError::IoError(e) => {
                let s = "I/O error: ".to_owned().concat(io_error_text(e).as_str());
                proof {
                    reveal_strlit("I/O error: ");
                }
                assert(s@.subrange(0, 11) =~= "I/O error: "@);
                s
            },
            BackendError::RegionOutsideFileBounds => "Specified region outside of file bounds".to_owned(),
            BackendError::ZeroRangeSpecified => "Attempting to read zero bytes is an error".to_owned(),
            BackendError::ThreadSendRecvError(e_str) => "Failed to communicate with other thread: ".to_owned().concat(
                e_str.as_str(),
            ),
            BackendError::UnsupportedOperation => "Operation is unsupported by this backend".to_owned(),
        }
    }
}

/// An error of the I/O manager: one its backend gave, or an operation it cannot carry out.
#[derive(Debug)]
pub enum IoManagerError {
    BackendError(BackendError),
    InvalidOperation(String),
}

impl IoManagerError {
    /// A description of the error.
    pub fn to_string(&self) -> (s: String)
        ensures
            match self {
                IoManagerError::BackendError(e) => s@.len() >= 15 && s@.subrange(0, 15) == "Backend error: "@,
                IoManagerError::InvalidOperation(msg) => s@ == "Invalid operation: "@ + msg@,
            },
    {
        match self {
            IoManagerError::BackendError(e) => {
                let s = "Backend error: ".to_owned().concat(e.to_string().as_str());
                proof {
                    reveal_strlit("Backend error: ");
                }
                assert(s@.subrange(0, 15) =~= "Backend error: "@);
                s
            },
            IoManagerError::InvalidOperation(msg) => "Invalid operation: ".to_owned().concat(msg.as_str()),
        }
    }
}

/// The result is the error of an operation the manager cannot carry out, with the message `msg`.
pub open spec fn invalid_op<R>(r: Result<R, IoManagerError>, msg: Seq<char>) -> bool {
    r matches Err(IoManagerError::InvalidOperation(m)) && m@ == msg
}

/// The bytes of an optional block, by their view.
pub open spec fn opt_bytes(x: Option<&[u8]>) -> Option<Seq<u8>> {
    match x {
        Some(b) => Some(b@),
        None => None,
    }
}

/// The end of a region cut back to the end of a file of length `len`.
pub open spec fn cut_end(end: u64, len: u64) -> u64 {
    if end > len {
        len
    } else {
        end
    }
}

/// A backend that gives access to one open file.
///
/// The spec functions of the backend traits say what a backend hands over and keeps; an
/// implementation may narrow them, and by default they allow anything. The contracts of the
/// methods are owed by implementations to their callers.
pub trait IoBackend {
    /// Whether the backend may report `i` about its open file.
    closed spec fn reports(&self, i: BackendInfo) -> bool {
        true
    }

    /// Information about the open file: a report the backend may give.
    fn backend_info(&self) -> (r: BackendInfo)
        ensures
            self.reports(r),
    ;
}

/// A backend that reads and writes its file in order.
pub trait SeqIoBackend: IoBackend {
    /// Whether `block` (None at the end of the file) may be the next block the backend reads.
    closed spec fn next_block(&self, block: Option<Seq<u8>>) -> bool {
        true
    }

    /// Whether the backend holds `data` as written at its cursor.
    closed spec fn wrote_next(&self, data: Seq<u8>) -> bool {
        true
    }

    /// Reads the next block of the file and hands it to `f` (None at the end of the file),
    /// returning what `f` returns, or an error: a value it returns is one that `f` gave back
    /// on the next block.
    fn read_next<R, F: FnOnce(Option<&[u8]>) -> R>(&mut self, f: F) -> (r: Result<R, BackendError>)
        ensures
            r matches Ok(v) ==> exists|x: Option<&[u8]>|
                old(self).next_block(opt_bytes(x)) && call_ensures(f, (x,), v),
    ;

    /// Writes the data at the cursor, extending the file where needed.
    fn write_next(&mut self, data: &[u8]) -> (r: Result<(), BackendError>)
        ensures
            r is Ok ==> final(self).wrote_next(data@),
    ;
}

/// A backend that reads and writes its file at any position.
pub trait RandIoBackend: IoBackend {
    /// Whether `bytes` may be what the backend reads as the region from `start` to `end`.
    closed spec fn region(&self, start: u64, end: u64, bytes: Seq<u8>) -> bool {
        true
    }

    /// Whether the backend holds `data` as written at `start` (cut to fit within the file).
    closed spec fn wrote_region(&self, start: u64, data: Seq<u8>) -> bool {
        true
    }

    /// Reads the bytes from `start` to `end` of the file and hands them to `f`, returning what
    /// `f` returns; a region partly or wholly outside the file, or one the backend cannot hand
    /// over at once, is an error. A value it returns is one that `f` gave back on that region.
    fn read_region<R, F: FnOnce(&[u8]) -> R>(&mut self, start: u64, end: u64, f: F) -> (r: Result<
        R,
        BackendError,
    >)
        ensures
            r matches Ok(v) ==> exists|x: &[u8]| old(self).region(start, end, x@) && call_ensures(f, (x,), v),
    ;

    /// Reads the region as `read_region` does, first cutting its end back to the end of the
    /// file that the backend reports.
    fn read_region_truncated<R, F: FnOnce(&[u8]) -> R>(
        &mut self,
        start: u64,
        end: u64,
        f: F,
    ) -> (r: Result<R, BackendError>)
        ensures
            r matches Ok(v) ==> exists|x: &[u8], i: BackendInfo|
                old(self).reports(i) && old(self).region(start, cut_end(end, i.file_len), x@)
                    && call_ensures(f, (x,), v),
    {
        let ghost fg = f;
        let info = self.backend_info();
        let cut = if end > info.file_len {
            info.file_len
        } else {
            end
        };
        assert(cut == cut_end(end, info.file_len));
        let r = self.read_region(start, cut, f);
        proof {
            if r is Ok {
                let v = r->Ok_0;
                let x = choose|x: &[u8]| old(self).region(start, cut, x@) && call_ensures(fg, (x,), v);
                assert(old(self).reports(info) && old(self).region(start, cut_end(end, info.file_len), x@)
                    && call_ensures(fg, (x,), v));
            }
        }
        r
    }

    /// Writes the data at `start`, cut to fit within the file.
    fn write_region(&mut self, start: u64, data: &[u8]) -> (r: Result<(), BackendError>)
        ensures
            r is Ok ==> final(self).wrote_region(start, data@),
    ;
}

/// A backend that gives both kinds of access.
pub trait RandSeqIoBackend: RandIoBackend + SeqIoBackend {

}

impl<T: RandIoBackend + SeqIoBackend> RandSeqIoBackend for T {

}

/// A backend, with the kinds of access the manager may use it for.
pub enum GenIoBackend<B> {
    Rand(B),
    Sequential(B),
    RandSeq(B),
}

/// A backend for an open file, and whether the file was opened for reading and for writing.
pub struct IoWorker<B> {
    backend: GenIoBackend<B>,
    read: bool,
    write: bool,
}

impl<B> IoWorker<B> {
    /// The worker for a backend.
    pub closed spec fn spec_new(backend: GenIoBackend<B>, read: bool, write: bool) -> Self {
        IoWorker { backend, read, write }
    }

    /// Whether the file was opened for reading.
    pub closed spec fn can_read(&self) -> bool {
        self.read
    }

    /// Whether the file was opened for writing.
    pub closed spec fn can_write(&self) -> bool {
        self.write
    }

    /// Whether the backend may be used for sequential access.
    pub closed spec fn sequential(&self) -> bool {
        !(self.backend is Rand)
    }

    /// Whether the backend may be used for random access.
    pub closed spec fn random(&self) -> bool {
        !(self.backend is Sequential)
    }

    /// The worker has the same mode and kind of access as `other`.
    pub closed spec fn same_access(&self, other: Self) -> bool {
        &&& self.read == other.read
        &&& self.write == other.write
        &&& self.sequential() == other.sequential()
        &&& self.random() == other.random()
    }

    /// The worker's backend, with the kinds of access it is used for.
    pub closed spec fn backend(&self) -> GenIoBackend<B> {
        self.backend
    }

    /// A new worker has the backend, mode and kinds of access it was made with.
    pub proof fn lemma_spec_new(backend: GenIoBackend<B>, read: bool, write: bool)
        ensures
            Self::spec_new(backend, read, write).backend() == backend,
            Self::spec_new(backend, read, write).can_read() == read,
            Self::spec_new(backend, read, write).can_write() == write,
            Self::spec_new(backend, read, write).sequential() == !(backend is Rand),
            Self::spec_new(backend, read, write).random() == !(backend is Sequential),
    {
    }

    /// Two workers have the same access when they agree on mode and kinds of access.
    pub proof fn lemma_same_access(&self, other: Self)
        ensures
            self.same_access(other) <==> (self.can_read() == other.can_read() && self.can_write()
                == other.can_write() && self.sequential() == other.sequential() && self.random()
                == other.random()),
    {
    }
}

/// The backend itself, whatever kinds of access it is used for.
pub open spec fn inner<B>(g: GenIoBackend<B>) -> B {
    match g {
        GenIoBackend::Rand(b) => b,
        GenIoBackend::Sequential(b) => b,
        GenIoBackend::RandSeq(b) => b,
    }
}

impl<B: RandSeqIoBackend> IoWorker<B> {
    /// Information about the open file, from the backend: a report the backend may give.
    pub fn backend_info(&self) -> (r: BackendInfo)
        ensures
            inner(self.backend()).reports(r),
    {
        match &self.backend {
            GenIoBackend::Rand(b) => b.backend_info(),
            GenIoBackend::Sequential(b) => b.backend_info(),
            GenIoBackend::RandSeq(b) => b.backend_info(),
        }
    }
}

/// Which backend `open` has constructed: a buffered sequential reader, a direct reader and
/// writer, or a memory map.
#[derive(Debug, PartialEq, Eq, Clone, Copy, Structural)]
pub enum BackendChoice {
    FileBuf,
    Direct,
    Mmap,
}

/// The backend chosen for a file opened with the given access: for sequential access, the
/// buffered reader when only reading and the direct backend otherwise; for random access, the
/// memory map; otherwise the direct backend, for both kinds of access. Also the access pattern
/// the backend is opened with.
pub open spec fn spec_choice(read: bool, write: bool, ap: AccessPattern) -> (BackendChoice, AccessPattern) {
    match ap {
        AccessPattern::Sequential => if read && !write {
            (BackendChoice::FileBuf, AccessPattern::Sequential)
        } else {
            (BackendChoice::Direct, AccessPattern::Sequential)
        },
        AccessPattern::Rand => (BackendChoice::Mmap, AccessPattern::Rand),
        _ => (BackendChoice::Direct, AccessPattern::RandSeq),
    }
}

/// The block size requested of a backend: the one given, or the default.
pub open spec fn requested_block_size(req: Option<u64>) -> u64 {
    match req {
        Some(b) => b,
        None => DEFAULT_BLOCK_SIZE,
    }
}

/// The kinds of access the backend chosen for `ap` is used for.
pub open spec fn spec_wrap<B>(ap: AccessPattern, b: B) -> GenIoBackend<B> {
    match ap {
        AccessPattern::Sequential => GenIoBackend::Sequential(b),
        AccessPattern::Rand => GenIoBackend::Rand(b),
        _ => GenIoBackend::RandSeq(b),
    }
}

/// The entry at `j` is for the file at path `p`.
pub open spec fn key_at<B>(es: Seq<(String, IoWorker<B>)>, p: Seq<char>, j: int) -> bool {
    0 <= j < es.len() && es[j].0@ == p
}

/// No two entries are for the same path.
pub open spec fn distinct_keys<B>(es: Seq<(String, IoWorker<B>)>) -> bool {
    forall|i: int, j: int| 0 <= i < j < es.len() ==> es[i].0@ != es[j].0@
}

/// The workers of the entries, by path.
pub open spec fn entries_map<B>(es: Seq<(String, IoWorker<B>)>) -> Map<Seq<char>, IoWorker<B>> {
    Map::new(|p: Seq<char>| exists|j: int| key_at(es, p, j), |p: Seq<char>| es[choose|j: int| key_at(es, p, j)].1)
}

proof fn lemma_entry<B>(es: Seq<(String, IoWorker<B>)>, p: Seq<char>, j: int)
    requires
        distinct_keys(es),
        key_at(es, p, j),
    ensures
        entries_map(es).contains_key(p),
        entries_map(es)[p] == es[j].1,
{
    let c = choose|j: int| key_at(es, p, j);
    assert(key_at(es, p, c));
    if c != j {
        if c < j {
            assert(es[c].0@ != es[j].0@);
        } else {
            assert(es[j].0@ != es[c].0@);
        }
    }
}

proof fn lemma_update_entry<B>(es: Seq<(String, IoWorker<B>)>, j: int, x: (String, IoWorker<B>))
    requires
        distinct_keys(es),
        0 <= j < es.len(),
        x.0@ == es[j].0@,
    ensures
        distinct_keys(es.update(j, x)),
        entries_map(es.update(j, x)) == entries_map(es).insert(x.0@, x.1),
{
    let es2 = es.update(j, x);
    let p0 = x.0@;
    assert(distinct_keys(es2)) by {
        assert forall|a: int, b: int| 0 <= a < b < es2.len() implies es2[a].0@ != es2[b].0@ by {
            assert(es2[a].0@ == es[a].0@ && es2[b].0@ == es[b].0@);
        }
    }
    assert forall|p: Seq<char>| #[trigger] entries_map(es2).contains_key(p) == entries_map(es).insert(p0, x.1).contains_key(p) by {
        if p == p0 {
            assert(key_at(es2, p, j));
        } else if exists|q: int| key_at(es, p, q) {
            let q = choose|q: int| key_at(es, p, q);
            assert(key_at(es2, p, q));
        } else if exists|q: int| key_at(es2, p, q) {
            let q = choose|q: int| key_at(es2, p, q);
            assert(key_at(es, p, q));
        }
    }
    assert forall|p: Seq<char>| #[trigger] entries_map(es2).contains_key(p) implies entries_map(es2)[p] == entries_map(es).insert(p0, x.1)[p] by {
        if p == p0 {
            lemma_entry(es2, p, j);
        } else {
            let q = choose|q: int| key_at(es2, p, q);
            assert(key_at(es, p, q));
            lemma_entry(es2, p, q);
            lemma_entry(es, p, q);
        }
    }
    assert(entries_map(es2) =~= entries_map(es).insert(p0, x.1));
}

proof fn lemma_push_entry<B>(es: Seq<(String, IoWorker<B>)>, x: (String, IoWorker<B>))
    requires
        distinct_keys(es),
        forall|j: int| !key_at(es, x.0@, j),
    ensures
        distinct_keys(es.push(x)),
        entries_map(es.push(x)) == entries_map(es).insert(x.0@, x.1),
{
    let es2 = es.push(x);
    let p0 = x.0@;
    assert(distinct_keys(es2)) by {
        assert forall|a: int, b: int| 0 <= a < b < es2.len() implies es2[a].0@ != es2[b].0@ by {
            if b == es.len() {
                assert(!key_at(es, p0, a));
            } else {
                assert(es2[a] == es[a] && es2[b] == es[b]);
            }
        }
    }
    assert forall|p: Seq<char>| #[trigger] entries_map(es2).contains_key(p) == entries_map(es).insert(p0, x.1).contains_key(p) by {
        if p == p0 {
            assert(key_at(es2, p, es.len() as int));
        } else if exists|q: int| key_at(es, p, q) {
            let q = choose|q: int| key_at(es, p, q);
            assert(key_at(es2, p, q));
        } else if exists|q: int| key_at(es2, p, q) {
            let q = choose|q: int| key_at(es2, p, q);
            assert(key_at(es, p, q));
        }
    }
    assert forall|p: Seq<char>| #[trigger] entries_map(es2).contains_key(p) implies entries_map(es2)[p] == entries_map(es).insert(p0, x.1)[p] by {
        if p == p0 {
            lemma_entry(es2, p, es.len() as int);
        } else {
            let q = choose|q: int| key_at(es2, p, q);
            assert(key_at(es, p, q));
            lemma_entry(es2, p, q);
            lemma_entry(es, p, q);
        }
    }
    assert(entries_map(es2) =~= entries_map(es).insert(p0, x.1));
}

proof fn lemma_remove_entry<B>(es: Seq<(String, IoWorker<B>)>, j: int)
    requires
        distinct_keys(es),
        0 <= j < es.len(),
    ensures
        distinct_keys(es.remove(j)),
        entries_map(es.remove(j)) == entries_map(es).remove(es[j].0@),
{
    let es2 = es.remove(j);
    let p0 = es[j].0@;
    assert forall|a: int| 0 <= a < es2.len() implies #[trigger] es2[a] == (if a < j {
        es[a]
    } else {
        es[a + 1]
    }) by {}
    assert(distinct_keys(es2)) by {
        assert forall|a: int, b: int| 0 <= a < b < es2.len() implies es2[a].0@ != es2[b].0@ by {
            let a1 = if a < j { a } else { a + 1 };
            let b1 = if b < j { b } else { b + 1 };
            assert(es2[a] == es[a1] && es2[b] == es[b1]);
        }
    }
    assert forall|p: Seq<char>| #[trigger] entries_map(es2).contains_key(p) == entries_map(es).remove(p0).contains_key(p) by {
        if exists|q: int| key_at(es2, p, q) {
            let q = choose|q: int| key_at(es2, p, q);
            let q1 = if q < j { q } else { q + 1 };
            assert(key_at(es, p, q1));
            assert(q1 != j);
        } else if p != p0 && exists|q: int| key_at(es, p, q) {
            let q = choose|q: int| key_at(es, p, q);
            assert(q != j);
            let q2 = if q < j { q } else { q - 1 };
            assert(es2[q2] == es[q]);
            assert(key_at(es2, p, q2));
        }
    }
    assert forall|p: Seq<char>| #[trigger] entries_map(es2).contains_key(p) implies entries_map(es2)[p] == entries_map(es).remove(p0)[p] by {
        let q = choose|q: int| key_at(es2, p, q);
        let q1 = if q < j { q } else { q + 1 };
        assert(es2[q] == es[q1]);
        assert(key_at(es, p, q1));
        lemma_entry(es2, p, q);
        lemma_entry(es, p, q1);
    }
    assert(entries_map(es2) =~= entries_map(es).remove(p0));
}

/// Keeps the open files, each with the backend that reads and writes it, and hands each read or
/// write to the backend of its file, where the file was opened for it and the backend gives that
/// kind of access.
pub struct IoManager<B> {
    io_backends: Vec<(String, IoWorker<B>)>,
}

/// Reads the next block with a backend, handing it to `f`; a backend error is wrapped.
fn seq_read<B: SeqIoBackend, R, F: FnOnce(Option<&[u8]>) -> R>(b: &mut B, f: F) -> (r: Result<R, IoManagerError>)
    ensures
        r matches Ok(v) ==> exists|x: Option<&[u8]>| old(b).next_block(opt_bytes(x)) && call_ensures(f, (x,), v),
        r is Err ==> r matches Err(IoManagerError::BackendError(_)),
{
    match b.read_next(f) {
        Ok(v) => {
            let r = Ok(v);
            assert(r->Ok_0 == v);
            r
        },
        Err(e) => Err(IoManagerError::BackendError(e)),
    }
}

/// Reads a region with a backend (its end cut back to the end of the file), handing it to `f`;
/// a backend error is wrapped.
fn rand_read<B: RandIoBackend, R, F: FnOnce(&[u8]) -> R>(b: &mut B, start: u64, end: u64, f: F) -> (r: Result<
    R,
    IoManagerError,
>)
    ensures
        r matches Ok(v) ==> exists|x: &[u8], i: BackendInfo| old(b).reports(i) && old(b).region(
            start,
            cut_end(end, i.file_len),
            x@,
        ) && call_ensures(f, (x,), v),
        r is Err ==> r matches Err(IoManagerError::BackendError(_)),
{
    match b.read_region_truncated(start, end, f) {
        Ok(v) => {
            let r = Ok(v);
            assert(r->Ok_0 == v);
            r
        },
        Err(e) => Err(IoManagerError::BackendError(e)),
    }
}

impl<B: RandSeqIoBackend> IoManager<B> {
    /// No two entries are for the same file.
    pub closed spec fn wf(&self) -> bool {
        distinct_keys(self.io_backends@)
    }

    /// The open files and their workers.
    pub closed spec fn workers(&self) -> Map<Seq<char>, IoWorker<B>> {
        entries_map(self.io_backends@)
    }

    /// A manager with no open file.
    pub fn new() -> (m: Self)
        ensures
            m.wf(),
            m.workers() == Map::<Seq<char>, IoWorker<B>>::empty(),
    {
        let m = IoManager { io_backends: Vec::new() };
        assert(m.workers() =~= Map::<Seq<char>, IoWorker<B>>::empty());
        m
    }

    /// The position of the entry for `key`.
    fn position(&self, key: &String) -> (r: Option<usize>)
        ensures
            match r {
                Some(j) => key_at(self.io_backends@, key@, j as int),
                None => forall|j: int| !key_at(self.io_backends@, key@, j),
            },
    {
        let mut j: usize = 0;
        while j < self.io_backends.len()
            invariant
                j <= self.io_backends@.len(),
                forall|q: int| 0 <= q < j ==> !key_at(self.io_backends@, key@, q),
            decreases self.io_backends@.len() - j,
        {
            if self.io_backends[j].0 == *key {
                return Some(j);
            }
            j += 1;
        }
        None
    }

    /// Adds an already constructed backend for the file at `path`, opened for reading and for
    /// writing as `read` and `write` say, in place of any backend the file had.
    pub fn open_with(&mut self, path: &str, read: bool, write: bool, io_backend: GenIoBackend<B>)
        requires
            old(self).wf(),
        ensures
            final(self).wf(),
            final(self).workers() == old(self).workers().insert(
                path@,
                IoWorker::spec_new(io_backend, read, write),
            ),
    {
        let key = path.to_owned();
        let worker = IoWorker { backend: io_backend, read, write };
        let ghost es = self.io_backends@;
        match self.position(&key) {
            Some(j) => {
                self.io_backends.set(j, (key, worker));
                proof {
                    lemma_update_entry(es, j as int, (key, worker));
                }
            },
            None => {
                self.io_backends.push((key, worker));
                proof {
                    lemma_push_entry(es, (key, worker));
                }
            },
        }
    }

    /// Closes the file at `path`, dropping its backend.
    pub fn close(&mut self, path: &str)
        requires
            old(self).wf(),
        ensures
            final(self).wf(),
            final(self).workers() == old(self).workers().remove(path@),
    {
        let key = path.to_owned();
        let ghost es = self.io_backends@;
        match self.position(&key) {
            Some(j) => {
                self.io_backends.remove(j);
                proof {
                    lemma_remove_entry(es, j as int);
                }
            },
            None => {
                assert(self.workers() =~= old(self).workers().remove(path@));
            },
        }
    }

    /// Information about the open file at `path` from its backend (a report that backend may
    /// give), or None if it is not open.
    pub fn backend_info(&self, path: &str) -> (r: Option<BackendInfo>)
        requires
            self.wf(),
        ensures
            r is Some <==> self.workers().contains_key(path@),
            r matches Some(i) ==> inner(self.workers()[path@].backend()).reports(i),
    {
        let key = path.to_owned();
        match self.position(&key) {
            Some(j) => {
                proof {
                    lemma_entry(self.io_backends@, path@, j as int);
                }
                Some(self.io_backends[j].1.backend_info())
            },
            None => None,
        }
    }

    /// Reads the next block of the file at `path` with its backend, handing it to `f` (None at
    /// the end of the file) and returning what `f` returns. An error where the file is not open,
    /// was not opened for reading, or has a backend without sequential access; otherwise the
    /// backend's error, if it gives one. The file keeps its mode and kind of access.
    pub fn read_next<R, F: FnOnce(Option<&[u8]>) -> R>(&mut self, path: &str, f: F) -> (r: Result<
        R,
        IoManagerError,
    >)
        requires
            old(self).wf(),
        ensures
            final(self).wf(),
            r matches Err(IoManagerError::InvalidOperation(_)) ==> final(self).workers() == old(self).workers(),
            r matches Ok(v) ==> exists|x: Option<&[u8]>| call_ensures(f, (x,), v),
            !old(self).workers().contains_key(path@) ==> final(self).workers() == old(self).workers()
                && invalid_op(r, "File has not been opened"@),
            old(self).workers().contains_key(path@) ==> {
                let w = old(self).workers()[path@];
                &&& final(self).workers() == old(self).workers().insert(path@, final(self).workers()[path@])
                &&& final(self).workers()[path@].same_access(w)
                &&& !w.can_read() ==> invalid_op(r, "File not opened in read mode"@)
                &&& w.can_read() && !w.sequential() ==> invalid_op(
                    r,
                    "I/O backend does not support tracked sequential access"@,
                )
                &&& w.can_read() && w.sequential() ==> r is Ok || (r matches Err(IoManagerError::BackendError(_)))
                &&& r is Ok ==> exists|x: Option<&[u8]>| inner(w.backend()).next_block(opt_bytes(x))
                    && call_ensures(f, (x,), r->Ok_0)
            },
    {
        let key = path.to_owned();
        let ghost es = self.io_backends@;
        match self.position(&key) {
            None => Err(IoManagerError::InvalidOperation("File has not been opened".to_owned())),
            Some(j) => {
                proof {
                    lemma_entry(es, path@, j as int);
                }
                let (k, mut worker) = self.io_backends.remove(j);
                let ghost w0 = worker;
                let r = if !worker.read {
                    Err(IoManagerError::InvalidOperation("File not opened in read mode".to_owned()))
                } else {
                    match &mut worker.backend {
                        GenIoBackend::Sequential(b) => seq_read(b, f),
                        GenIoBackend::RandSeq(b) => seq_read(b, f),
                        GenIoBackend::Rand(_) => Err(
                            IoManagerError::InvalidOperation(
                                "I/O backend does not support tracked sequential access".to_owned(),
                            ),
                        ),
                    }
                };
                proof {
                    if r matches Err(IoManagerError::InvalidOperation(_)) {
                        assert(worker == w0);
                    }
                }
                assert(worker.same_access(w0));
                self.io_backends.insert(j, (k, worker));
                proof {
                    assert(self.io_backends@ =~= es.update(j as int, (k, worker)));
                    lemma_update_entry(es, j as int, (k, worker));
                    lemma_entry(self.io_backends@, path@, j as int);
                    if r matches Err(IoManagerError::InvalidOperation(_)) {
                        assert(self.workers() =~= old(self).workers());
                    }
                }
                r
            },
        }
    }

    /// Reads the bytes from `start` to `end` of the file at `path` (the end cut back to the end
    /// of the file) with its backend, handing them to `f` and returning what `f` returns. An
    /// error where the file is not open, was not opened for reading, or has a backend without
    /// random access; otherwise the backend's error, if it gives one (a region wholly outside the
    /// file among them). The file keeps its mode and kind of access.
    pub fn read_region<R, F: FnOnce(&[u8]) -> R>(&mut self, path: &str, start: u64, end: u64, f: F) -> (r: Result<R, IoManagerError>)
        requires
            old(self).wf(),
        ensures
            final(self).wf(),
            r matches Err(IoManagerError::InvalidOperation(_)) ==> final(self).workers() == old(self).workers(),
            r matches Ok(v) ==> exists|x: &[u8]| call_ensures(f, (x,), v),
            !old(self).workers().contains_key(path@) ==> final(self).workers() == old(self).workers()
                && invalid_op(r, "File has not been opened"@),
            old(self).workers().contains_key(path@) ==> {
                let w = old(self).workers()[path@];
                &&& final(self).workers() == old(self).workers().insert(path@, final(self).workers()[path@])
                &&& final(self).workers()[path@].same_access(w)
                &&& !w.can_read() ==> invalid_op(r, "File not opened in read mode"@)
                &&& w.can_read() && !w.random() ==> invalid_op(r, "I/O backend does not support random access"@)
                &&& w.can_read() && w.random() ==> r is Ok || (r matches Err(IoManagerError::BackendError(_)))
                &&& r is Ok ==> exists|x: &[u8], i: BackendInfo| inner(w.backend()).reports(i)
                    && inner(w.backend()).region(start, cut_end(end, i.file_len), x@) && call_ensures(
                    f,
                    (x,),
                    r->Ok_0,
                )
            },
    {
        let key = path.to_owned();
        let ghost es = self.io_backends@;
        match self.position(&key) {
            None => Err(IoManagerError::InvalidOperation("File has not been opened".to_owned())),
            Some(j) => {
                proof {
                    lemma_entry(es, path@, j as int);
                }
                let (k, mut worker) = self.io_backends.remove(j);
                let ghost w0 = worker;
                let ghost fg = f;
                let r = if !worker.read {
                    Err(IoManagerError::InvalidOperation("File not opened in read mode".to_owned()))
                } else {
                    match &mut worker.backend {
                        GenIoBackend::RandSeq(b) => rand_read(b, start, end, f),
                        GenIoBackend::Rand(b) => rand_read(b, start, end, f),
                        GenIoBackend::Sequential(_) => Err(
                            IoManagerError::InvalidOperation("I/O backend does not support random access".to_owned()),
                        ),
                    }
                };
                proof {
                    if r is Ok {
                        let v = r->Ok_0;
                        let ib = inner(w0.backend());
                        let (x, i) = choose|x: &[u8], i: BackendInfo| ib.reports(i) && ib.region(
                            start,
                            cut_end(end, i.file_len),
                            x@,
                        ) && call_ensures(fg, (x,), v);
                        assert(ib.reports(i) && ib.region(start, cut_end(end, i.file_len), x@) && call_ensures(fg, (x,), v));
                    }
                }
                proof {
                    if r matches Err(IoManagerError::InvalidOperation(_)) {
                        assert(worker == w0);
                    }
                }
                assert(worker.same_access(w0));
                self.io_backends.insert(j, (k, worker));
                proof {
                    assert(self.io_backends@ =~= es.update(j as int, (k, worker)));
                    lemma_update_entry(es, j as int, (k, worker));
                    lemma_entry(self.io_backends@, path@, j as int);
                    if r matches Err(IoManagerError::InvalidOperation(_)) {
                        assert(self.workers() =~= old(self).workers());
                    }
                }
                r
            },
        }
    }

    /// Writes the data at the cursor of the file at `path` with its backend, extending the file
    /// where needed. An error where the file is not open, was not opened for writing, or has a
    /// backend without sequential access; otherwise the backend's error, if it gives one. The
    /// file keeps its mode and kind of access.
    pub fn write_next(&mut self, path: &str, data: &[u8]) -> (r: Result<(), IoManagerError>)
        requires
            old(self).wf(),
        ensures
            final(self).wf(),
            r matches Err(IoManagerError::InvalidOperation(_)) ==> final(self).workers() == old(self).workers(),
            !old(self).workers().contains_key(path@) ==> final(self).workers() == old(self).workers()
                && invalid_op(r, "File has not been opened"@),
            old(self).workers().contains_key(path@) ==> {
                let w = old(self).workers()[path@];
                &&& final(self).workers() == old(self).workers().insert(path@, final(self).workers()[path@])
                &&& final(self).workers()[path@].same_access(w)
                &&& !w.can_write() ==> invalid_op(r, "File not opened in write mode"@)
                &&& w.can_write() && !w.sequential() ==> invalid_op(r, "I/O backend does not support tracked sequential access"@)
                &&& w.can_write() && w.sequential() ==> r is Ok || (r matches Err(IoManagerError::BackendError(_)))
                &&& r is Ok ==> inner(final(self).workers()[path@].backend()).wrote_next(data@)
            },
    {
        let key = path.to_owned();
        let ghost es = self.io_backends@;
        match self.position(&key) {
            None => Err(IoManagerError::InvalidOperation("File has not been opened".to_owned())),
            Some(j) => {
                proof {
                    lemma_entry(es, path@, j as int);
                }
                let (k, mut worker) = self.io_backends.remove(j);
                let ghost w0 = worker;
                let r = if !worker.write {
                    Err(IoManagerError::InvalidOperation("File not opened in write mode".to_owned()))
                } else {
                    match &mut worker.backend {
                        GenIoBackend::Sequential(b) => match b.write_next(data) {
                            Ok(v) => Ok(v),
                            Err(e) => Err(IoManagerError::BackendError(e)),
                        },
                        GenIoBackend::RandSeq(b) => match b.write_next(data) {
                            Ok(v) => Ok(v),
                            Err(e) => Err(IoManagerError::BackendError(e)),
                        },
                        GenIoBackend::Rand(_) => Err(
                            IoManagerError::InvalidOperation("I/O backend does not support tracked sequential access".to_owned()),
                        ),
                    }
                };
                proof {
                    if r matches Err(IoManagerError::InvalidOperation(_)) {
                        assert(worker == w0);
                    }
                }
                assert(worker.same_access(w0));
                self.io_backends.insert(j, (k, worker));
                proof {
                    assert(self.io_backends@ =~= es.update(j as int, (k, worker)));
                    lemma_update_entry(es, j as int, (k, worker));
                    lemma_entry(self.io_backends@, path@, j as int);
                    if r matches Err(IoManagerError::InvalidOperation(_)) {
                        assert(self.workers() =~= old(self).workers());
                    }
                }
                r
            },
        }
    }

    /// Writes the data at position `start` of the file at `path` with its backend. An error
    /// where the file is not open, was not opened for writing, or has a backend without random
    /// access; otherwise the backend's error, if it gives one. The file keeps its mode and kind
    /// of access.
    pub fn write_region(&mut self, path: &str, start: u64, data: &[u8]) -> (r: Result<(), IoManagerError>)
        requires
            old(self).wf(),
        ensures
            final(self).wf(),
            r matches Err(IoManagerError::InvalidOperation(_)) ==> final(self).workers() == old(self).workers(),
            !old(self).workers().contains_key(path@) ==> final(self).workers() == old(self).workers()
                && invalid_op(r, "File has not been opened"@),
            old(self).workers().contains_key(path@) ==> {
                let w = old(self).workers()[path@];
                &&& final(self).workers() == old(self).workers().insert(path@, final(self).workers()[path@])
                &&& final(self).workers()[path@].same_access(w)
                &&& !w.can_write() ==> invalid_op(r, "File not opened in write mode"@)
                &&& w.can_write() && !w.random() ==> invalid_op(r, "I/O backend does not support random access"@)
                &&& w.can_write() && w.random() ==> r is Ok || (r matches Err(IoManagerError::BackendError(_)))
                &&& r is Ok ==> inner(final(self).workers()[path@].backend()).wrote_region(start, data@)
            },
    {
        let key = path.to_owned();
        let ghost es = self.io_backends@;
        match self.position(&key) {
            None => Err(IoManagerError::InvalidOperation("File has not been opened".to_owned())),
            Some(j) => {
                proof {
                    lemma_entry(es, path@, j as int);
                }
                let (k, mut worker) = self.io_backends.remove(j);
                let ghost w0 = worker;
                let r = if !worker.write {
                    Err(IoManagerError::InvalidOperation("File not opened in write mode".to_owned()))
                } else {
                    match &mut worker.backend {
                        GenIoBackend::RandSeq(b) => match b.write_region(start, data) {
                            Ok(v) => Ok(v),
                            Err(e) => Err(IoManagerError::BackendError(e)),
                        },
                        GenIoBackend::Rand(b) => match b.write_region(start, data) {
                            Ok(v) => Ok(v),
                            Err(e) => Err(IoManagerError::BackendError(e)),
                        },
                        GenIoBackend::Sequential(_) => Err(
                            IoManagerError::InvalidOperation("I/O backend does not support random access".to_owned()),
                        ),
                    }
                };
                proof {
                    if r matches Err(IoManagerError::InvalidOperation(_)) {
                        assert(worker == w0);
                    }
                }
                assert(worker.same_access(w0));
                self.io_backends.insert(j, (k, worker));
                proof {
                    assert(self.io_backends@ =~= es.update(j as int, (k, worker)));
                    lemma_update_entry(es, j as int, (k, worker));
                    lemma_entry(self.io_backends@, path@, j as int);
                    if r matches Err(IoManagerError::InvalidOperation(_)) {
                        assert(self.workers() =~= old(self).workers());
                    }
                }
                r
            },
        }
    }

    /// Opens the file at `path` for reading and for writing as `read` and `write` say, with the
    /// backend that suits the access pattern (see `spec_choice`), constructed by `make` with the
    /// requested block size (1 GiB if none is requested), and keeps it for the file. An error
    /// where the file is to be opened neither for reading nor for writing, or the backend's
    /// error where `make` gives one.
    pub fn open<F: FnOnce(BackendChoice, &str, bool, bool, AccessPattern, u64) -> Result<B, BackendError>>(
        &mut self,
        path: &str,
        read: bool,
        write: bool,
        access_pattern: AccessPattern,
        req_block_size: Option<u64>,
        make: F,
    ) -> (r: Result<(), IoManagerError>)
        requires
            old(self).wf(),
            read || write ==> call_requires(
                make,
                (
                    spec_choice(read, write, access_pattern).0,
                    path,
                    read,
                    write,
                    spec_choice(read, write, access_pattern).1,
                    requested_block_size(req_block_size),
                ),
            ),
        ensures
            final(self).wf(),
            !read && !write ==> final(self).workers() == old(self).workers() && invalid_op(
                r,
                "Cannot open a file in neither read or write mode"@,
            ),
            read || write ==> exists|res: Result<B, BackendError>|
                #[trigger] call_ensures(
                    make,
                    (
                        spec_choice(read, write, access_pattern).0,
                        path,
                        read,
                        write,
                        spec_choice(read, write, access_pattern).1,
                        requested_block_size(req_block_size),
                    ),
                    res,
                ) && match res {
                    Ok(b) => r is Ok && final(self).workers() == old(self).workers().insert(
                        path@,
                        IoWorker::spec_new(spec_wrap(access_pattern, b), read, write),
                    ),
                    Err(e) => r == Err::<(), IoManagerError>(IoManagerError::BackendError(e))
                        && final(self).workers() == old(self).workers(),
                },
    {
        if !read && !write {
            return Err(
                IoManagerError::InvalidOperation(
                    "Cannot open a file in neither read or write mode".to_owned(),
                ),
            );
        }
        let req_block_size = match req_block_size {
            Some(b) => b,
            None => DEFAULT_BLOCK_SIZE,
        };
        let (choice, pattern) = match access_pattern {
            AccessPattern::Sequential => if read && !write {
                (BackendChoice::FileBuf, AccessPattern::Sequential)
            } else {
                (BackendChoice::Direct, AccessPattern::Sequential)
            },
            AccessPattern::Rand => (BackendChoice::Mmap, AccessPattern::Rand),
            _ => (BackendChoice::Direct, AccessPattern::RandSeq),
        };
        match make(choice, path, read, write, pattern, req_block_size) {
            Err(e) => Err(IoManagerError::BackendError(e)),
            Ok(b) => {
                let backend = match access_pattern {
                    AccessPattern::Sequential => GenIoBackend::Sequential(b),
                    AccessPattern::Rand => GenIoBackend::Rand(b),
                    _ => GenIoBackend::RandSeq(b),
                };
                self.open_with(path, read, write, backend);
                Ok(())
            },
        }
    }
}

} // verus!
