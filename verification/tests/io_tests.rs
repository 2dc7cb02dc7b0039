use libsearchlight::io::{
    AccessPattern, BackendChoice, BackendError, BackendInfo, GenIoBackend, IoBackend, IoManager, IoManagerError,
    RandIoBackend, SeqIoBackend,
};

/// A backend over bytes in memory, reading `block` bytes at a time.
struct MemBackend {
    data: Vec<u8>,
    block: usize,
    cursor: usize,
}

impl MemBackend {
    fn new(data: &[u8], block: usize) -> Self {
        MemBackend { data: data.to_vec(), block, cursor: 0 }
    }
}

impl IoBackend for MemBackend {
    fn backend_info(&self) -> BackendInfo {
        BackendInfo { file_len: self.data.len() as u64, block_size: self.block as u64, cursor: self.cursor as u64 }
    }
}

impl SeqIoBackend for MemBackend {
    fn read_next<R, F: FnOnce(Option<&[u8]>) -> R>(&mut self, f: F) -> Result<R, BackendError> {
        let start = self.cursor;
        let end = (start + self.block).min(self.data.len());
        self.cursor = end;
        if start == end {
            Ok(f(None))
        } else {
            Ok(f(Some(&self.data[start..end])))
        }
    }

    fn write_next(&mut self, data: &[u8]) -> Result<(), BackendError> {
        self.data.extend_from_slice(data);
        Ok(())
    }
}

impl RandIoBackend for MemBackend {
    fn read_region<R, F: FnOnce(&[u8]) -> R>(&mut self, start: u64, end: u64, f: F) -> Result<R, BackendError> {
        if start >= end {
            return Err(BackendError::ZeroRangeSpecified);
        }
        if end as usize > self.data.len() {
            return Err(BackendError::RegionOutsideFileBounds);
        }
        Ok(f(&self.data[start as usize..end as usize]))
    }

    fn write_region(&mut self, start: u64, data: &[u8]) -> Result<(), BackendError> {
        for (i, b) in data.iter().enumerate() {
            if let Some(slot) = self.data.get_mut(start as usize + i) {
                *slot = *b;
            }
        }
        Ok(())
    }
}

const TEST_STR: &str = "The quick brown fox jumps over the lazy dog, twice over: the quick brown fox.";

fn invalid(e: IoManagerError) -> String {
    match e {
        IoManagerError::InvalidOperation(m) => m,
        IoManagerError::BackendError(b) => panic!("unexpected backend error: {}", b.to_string()),
    }
}

#[test]
fn io_manager_reads_a_file_block_by_block() {
    let mut ioman = IoManager::new();
    let path = "test_data/io_test.dat";
    let block_size = 10;
    ioman.open_with(path, true, false, GenIoBackend::Sequential(MemBackend::new(TEST_STR.as_bytes(), block_size)));

    let mut sb = String::new();
    loop {
        let eof = ioman
            .read_next(path, |next| match next {
                Some(block) => {
                    sb.push_str(std::str::from_utf8(block).unwrap());
                    false
                }
                None => true,
            })
            .unwrap();
        if eof {
            break;
        }
    }
    assert_eq!(sb, TEST_STR);
    assert_eq!(ioman.backend_info(path).unwrap().cursor, TEST_STR.len() as u64);
}

#[test]
fn io_manager_refuses_what_the_file_was_not_opened_for() {
    let mut ioman = IoManager::new();
    assert_eq!(invalid(ioman.read_next("missing", |_| ()).unwrap_err()), "File has not been opened");

    ioman.open_with("w", false, true, GenIoBackend::Sequential(MemBackend::new(b"abc", 2)));
    assert_eq!(invalid(ioman.read_next("w", |_| ()).unwrap_err()), "File not opened in read mode");
    assert!(ioman.write_next("w", b"def").is_ok());

    ioman.open_with("r", true, false, GenIoBackend::Rand(MemBackend::new(b"abcdef", 2)));
    assert_eq!(
        invalid(ioman.read_next("r", |_| ()).unwrap_err()),
        "I/O backend does not support tracked sequential access"
    );
    assert_eq!(invalid(ioman.write_next("r", b"x").unwrap_err()), "File not opened in write mode");
    assert_eq!(invalid(ioman.write_region("r", 0, b"x").unwrap_err()), "File not opened in write mode");
    ioman.open_with("wo", false, true, GenIoBackend::Rand(MemBackend::new(b"abcdef", 2)));
    assert!(ioman.write_region("wo", 1, b"XY").is_ok());
    assert_eq!(invalid(ioman.read_region("wo", 0, 2, |_| ()).unwrap_err()), "File not opened in read mode");

    ioman.open_with("s", true, true, GenIoBackend::Sequential(MemBackend::new(b"abcdef", 2)));
    assert_eq!(invalid(ioman.read_region("s", 0, 2, |_| ()).unwrap_err()), "I/O backend does not support random access");
    assert_eq!(invalid(ioman.write_region("s", 0, b"x").unwrap_err()), "I/O backend does not support random access");
}

#[test]
fn io_manager_read_region_is_cut_to_the_file() {
    let mut ioman = IoManager::new();
    ioman.open_with("f", true, true, GenIoBackend::RandSeq(MemBackend::new(b"0123456789", 4)));
    let got = ioman.read_region("f", 5, 100, |s| s.to_vec()).unwrap();
    assert_eq!(got, b"56789".to_vec());
    assert!(ioman.write_region("f", 8, b"xyz").is_ok());
    assert_eq!(ioman.read_region("f", 7, 10, |s| s.to_vec()).unwrap(), b"7xy".to_vec());
    match ioman.read_region("f", 20, 30, |_| ()) {
        Err(IoManagerError::BackendError(BackendError::ZeroRangeSpecified)) => {}
        _ => panic!("expected the backend's error"),
    }
    ioman.close("f");
    assert!(ioman.backend_info("f").is_none());
    assert_eq!(invalid(ioman.read_region("f", 0, 1, |_| ()).unwrap_err()), "File has not been opened");
}

#[test]
fn io_manager_open_chooses_the_backend_by_access_pattern() {
    let mut ioman: IoManager<MemBackend> = IoManager::new();
    let mut chosen = Vec::new();
    for (ap, read, write) in [
        (AccessPattern::Sequential, true, false),
        (AccessPattern::Sequential, true, true),
        (AccessPattern::Rand, true, false),
        (AccessPattern::Unspecified, true, false),
    ] {
        let r = ioman.open("img", read, write, ap, Some(16), |choice, _path, _r, _w, pattern, block| {
            chosen.push((choice, pattern, block));
            Ok(MemBackend::new(b"data", block as usize))
        });
        assert!(r.is_ok());
    }
    assert_eq!(
        chosen,
        vec![
            (BackendChoice::FileBuf, AccessPattern::Sequential, 16),
            (BackendChoice::Direct, AccessPattern::Sequential, 16),
            (BackendChoice::Mmap, AccessPattern::Rand, 16),
            (BackendChoice::Direct, AccessPattern::RandSeq, 16),
        ]
    );
    let r = ioman.open("none", false, false, AccessPattern::Rand, None, |_, _, _, _, _, _| Ok(MemBackend::new(b"", 1)));
    assert_eq!(invalid(r.unwrap_err()), "Cannot open a file in neither read or write mode");
    let r = ioman.open("bad", true, false, AccessPattern::Rand, None, |_, _, _, _, _, block| {
        assert_eq!(block, 1024 * 1024 * 1024);
        Err(BackendError::UnsupportedOperation)
    });
    assert!(matches!(r, Err(IoManagerError::BackendError(BackendError::UnsupportedOperation))));
    assert!(ioman.backend_info("bad").is_none());
}

#[test]
fn io_errors_describe_themselves() {
    assert_eq!(BackendError::UnsupportedOperation.to_string(), "Operation is unsupported by this backend");
    assert_eq!(
        BackendError::ThreadSendRecvError("closed".to_string()).to_string(),
        "Failed to communicate with other thread: closed"
    );
    let e = BackendError::IoError(std::io::Error::new(std::io::ErrorKind::Other, "disk on fire"));
    assert_eq!(e.to_string(), "I/O error: disk on fire");
    assert_eq!(
        IoManagerError::InvalidOperation("nope".to_string()).to_string(),
        "Invalid operation: nope"
    );
    assert_eq!(
        IoManagerError::BackendError(BackendError::ZeroRangeSpecified).to_string(),
        "Backend error: Attempting to read zero bytes is an error"
    );
}
