//! Upload requests: the shape of one chunk, the buffer that collects a file,
//! and the checks that every request must pass.

use crate::digest::HashDigest;
use crate::state::InnerState;
use vstd::prelude::*;

verus! {

/// Largest file that can be stored (256 MiB).
pub const MAX_ASSET_FILE_SIZE: u64 = 268435456;

/// Longest path, in bytes.
pub const MAX_ASSET_PATH_BYTES: usize = 1024;

/// Most headers a file may carry.
pub const MAX_ASSET_HEADER_COUNT: usize = 64;

/// Most bytes that all header names and values of a file may take together.
pub const MAX_ASSET_HEADER_BYTES: usize = 65536;

/// Most chunks in one upload request.
pub const MAX_ASSET_UPLOAD_BATCH_SIZE: usize = 64;

/// Most paths in one delete request.
pub const MAX_ASSET_DELETE_BATCH_SIZE: usize = 1000;

/// Most chunk bytes in one upload request, and the largest chunk size (2 MiB).
pub const MAX_ASSET_UPLOAD_REQUEST_BYTES: usize = 2097152;

/// Most path bytes in one delete request.
pub const MAX_ASSET_DELETE_PATH_BYTES: usize = 65536;

/// Longest header name, in bytes.
pub const MAX_HEADER_NAME_BYTES: usize = 64;

/// Longest header value, in bytes.
pub const MAX_HEADER_VALUE_BYTES: usize = 8192;

/// One chunk of a file being uploaded.
pub struct UploadingArg {
    pub path: String,
    /// Headers served with the file.
    pub headers: Vec<(String, String)>,
    /// Digest of the whole file; used as its name only when uploads are trusted.
    pub hash: HashDigest,
    /// Size of the whole file.
    pub size: u64,
    /// Size of every chunk but possibly the last.
    pub chunk_size: u32,
    /// Position of this chunk.
    pub index: u32,
    pub chunk: Vec<u8>,
}

/// A file whose chunks are still arriving.
pub struct UploadingFile {
    pub path: String,
    pub headers: Vec<(String, String)>,
    pub hash: HashDigest,
    /// The file's bytes; chunks not yet received are zero.
    pub data: Vec<u8>,
    pub size: u64,
    pub chunk_size: u32,
    /// Number of chunks the file is split into.
    pub chunks: u32,
    /// Which chunks have arrived.
    pub chunked: Vec<bool>,
}

/// An upload in progress as the contracts see it.
pub struct UploadView {
    pub path: Seq<char>,
    pub headers: Seq<(String, String)>,
    pub hash: Seq<u8>,
    pub data: Seq<u8>,
    pub size: u64,
    pub chunk_size: u32,
    pub chunks: u32,
    pub chunked: Seq<bool>,
}

impl View for UploadingFile {
    type V = UploadView;

    open spec fn view(&self) -> UploadView {
        UploadView {
            path: self.path@,
            headers: self.headers@,
            hash: self.hash@,
            data: self.data@,
            size: self.size,
            chunk_size: self.chunk_size,
            chunks: self.chunks,
            chunked: self.chunked@,
        }
    }
}

/// Why a request to upload or delete files is refused.
#[derive(Debug, Clone, Copy, PartialEq, Eq)]
pub enum UploadError {
    EmptyPath,
    PathNotAbsolute,
    PathTooLarge,
    PathUnsupportedCharacters,
    TooManyHeaders,
    EmptyHeaderName,
    HeaderNameTooLarge,
    HeaderValueTooLarge,
    InvalidHeaderName,
    InvalidHeaderValue,
    ReservedHeader,
    HeadersTooLarge,
    ZeroSize,
    FileTooLarge,
    ZeroChunkSize,
    ChunkSizeTooLarge,
    WrongIndex,
    WrongChunkLength,
    ExistingHashSizeMismatch,
    TooManyActiveUploads,
    StateLimitExceeded,
    TooManyUploadChunks,
    UploadBatchTooLarge,
    TooManyDeletePaths,
    InvalidDeletePath,
    DeletePathsTooLarge,
}

pub open spec fn upload_error_message(e: UploadError) -> Seq<char> {
    match e {
        UploadError::EmptyPath => "must has path"@,
        UploadError::PathNotAbsolute => "path must start with /"@,
        UploadError::PathTooLarge => "path is too large"@,
        UploadError::PathUnsupportedCharacters => "path contains unsupported characters"@,
        UploadError::TooManyHeaders => "too many headers"@,
        UploadError::EmptyHeaderName => "header name can not be empty"@,
        UploadError::HeaderNameTooLarge => "header name is too large"@,
        UploadError::HeaderValueTooLarge => "header value is too large"@,
        UploadError::InvalidHeaderName => "invalid header name"@,
        UploadError::InvalidHeaderValue => "invalid header value"@,
        UploadError::ReservedHeader => "header is managed by the canister"@,
        UploadError::HeadersTooLarge => "headers are too large"@,
        UploadError::ZeroSize => "size can not be 0"@,
        UploadError::FileTooLarge => "file size exceeds the configured limit"@,
        UploadError::ZeroChunkSize => "chunk size can not be 0"@,
        UploadError::ChunkSizeTooLarge => "chunk size exceeds the configured limit"@,
        UploadError::WrongIndex => "wrong index"@,
        UploadError::WrongChunkLength => "wrong chunk length"@,
        UploadError::ExistingHashSizeMismatch => "uploaded size does not match the existing hash"@,
        UploadError::TooManyActiveUploads => "too many active uploads"@,
        UploadError::StateLimitExceeded => "asset and upload data exceed the configured state limit"@,
        UploadError::TooManyUploadChunks => "too many upload chunks in one request"@,
        UploadError::UploadBatchTooLarge => "upload chunk data exceed the request limit"@,
        UploadError::TooManyDeletePaths => "too many paths in one delete request"@,
        UploadError::InvalidDeletePath => "invalid delete path"@,
        UploadError::DeletePathsTooLarge => "delete paths exceed the request limit"@,
    }
}

impl UploadError {
    /// The text with which the request is refused.
    pub fn message(&self) -> (m: &'static str)
        ensures
            m@ == upload_error_message(*self),
    {
        match self {
            UploadError::EmptyPath => "must has path",
            UploadError::PathNotAbsolute => "path must start with /",
            UploadError::PathTooLarge => "path is too large",
            UploadError::PathUnsupportedCharacters => "path contains unsupported characters",
            UploadError::TooManyHeaders => "too many headers",
            UploadError::EmptyHeaderName => "header name can not be empty",
            UploadError::HeaderNameTooLarge => "header name is too large",
            UploadError::HeaderValueTooLarge => "header value is too large",
            UploadError::InvalidHeaderName => "invalid header name",
            UploadError::InvalidHeaderValue => "invalid header value",
            UploadError::ReservedHeader => "header is managed by the canister",
            UploadError::HeadersTooLarge => "headers are too large",
            UploadError::ZeroSize => "size can not be 0",
            UploadError::FileTooLarge => "file size exceeds the configured limit",
            UploadError::ZeroChunkSize => "chunk size can not be 0",
            UploadError::ChunkSizeTooLarge => "chunk size exceeds the configured limit",
            UploadError::WrongIndex => "wrong index",
            UploadError::WrongChunkLength => "wrong chunk length",
            UploadError::ExistingHashSizeMismatch => "uploaded size does not match the existing hash",
            UploadError::TooManyActiveUploads => "too many active uploads",
            UploadError::StateLimitExceeded => "asset and upload data exceed the configured state limit",
            UploadError::TooManyUploadChunks => "too many upload chunks in one request",
            UploadError::UploadBatchTooLarge => "upload chunk data exceed the request limit",
            UploadError::TooManyDeletePaths => "too many paths in one delete request",
            UploadError::InvalidDeletePath => "invalid delete path",
            UploadError::DeletePathsTooLarge => "delete paths exceed the request limit",
        }
    }
}

/// The UTF-8 bytes of a string.
pub open spec fn bytes_of(s: String) -> Seq<u8> {
    vstd::utf8::encode_utf8(s@)
}

/// ASCII control characters.
pub open spec fn is_control_byte(b: u8) -> bool {
    b < 32 || b == 127
}

/// Bytes a path may not hold: control characters, `?` and `#`.
pub open spec fn is_unsupported_path_byte(b: u8) -> bool {
    is_control_byte(b) || b == 63 || b == 35
}

/// The first reason, in the order checked, why a path is refused.
pub open spec fn path_fault(p: Seq<u8>) -> Option<UploadError> {
    if p.len() == 0 {
        Some(UploadError::EmptyPath)
    } else if p[0] != 47 {
        Some(UploadError::PathNotAbsolute)
    } else if p.len() > MAX_ASSET_PATH_BYTES {
        Some(UploadError::PathTooLarge)
    } else if exists|i: int| 0 <= i < p.len() && is_unsupported_path_byte(#[trigger] p[i]) {
        Some(UploadError::PathUnsupportedCharacters)
    } else {
        None
    }
}

/// The token characters of HTTP (RFC 9110): letters, digits and ``!#$%&'*+-.^_`|~``.
pub open spec fn spec_is_http_token_byte(b: u8) -> bool {
    (48 <= b <= 57) || (65 <= b <= 90) || (97 <= b <= 122) || b == 33 || b == 35 || b == 36 || b
        == 37 || b == 38 || b == 39 || b == 42 || b == 43 || b == 45 || b == 46 || b == 94 || b
        == 95 || b == 96 || b == 124 || b == 126
}

/// Upper-case ASCII letters to lower case; other bytes unchanged.
pub open spec fn ascii_lower(b: u8) -> u8 {
    if 65 <= b <= 90 {
        (b + 32) as u8
    } else {
        b
    }
}

/// The response headers that the storage itself sets, in lower case.
pub open spec fn reserved_header_names() -> Seq<Seq<u8>> {
    seq![
        // "accept-ranges"
        seq![97u8, 99u8, 99u8, 101u8, 112u8, 116u8, 45u8, 114u8, 97u8, 110u8, 103u8, 101u8, 115u8],
        // "content-disposition"
        seq![99u8, 111u8, 110u8, 116u8, 101u8, 110u8, 116u8, 45u8, 100u8, 105u8, 115u8, 112u8, 111u8, 115u8, 105u8, 116u8, 105u8, 111u8, 110u8],
        // "content-length"
        seq![99u8, 111u8, 110u8, 116u8, 101u8, 110u8, 116u8, 45u8, 108u8, 101u8, 110u8, 103u8, 116u8, 104u8],
        // "content-range"
        seq![99u8, 111u8, 110u8, 116u8, 101u8, 110u8, 116u8, 45u8, 114u8, 97u8, 110u8, 103u8, 101u8],
        // "etag"
        seq![101u8, 116u8, 97u8, 103u8],
        // "transfer-encoding"
        seq![116u8, 114u8, 97u8, 110u8, 115u8, 102u8, 101u8, 114u8, 45u8, 101u8, 110u8, 99u8, 111u8, 100u8, 105u8, 110u8, 103u8],
    ]
}

/// A header name that, ignoring ASCII case, is one the storage sets itself.
pub open spec fn spec_is_reserved_header(name: Seq<u8>) -> bool {
    exists|i: int|
        0 <= i < reserved_header_names().len() && #[trigger] reserved_header_names()[i]
            == name.map_values(|b: u8| ascii_lower(b))
}

} // verus!

verus! {

/// The first reason, in the order checked, why one header is refused.
pub open spec fn header_fault(name: Seq<u8>, value: Seq<u8>) -> Option<UploadError> {
    if name.len() == 0 {
        Some(UploadError::EmptyHeaderName)
    } else if name.len() > MAX_HEADER_NAME_BYTES {
        Some(UploadError::HeaderNameTooLarge)
    } else if value.len() > MAX_HEADER_VALUE_BYTES {
        Some(UploadError::HeaderValueTooLarge)
    } else if exists|i: int| 0 <= i < name.len() && !spec_is_http_token_byte(#[trigger] name[i]) {
        Some(UploadError::InvalidHeaderName)
    } else if exists|i: int| 0 <= i < value.len() && (#[trigger] value[i] == 13 || value[i] == 10) {
        Some(UploadError::InvalidHeaderValue)
    } else if spec_is_reserved_header(name) {
        Some(UploadError::ReservedHeader)
    } else {
        None
    }
}

/// The first fault among the first `n` headers.
pub open spec fn headers_fault_upto(hs: Seq<(String, String)>, n: int) -> Option<UploadError>
    decreases n,
{
    if n <= 0 {
        None
    } else {
        match headers_fault_upto(hs, n - 1) {
            Some(e) => Some(e),
            None => header_fault(bytes_of(hs[n - 1].0), bytes_of(hs[n - 1].1)),
        }
    }
}

/// Bytes taken by the names and values of the first `n` headers.
pub open spec fn header_bytes_upto(hs: Seq<(String, String)>, n: int) -> int
    decreases n,
{
    if n <= 0 {
        0
    } else {
        header_bytes_upto(hs, n - 1) + bytes_of(hs[n - 1].0).len() + bytes_of(hs[n - 1].1).len()
    }
}

/// The first reason, in the order checked, why a list of headers is refused.
pub open spec fn headers_fault(hs: Seq<(String, String)>) -> Option<UploadError> {
    if hs.len() > MAX_ASSET_HEADER_COUNT {
        Some(UploadError::TooManyHeaders)
    } else if headers_fault_upto(hs, hs.len() as int) is Some {
        headers_fault_upto(hs, hs.len() as int)
    } else if header_bytes_upto(hs, hs.len() as int) > MAX_ASSET_HEADER_BYTES {
        Some(UploadError::HeadersTooLarge)
    } else {
        None
    }
}

/// The first reason why the path or the headers of a chunk are refused.
pub open spec fn path_and_headers_fault(arg: UploadingArg) -> Option<UploadError> {
    match path_fault(bytes_of(arg.path)) {
        Some(e) => Some(e),
        None => headers_fault(arg.headers@),
    }
}

/// Number of chunks of `chunk_size` bytes that hold `size` bytes.
pub open spec fn chunk_count(size: int, chunk_size: int) -> int {
    if (size / chunk_size) * chunk_size < size {
        size / chunk_size + 1
    } else {
        size / chunk_size
    }
}

/// The first reason, in the order checked, why the sizes or the data of a chunk are refused.
pub open spec fn size_and_data_fault(arg: UploadingArg) -> Option<UploadError> {
    if arg.size == 0 {
        Some(UploadError::ZeroSize)
    } else if arg.size > MAX_ASSET_FILE_SIZE {
        Some(UploadError::FileTooLarge)
    } else if arg.chunk_size == 0 {
        Some(UploadError::ZeroChunkSize)
    } else if arg.chunk_size > MAX_ASSET_UPLOAD_REQUEST_BYTES {
        Some(UploadError::ChunkSizeTooLarge)
    } else {
        let chunks = chunk_count(arg.size as int, arg.chunk_size as int);
        if arg.index >= chunks {
            Some(UploadError::WrongIndex)
        } else if arg.index < chunks - 1 || arg.size == arg.chunk_size * chunks {
            if arg.chunk@.len() != arg.chunk_size {
                Some(UploadError::WrongChunkLength)
            } else {
                None
            }
        } else if arg.chunk@.len() != arg.size % (arg.chunk_size as u64) {
            Some(UploadError::WrongChunkLength)
        } else {
            None
        }
    }
}

/// The sizes of a chunk describe a file that can be stored.
pub open spec fn sizes_ok(size: u64, chunk_size: u32) -> bool {
    0 < size <= MAX_ASSET_FILE_SIZE && 0 < chunk_size <= MAX_ASSET_UPLOAD_REQUEST_BYTES
}

/// Byte range `[start, end)` of the file that chunk `index` covers.
pub open spec fn chunk_range(size: int, chunk_size: int, index: int) -> (int, int) {
    let chunks = chunk_count(size, chunk_size);
    let start = chunk_size * index;
    if index == chunks - 1 {
        (start, size)
    } else {
        (start, start + chunk_size)
    }
}

pub proof fn lemma_chunk_count(size: int, chunk_size: int)
    requires
        0 < size <= MAX_ASSET_FILE_SIZE,
        0 < chunk_size,
    ensures
        1 <= chunk_count(size, chunk_size) <= size,
        chunk_count(size, chunk_size) * chunk_size >= size,
        (chunk_count(size, chunk_size) - 1) * chunk_size < size,
{
    let q = size / chunk_size;
    let r = size % chunk_size;
    assert(size == q * chunk_size + r && 0 <= r < chunk_size) by (nonlinear_arith)
        requires
            0 < chunk_size,
            q == size / chunk_size,
            r == size % chunk_size,
    ;
    assert(q <= size) by (nonlinear_arith)
        requires
            0 < chunk_size,
            0 < size,
            q == size / chunk_size,
    ;
    if q * chunk_size < size {
        assert((q + 1) * chunk_size == q * chunk_size + chunk_size) by (nonlinear_arith);
        assert(q + 1 <= size) by (nonlinear_arith)
            requires
                size == q * chunk_size + r,
                0 < r,
                0 < chunk_size,
                q >= 0,
        ;
    } else {
        assert(q >= 1) by (nonlinear_arith)
            requires
                q * chunk_size >= size,
                size > 0,
                chunk_size > 0,
        ;
        assert((q - 1) * chunk_size == q * chunk_size - chunk_size) by (nonlinear_arith);
    }
}

/// The chunk covers a non-empty range that lies in the file, of the length
/// that the checks demand.
pub proof fn lemma_chunk_range(size: int, chunk_size: int, index: int)
    requires
        0 < size <= MAX_ASSET_FILE_SIZE,
        0 < chunk_size,
        0 <= index < chunk_count(size, chunk_size),
    ensures
        0 <= chunk_range(size, chunk_size, index).0 < chunk_range(size, chunk_size, index).1 <= size,
        chunk_range(size, chunk_size, index).1 - chunk_range(size, chunk_size, index).0 <= chunk_size,
        index < chunk_count(size, chunk_size) - 1 || size == chunk_size * chunk_count(size, chunk_size)
            ==> chunk_range(size, chunk_size, index).1 - chunk_range(size, chunk_size, index).0
            == chunk_size,
        !(index < chunk_count(size, chunk_size) - 1 || size == chunk_size * chunk_count(size, chunk_size))
            ==> chunk_range(size, chunk_size, index).1 - chunk_range(size, chunk_size, index).0
            == size % chunk_size,
{
    lemma_chunk_count(size, chunk_size);
    let c = chunk_count(size, chunk_size);
    let start = chunk_size * index;
    assert(0 <= start) by (nonlinear_arith)
        requires
            0 < chunk_size,
            0 <= index,
            start == chunk_size * index,
    ;
    assert(start <= (c - 1) * chunk_size) by (nonlinear_arith)
        requires
            0 < chunk_size,
            index <= c - 1,
            start == chunk_size * index,
    ;
    if index < c - 1 {
        assert(start + chunk_size <= (c - 1) * chunk_size) by (nonlinear_arith)
            requires
                0 < chunk_size,
                index + 1 <= c - 1,
                start == chunk_size * index,
        ;
    } else {
        let q = size / chunk_size;
        let r = size % chunk_size;
        assert(size == q * chunk_size + r && 0 <= r < chunk_size) by (nonlinear_arith)
            requires
                0 < chunk_size,
                q == size / chunk_size,
                r == size % chunk_size,
        ;
        assert(chunk_size * c == c * chunk_size) by (nonlinear_arith);
        if size == chunk_size * c {
            assert(size - start == chunk_size) by (nonlinear_arith)
                requires
                    size == chunk_size * c,
                    start == chunk_size * index,
                    index == c - 1,
            ;
        } else {
            assert(c == q + 1 || c == q);
            if c == q {
                assert(q * chunk_size >= size);
                assert(r == 0);
                assert(false);
            }
            assert(start == q * chunk_size) by (nonlinear_arith)
                requires
                    start == chunk_size * index,
                    index == c - 1,
                    c == q + 1,
            ;
        }
    }
}

} // verus!

verus! {

/// Whether a byte is a token character of HTTP, as header names must be.
pub fn is_http_token_byte(byte: u8) -> (r: bool)
    ensures
        r == spec_is_http_token_byte(byte),
{
    (48 <= byte && byte <= 57) || (65 <= byte && byte <= 90) || (97 <= byte && byte <= 122) || byte
        == 33 || byte == 35 || byte == 36 || byte == 37 || byte == 38 || byte == 39 || byte == 42
        || byte == 43 || byte == 45 || byte == 46 || byte == 94 || byte == 95 || byte == 96 || byte
        == 124 || byte == 126
}

fn ascii_lower_byte(b: u8) -> (r: u8)
    ensures
        r == ascii_lower(b),
{
    if 65 <= b && b <= 90 {
        b + 32
    } else {
        b
    }
}

/// Whether `name`, with ASCII letters taken in lower case, is `target`.
fn lower_matches(name: &[u8], target: &Vec<u8>) -> (r: bool)
    ensures
        r == (target@ == name@.map_values(|b: u8| ascii_lower(b))),
{
    let ghost lowered = name@.map_values(|b: u8| ascii_lower(b));
    if name.len() != target.len() {
        assert(lowered.len() != target@.len());
        return false;
    }
    let mut i: usize = 0;
    while i < name.len()
        invariant
            name@.len() == target@.len(),
            lowered == name@.map_values(|b: u8| ascii_lower(b)),
            i <= name@.len(),
            forall|j: int| 0 <= j < i ==> target@[j] == lowered[j],
        decreases name@.len() - i,
    {
        if ascii_lower_byte(name[i]) != target[i] {
            assert(lowered[i as int] != target@[i as int]);
            return false;
        }
        i = i + 1;
    }
    assert(target@ =~= lowered);
    true
}

/// Whether a header name, ignoring ASCII case, is one that the storage sets itself.
pub fn is_reserved_response_header(name: &str) -> (r: bool)
    ensures
        r == spec_is_reserved_header(vstd::utf8::encode_utf8(name@)),
{
    let bytes = name.as_bytes();
    let names: Vec<Vec<u8>> = vec![
        vec![97u8, 99, 99, 101, 112, 116, 45, 114, 97, 110, 103, 101, 115],
        vec![99u8, 111, 110, 116, 101, 110, 116, 45, 100, 105, 115, 112, 111, 115, 105, 116, 105, 111, 110],
        vec![99u8, 111, 110, 116, 101, 110, 116, 45, 108, 101, 110, 103, 116, 104],
        vec![99u8, 111, 110, 116, 101, 110, 116, 45, 114, 97, 110, 103, 101],
        vec![101u8, 116, 97, 103],
        vec![116u8, 114, 97, 110, 115, 102, 101, 114, 45, 101, 110, 99, 111, 100, 105, 110, 103],
    ];
    assert(names@.len() == 6);
    assert(forall|i: int| 0 <= i < 6 ==> #[trigger] names@[i]@ == reserved_header_names()[i]);
    let mut i: usize = 0;
    while i < names.len()
        invariant
            i <= names@.len(),
            names@.len() == 6,
            bytes@ == vstd::utf8::encode_utf8(name@),
            forall|j: int| 0 <= j < 6 ==> #[trigger] names@[j]@ == reserved_header_names()[j],
            forall|j: int|
                0 <= j < i ==> #[trigger] reserved_header_names()[j] != bytes@.map_values(
                    |b: u8| ascii_lower(b),
                ),
        decreases names@.len() - i,
    {
        if lower_matches(bytes, &names[i]) {
            assert(reserved_header_names()[i as int] == bytes@.map_values(|b: u8| ascii_lower(b)));
            return true;
        }
        i = i + 1;
    }
    false
}

} // verus!

verus! {

/// The result that a check gives for the first fault it finds.
pub open spec fn as_result(fault: Option<UploadError>) -> Result<(), UploadError> {
    match fault {
        Some(e) => Err(e),
        None => Ok(()),
    }
}

#[verifier::loop_isolation(false)]
fn check_path(path: &String) -> (r: Result<(), UploadError>)
    ensures
        r == as_result(path_fault(bytes_of(*path))),
{
    let p = path.as_str().as_bytes();
    assert(p@ == bytes_of(*path));
    if p.len() == 0 {
        return Err(UploadError::EmptyPath);
    }
    if p[0] != 47 {
        return Err(UploadError::PathNotAbsolute);
    }
    if p.len() > MAX_ASSET_PATH_BYTES {
        return Err(UploadError::PathTooLarge);
    }
    let mut i: usize = 0;
    while i < p.len()
        invariant
            i <= p@.len(),
            p@ == bytes_of(*path),
            forall|j: int| 0 <= j < i ==> !is_unsupported_path_byte(#[trigger] p@[j]),
        decreases p@.len() - i,
    {
        let b = p[i];
        if b < 32 || b == 127 || b == 63 || b == 35 {
            assert(is_unsupported_path_byte(p@[i as int]));
            return Err(UploadError::PathUnsupportedCharacters);
        }
        i = i + 1;
    }
    Ok(())
}

#[verifier::loop_isolation(false)]
fn check_header(name: &String, value: &String) -> (r: Result<(), UploadError>)
    ensures
        r == as_result(header_fault(bytes_of(*name), bytes_of(*value))),
{
    let n = name.as_str().as_bytes();
    let v = value.as_str().as_bytes();
    if n.len() == 0 {
        return Err(UploadError::EmptyHeaderName);
    }
    if n.len() > MAX_HEADER_NAME_BYTES {
        return Err(UploadError::HeaderNameTooLarge);
    }
    if v.len() > MAX_HEADER_VALUE_BYTES {
        return Err(UploadError::HeaderValueTooLarge);
    }
    let mut i: usize = 0;
    while i < n.len()
        invariant
            i <= n@.len(),
            n@ == bytes_of(*name),
            forall|j: int| 0 <= j < i ==> spec_is_http_token_byte(#[trigger] n@[j]),
        decreases n@.len() - i,
    {
        if !is_http_token_byte(n[i]) {
            assert(!spec_is_http_token_byte(n@[i as int]));
            return Err(UploadError::InvalidHeaderName);
        }
        i = i + 1;
    }
    let mut k: usize = 0;
    while k < v.len()
        invariant
            k <= v@.len(),
            v@ == bytes_of(*value),
            n@ == bytes_of(*name),
            0 < n@.len() <= MAX_HEADER_NAME_BYTES,
            v@.len() <= MAX_HEADER_VALUE_BYTES,
            forall|j: int| 0 <= j < n@.len() ==> spec_is_http_token_byte(#[trigger] n@[j]),
            forall|j: int| 0 <= j < k ==> !(#[trigger] v@[j] == 13 || v@[j] == 10),
        decreases v@.len() - k,
    {
        if v[k] == 13 || v[k] == 10 {
            assert(v@[k as int] == 13 || v@[k as int] == 10);
            return Err(UploadError::InvalidHeaderValue);
        }
        k = k + 1;
    }
    if is_reserved_response_header(name.as_str()) {
        return Err(UploadError::ReservedHeader);
    }
    Ok(())
}

proof fn lemma_headers_fault_stays(hs: Seq<(String, String)>, a: int, b: int)
    requires
        0 <= a <= b,
        headers_fault_upto(hs, a) is Some,
    ensures
        headers_fault_upto(hs, b) == headers_fault_upto(hs, a),
    decreases b - a,
{
    if a < b {
        lemma_headers_fault_stays(hs, a, b - 1);
    }
}

proof fn lemma_header_bytes_bound(hs: Seq<(String, String)>, n: int)
    requires
        0 <= n <= hs.len(),
        headers_fault_upto(hs, n) is None,
    ensures
        header_bytes_upto(hs, n) <= n * (MAX_HEADER_NAME_BYTES + MAX_HEADER_VALUE_BYTES),
        header_bytes_upto(hs, n) >= 0,
    decreases n,
{
    if n > 0 {
        lemma_header_bytes_bound(hs, n - 1);
    }
}

impl InnerState {
    /// Checks the path and the headers of a chunk: the first fault found
    /// refuses it.
    #[verifier::loop_isolation(false)]
    pub fn try_check_path_and_headers(arg: &UploadingArg) -> (r: Result<(), UploadError>)
        ensures
            r == as_result(path_and_headers_fault(*arg)),
    {
        let checked = check_path(&arg.path);
        if checked.is_err() {
            return checked;
        }
        if arg.headers.len() > MAX_ASSET_HEADER_COUNT {
            return Err(UploadError::TooManyHeaders);
        }
        let ghost hs = arg.headers@;
        let mut header_bytes: usize = 0;
        let mut i: usize = 0;
        while i < arg.headers.len()
            invariant
                hs == arg.headers@,
                hs.len() <= MAX_ASSET_HEADER_COUNT,
                i <= hs.len(),
                headers_fault_upto(hs, i as int) is None,
                header_bytes == header_bytes_upto(hs, i as int),
                header_bytes <= i * (MAX_HEADER_NAME_BYTES + MAX_HEADER_VALUE_BYTES),
            decreases hs.len() - i,
        {
            let (name, value) = &arg.headers[i];
            let checked = check_header(name, value);
            if checked.is_err() {
                proof {
                    assert(headers_fault_upto(hs, i + 1) is Some);
                    lemma_headers_fault_stays(hs, i + 1, hs.len() as int);
                }
                return checked;
            }
            let name_len = name.as_str().as_bytes().len();
            let value_len = value.as_str().as_bytes().len();
            header_bytes = header_bytes + name_len + value_len;
            i = i + 1;
        }
        if header_bytes > MAX_ASSET_HEADER_BYTES {
            return Err(UploadError::HeadersTooLarge);
        }
        Ok(())
    }

    /// Number of chunks that a valid chunk's file is split into.
    pub fn chunks(arg: &UploadingArg) -> (c: u32)
        requires
            sizes_ok(arg.size, arg.chunk_size),
        ensures
            c == chunk_count(arg.size as int, arg.chunk_size as int),
    {
        proof {
            lemma_chunk_count(arg.size as int, arg.chunk_size as int);
            assert((arg.size / (arg.chunk_size as u64)) * (arg.chunk_size as u64) <= arg.size)
                by (nonlinear_arith)
                requires
                    arg.chunk_size > 0,
            ;
        }
        let cs = arg.chunk_size as u64;
        let mut chunks = arg.size / cs;
        if chunks * cs < arg.size {
            chunks = chunks + 1;
        }
        chunks as u32
    }

    /// Byte range of the file that a valid chunk covers.
    pub fn offset(arg: &UploadingArg) -> (range: (usize, usize))
        requires
            sizes_ok(arg.size, arg.chunk_size),
            arg.index < chunk_count(arg.size as int, arg.chunk_size as int),
        ensures
            range.0 == chunk_range(arg.size as int, arg.chunk_size as int, arg.index as int).0,
            range.1 == chunk_range(arg.size as int, arg.chunk_size as int, arg.index as int).1,
    {
        proof {
            lemma_chunk_range(arg.size as int, arg.chunk_size as int, arg.index as int);
        }
        let chunks = Self::chunks(arg);
        let offset = arg.chunk_size as u64 * arg.index as u64;
        let mut offset_end = offset + arg.chunk_size as u64;
        if arg.index == chunks - 1 {
            offset_end = arg.size;
        }
        (offset as usize, offset_end as usize)
    }

    /// Checks the sizes, the index and the data of a chunk: the first fault
    /// found refuses it.
    pub fn try_check_size_and_data(arg: &UploadingArg) -> (r: Result<(), UploadError>)
        ensures
            r == as_result(size_and_data_fault(*arg)),
    {
        if arg.size == 0 {
            return Err(UploadError::ZeroSize);
        }
        if arg.size > MAX_ASSET_FILE_SIZE {
            return Err(UploadError::FileTooLarge);
        }
        if arg.chunk_size == 0 {
            return Err(UploadError::ZeroChunkSize);
        }
        if arg.chunk_size as usize > MAX_ASSET_UPLOAD_REQUEST_BYTES {
            return Err(UploadError::ChunkSizeTooLarge);
        }
        let chunks = Self::chunks(arg);
        if arg.index >= chunks {
            return Err(UploadError::WrongIndex);
        }
        proof {
            lemma_chunk_count(arg.size as int, arg.chunk_size as int);
            assert(arg.chunk_size * chunks <= MAX_ASSET_UPLOAD_REQUEST_BYTES * MAX_ASSET_FILE_SIZE)
                by (nonlinear_arith)
                requires
                    arg.chunk_size <= MAX_ASSET_UPLOAD_REQUEST_BYTES,
                    chunks <= MAX_ASSET_FILE_SIZE,
            ;
        }
        if arg.index < chunks - 1 || arg.size == arg.chunk_size as u64 * chunks as u64 {
            if arg.chunk.len() as u64 != arg.chunk_size as u64 {
                return Err(UploadError::WrongChunkLength);
            }
        } else {
            if arg.chunk.len() as u64 != arg.size % (arg.chunk_size as u64) {
                return Err(UploadError::WrongChunkLength);
            }
        }
        Ok(())
    }
}

/// Sum of the chunk lengths of the first `n` requests.
pub open spec fn chunk_bytes_upto(args: Seq<UploadingArg>, n: int) -> int
    decreases n,
{
    if n <= 0 {
        0
    } else {
        chunk_bytes_upto(args, n - 1) + args[n - 1].chunk@.len()
    }
}

/// The first reason why a batch of chunks is refused as a whole.
pub open spec fn upload_batch_fault(args: Seq<UploadingArg>) -> Option<UploadError> {
    if args.len() > MAX_ASSET_UPLOAD_BATCH_SIZE {
        Some(UploadError::TooManyUploadChunks)
    } else if chunk_bytes_upto(args, args.len() as int) > MAX_ASSET_UPLOAD_REQUEST_BYTES {
        Some(UploadError::UploadBatchTooLarge)
    } else {
        None
    }
}

/// Sum of the byte lengths of the first `n` paths.
pub open spec fn path_bytes_upto(names: Seq<String>, n: int) -> int
    decreases n,
{
    if n <= 0 {
        0
    } else {
        path_bytes_upto(names, n - 1) + bytes_of(names[n - 1]).len()
    }
}

/// A path that a delete request may name: not empty and not too long.
pub open spec fn delete_path_ok(name: String) -> bool {
    0 < bytes_of(name).len() <= MAX_ASSET_PATH_BYTES
}

/// The first reason why a batch of paths to delete is refused as a whole.
pub open spec fn delete_batch_fault(names: Seq<String>) -> Option<UploadError> {
    if names.len() > MAX_ASSET_DELETE_BATCH_SIZE {
        Some(UploadError::TooManyDeletePaths)
    } else if exists|i: int| 0 <= i < names.len() && !delete_path_ok(#[trigger] names[i]) {
        Some(UploadError::InvalidDeletePath)
    } else if path_bytes_upto(names, names.len() as int) > MAX_ASSET_DELETE_PATH_BYTES {
        Some(UploadError::DeletePathsTooLarge)
    } else {
        None
    }
}

proof fn lemma_chunk_bytes_mono(args: Seq<UploadingArg>, a: int, b: int)
    requires
        0 <= a <= b <= args.len(),
    ensures
        chunk_bytes_upto(args, a) <= chunk_bytes_upto(args, b),
    decreases b - a,
{
    if a < b {
        lemma_chunk_bytes_mono(args, a, b - 1);
    }
}

proof fn lemma_path_bytes_mono(names: Seq<String>, a: int, b: int)
    requires
        0 <= a <= b <= names.len(),
    ensures
        path_bytes_upto(names, a) <= path_bytes_upto(names, b),
    decreases b - a,
{
    if a < b {
        lemma_path_bytes_mono(names, a, b - 1);
    }
}

/// Checks a batch of chunks as a whole: how many, and how many bytes together.
#[verifier::loop_isolation(false)]
pub fn try_check_upload_batch(args: &[UploadingArg]) -> (r: Result<(), UploadError>)
    ensures
        r == as_result(upload_batch_fault(args@)),
{
    if args.len() > MAX_ASSET_UPLOAD_BATCH_SIZE {
        return Err(UploadError::TooManyUploadChunks);
    }
    let mut bytes: usize = 0;
    let mut i: usize = 0;
    while i < args.len()
        invariant
            i <= args@.len(),
            bytes == chunk_bytes_upto(args@, i as int),
            bytes <= MAX_ASSET_UPLOAD_REQUEST_BYTES,
        decreases args@.len() - i,
    {
        let len = args[i].chunk.len();
        if len > MAX_ASSET_UPLOAD_REQUEST_BYTES - bytes {
            proof {
                lemma_chunk_bytes_mono(args@, i + 1, args@.len() as int);
            }
            return Err(UploadError::UploadBatchTooLarge);
        }
        bytes = bytes + len;
        i = i + 1;
    }
    Ok(())
}

/// Checks a batch of paths to delete as a whole: how many, each one, and how
/// many bytes together.
#[verifier::loop_isolation(false)]
pub fn try_check_delete_batch(names: &[String]) -> (r: Result<(), UploadError>)
    ensures
        r == as_result(delete_batch_fault(names@)),
{
    if names.len() > MAX_ASSET_DELETE_BATCH_SIZE {
        return Err(UploadError::TooManyDeletePaths);
    }
    let mut i: usize = 0;
    while i < names.len()
        invariant
            i <= names@.len(),
            forall|j: int| 0 <= j < i ==> delete_path_ok(#[trigger] names@[j]),
        decreases names@.len() - i,
    {
        let len = names[i].as_str().as_bytes().len();
        if len == 0 || len > MAX_ASSET_PATH_BYTES {
            assert(!delete_path_ok(names@[i as int]));
            return Err(UploadError::InvalidDeletePath);
        }
        i = i + 1;
    }
    let mut bytes: usize = 0;
    let mut k: usize = 0;
    while k < names.len()
        invariant
            k <= names@.len(),
            bytes == path_bytes_upto(names@, k as int),
            bytes <= MAX_ASSET_DELETE_PATH_BYTES,
        decreases names@.len() - k,
    {
        let len = names[k].as_str().as_bytes().len();
        if len > MAX_ASSET_DELETE_PATH_BYTES - bytes {
            proof {
                lemma_path_bytes_mono(names@, k + 1, names@.len() as int);
            }
            return Err(UploadError::DeletePathsTooLarge);
        }
        bytes = bytes + len;
        k = k + 1;
    }
    Ok(())
}

} // verus!

verus! {

impl InnerState {
    /// A chunk whose path and headers pass every check; on any other chunk
    /// this panics with the text of the first fault.
    pub fn check_path_and_headers(arg: &UploadingArg)
        requires
            path_and_headers_fault(*arg) is None,
    {
        if let Err(e) = Self::try_check_path_and_headers(arg) {
            Option::<()>::None.expect(e.message());
        }
    }

    /// A chunk whose sizes, index and data pass every check; on any other
    /// chunk this panics with the text of the first fault.
    pub fn check_size_and_data(arg: &UploadingArg)
        requires
            size_and_data_fault(*arg) is None,
    {
        if let Err(e) = Self::try_check_size_and_data(arg) {
            Option::<()>::None.expect(e.message());
        }
    }
}

/// A batch of chunks within the request limits; on any other batch this
/// panics with the text of the first fault.
pub fn check_upload_batch(args: &[UploadingArg])
    requires
        upload_batch_fault(args@) is None,
{
    if let Err(e) = try_check_upload_batch(args) {
        Option::<()>::None.expect(e.message());
    }
}

/// A batch of paths to delete within the request limits; on any other batch
/// this panics with the text of the first fault.
pub fn check_delete_batch(names: &[String])
    requires
        delete_batch_fault(names@) is None,
{
    if let Err(e) = try_check_delete_batch(names) {
        Option::<()>::None.expect(e.message());
    }
}

} // verus!

verus! {

/// A header value is refused for what it holds only when it holds a carriage
/// return (13) or a line feed (10): for a header name that passes, and a
/// value short enough, the header is refused exactly when the value holds
/// one of them, and then as an invalid value.
pub proof fn lemma_header_value_rule(name: Seq<u8>, value: Seq<u8>)
    requires
        header_fault(name, Seq::empty()) is None,
        value.len() <= MAX_HEADER_VALUE_BYTES,
    ensures
        header_fault(name, value) is None <==> forall|i: int|
            0 <= i < value.len() ==> value[i] != 13u8 && value[i] != 10u8,
        header_fault(name, value) is Some ==> header_fault(name, value) == Some(
            UploadError::InvalidHeaderValue,
        ),
{
    if !(forall|i: int| 0 <= i < value.len() ==> value[i] != 13u8 && value[i] != 10u8) {
        let i = choose|i: int| 0 <= i < value.len() && !(value[i] != 13u8 && value[i] != 10u8);
        assert(value[i] == 13 || value[i] == 10);
    }
}

/// The header value check looks at no byte other than carriage return and
/// line feed: two values of the same length that hold those bytes at the
/// same places are judged alike, with the same name.
pub proof fn lemma_header_value_only_line_breaks(name: Seq<u8>, v1: Seq<u8>, v2: Seq<u8>)
    requires
        v1.len() == v2.len(),
        forall|i: int| 0 <= i < v1.len() ==> (v1[i] == 13u8 <==> v2[i] == 13u8) && (v1[i] == 10u8 <==> v2[i] == 10u8),
    ensures
        header_fault(name, v1) == header_fault(name, v2),
{
    if exists|i: int| 0 <= i < v1.len() && (#[trigger] v1[i] == 13 || v1[i] == 10) {
        let i = choose|i: int| 0 <= i < v1.len() && (#[trigger] v1[i] == 13 || v1[i] == 10);
        assert(v2[i] == 13 || v2[i] == 10);
    }
    if exists|i: int| 0 <= i < v2.len() && (#[trigger] v2[i] == 13 || v2[i] == 10) {
        let i = choose|i: int| 0 <= i < v2.len() && (#[trigger] v2[i] == 13 || v2[i] == 10);
        assert(v1[i] == 13 || v1[i] == 10);
    }
}

} // verus!
