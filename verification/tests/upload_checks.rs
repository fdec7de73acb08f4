use storage::digest::HashDigest;
use storage::state::InnerState;
use storage::upload::{
    try_check_delete_batch, try_check_upload_batch, is_http_token_byte, is_reserved_response_header, UploadError,
    UploadingArg,
};

fn arg(path: &str, headers: Vec<(&str, &str)>, size: u64, chunk_size: u32, index: u32, chunk: Vec<u8>) -> UploadingArg {
    UploadingArg {
        path: path.to_string(),
        headers: headers
            .into_iter()
            .map(|(n, v)| (n.to_string(), v.to_string()))
            .collect(),
        hash: HashDigest([0; 32]),
        size,
        chunk_size,
        index,
        chunk,
    }
}

fn path_fault(path: &str) -> Result<(), UploadError> {
    InnerState::try_check_path_and_headers(&arg(path, vec![], 1, 1, 0, vec![0]))
}

fn header_fault(name: &str, value: &str) -> Result<(), UploadError> {
    InnerState::try_check_path_and_headers(&arg("/f", vec![(name, value)], 1, 1, 0, vec![0]))
}

#[test]
fn paths_are_checked_in_order() {
    assert_eq!(path_fault(""), Err(UploadError::EmptyPath));
    assert_eq!(path_fault("a/b"), Err(UploadError::PathNotAbsolute));
    assert_eq!(path_fault(&format!("/{}", "a".repeat(1024))), Err(UploadError::PathTooLarge));
    assert_eq!(path_fault(&format!("/{}", "a".repeat(1023))), Ok(()));
    assert_eq!(path_fault("/a?b"), Err(UploadError::PathUnsupportedCharacters));
    assert_eq!(path_fault("/a#b"), Err(UploadError::PathUnsupportedCharacters));
    assert_eq!(path_fault("/a\tb"), Err(UploadError::PathUnsupportedCharacters));
    assert_eq!(path_fault("/a\u{7f}"), Err(UploadError::PathUnsupportedCharacters));
    assert_eq!(path_fault("/日本/ok.txt"), Ok(()));
}

#[test]
fn headers_are_checked_in_order() {
    assert_eq!(header_fault("", "v"), Err(UploadError::EmptyHeaderName));
    assert_eq!(header_fault(&"a".repeat(65), "v"), Err(UploadError::HeaderNameTooLarge));
    assert_eq!(header_fault("a", &"v".repeat(8193)), Err(UploadError::HeaderValueTooLarge));
    assert_eq!(header_fault("a b", "v"), Err(UploadError::InvalidHeaderName));
    assert_eq!(header_fault("X-Test", "ok\r\nbad"), Err(UploadError::InvalidHeaderValue));
    assert_eq!(header_fault("ETag", "x"), Err(UploadError::ReservedHeader));
    assert_eq!(header_fault("content-LENGTH", "1"), Err(UploadError::ReservedHeader));
    assert_eq!(header_fault("Content-Type", "text/plain"), Ok(()));
    let many: Vec<(&str, &str)> = (0..65).map(|_| ("a", "b")).collect();
    assert_eq!(
        InnerState::try_check_path_and_headers(&arg("/f", many, 1, 1, 0, vec![0])),
        Err(UploadError::TooManyHeaders)
    );
    let value = "v".repeat(8192);
    let heavy: Vec<(&str, &str)> = (0..8).map(|_| ("a", value.as_str())).collect();
    assert_eq!(
        InnerState::try_check_path_and_headers(&arg("/f", heavy, 1, 1, 0, vec![0])),
        Err(UploadError::HeadersTooLarge)
    );
}

#[test]
fn token_and_reserved_names() {
    assert!(is_http_token_byte(b'a'));
    assert!(is_http_token_byte(b'~'));
    assert!(!is_http_token_byte(b' '));
    assert!(!is_http_token_byte(b':'));
    assert!(is_reserved_response_header("Transfer-Encoding"));
    assert!(is_reserved_response_header("accept-ranges"));
    assert!(!is_reserved_response_header("etags"));
}

#[test]
fn sizes_and_chunks_are_checked_in_order() {
    let check = |a: UploadingArg| InnerState::try_check_size_and_data(&a);
    assert_eq!(check(arg("/f", vec![], 0, 1, 0, vec![])), Err(UploadError::ZeroSize));
    assert_eq!(
        check(arg("/f", vec![], 256 * 1024 * 1024 + 1, 1, 0, vec![0])),
        Err(UploadError::FileTooLarge)
    );
    assert_eq!(check(arg("/f", vec![], 4, 0, 0, vec![])), Err(UploadError::ZeroChunkSize));
    assert_eq!(
        check(arg("/f", vec![], 4, 2 * 1024 * 1024 + 1, 0, vec![])),
        Err(UploadError::ChunkSizeTooLarge)
    );
    assert_eq!(check(arg("/f", vec![], 5, 2, 3, vec![0])), Err(UploadError::WrongIndex));
    assert_eq!(check(arg("/f", vec![], 5, 2, 1, vec![0])), Err(UploadError::WrongChunkLength));
    assert_eq!(check(arg("/f", vec![], 5, 2, 2, vec![0, 0])), Err(UploadError::WrongChunkLength));
    assert_eq!(check(arg("/f", vec![], 5, 2, 2, vec![0])), Ok(()));
    assert_eq!(check(arg("/f", vec![], 4, 2, 1, vec![0, 0])), Ok(()));
}

#[test]
fn chunk_layout() {
    let a = arg("/f", vec![], 5, 2, 2, vec![0]);
    assert_eq!(InnerState::chunks(&a), 3);
    assert_eq!(InnerState::offset(&a), (4, 5));
    let b = arg("/f", vec![], 6, 3, 1, vec![0; 3]);
    assert_eq!(InnerState::chunks(&b), 2);
    assert_eq!(InnerState::offset(&b), (3, 6));
    let c = arg("/f", vec![], 7, 3, 0, vec![0; 3]);
    assert_eq!(InnerState::offset(&c), (0, 3));
}

#[test]
fn batch_checks() {
    let small = vec![arg("/f", vec![], 1, 1, 0, vec![0])];
    assert_eq!(try_check_upload_batch(&small), Ok(()));
    let big = vec![
        arg("/f", vec![], 1, 1, 0, vec![0; 2 * 1024 * 1024]),
        arg("/g", vec![], 1, 1, 0, vec![0]),
    ];
    assert_eq!(try_check_upload_batch(&big), Err(UploadError::UploadBatchTooLarge));
    let long = "/".to_string() + &"a".repeat(1023);
    let names: Vec<String> = (0..65).map(|_| long.clone()).collect();
    assert_eq!(try_check_delete_batch(&names), Err(UploadError::DeletePathsTooLarge));
    assert_eq!(try_check_delete_batch(&names[..64]), Ok(()));
    assert_eq!(
        try_check_delete_batch(&[long.clone() + "b"]),
        Err(UploadError::InvalidDeletePath)
    );
}

#[test]
fn error_messages() {
    assert_eq!(UploadError::EmptyPath.message(), "must has path");
    assert_eq!(UploadError::WrongIndex.message(), "wrong index");
    assert_eq!(
        UploadError::StateLimitExceeded.message(),
        "asset and upload data exceed the configured state limit"
    );
    assert_eq!(
        storage::assets::DownloadError::FileNotFound.message(),
        "File not found"
    );
}

#[test]
fn valid_chunks_pass_the_checks() {
    InnerState::check_path_and_headers(&arg("/a", vec![("X-Test", "ok")], 1, 1, 0, vec![1]));
    InnerState::check_size_and_data(&arg("/a", vec![], 5, 2, 2, vec![9]));
    storage::upload::check_upload_batch(&[arg("/a", vec![], 1, 1, 0, vec![1])]);
    storage::upload::check_delete_batch(&["/a".to_string()]);
}
