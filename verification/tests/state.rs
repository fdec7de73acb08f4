use sha2::Digest;
use storage::assets::DownloadError;
use storage::digest::HashDigest;
use storage::state::InnerState;
use storage::upload::{UploadError, UploadingArg};

const NOW: i128 = 1_000_000;

fn upload_arg(path: &str, hash: [u8; 32], chunk: Vec<u8>, size: u64, index: u32, chunk_size: u32) -> UploadingArg {
    UploadingArg {
        path: path.to_string(),
        headers: vec![],
        hash: HashDigest(hash),
        size,
        chunk_size,
        index,
        chunk,
    }
}

fn sha256(data: &[u8]) -> [u8; 32] {
    sha2::Sha256::digest(data).into()
}

#[test]
fn deleting_a_path_cleans_upload_and_orphan_asset() {
    let mut state = InnerState::default();
    let path = "/asset.bin".to_string();
    let hash = HashDigest([1; 32]);
    state.business_hashed_update(true);
    state
        .try_put_uploading_at(upload_arg(&path, [1; 32], vec![1, 2, 3], 3, 0, 3), NOW)
        .unwrap();
    state.business_hashed_update(false);
    state
        .try_put_uploading_at(upload_arg(&path, [1; 32], vec![0, 0], 4, 0, 2), NOW)
        .unwrap();
    assert!(state.uploading_get(&path).is_some());
    assert!(state.business_assets_get(&hash).is_some());

    state.clean_uploading(&path);
    state.clean_file(&path);

    assert!(state.uploading_get(&path).is_none());
    assert!(state.business_assets_get_file(&path).is_none());
    assert!(state.hashes_get(&hash).is_none());
    assert!(state.business_assets_get(&hash).is_none());
}

#[test]
fn changed_upload_parameters_replace_the_old_buffer() {
    let mut state = InnerState::default();
    let path = "/asset.bin".to_string();
    state.assure_uploading(&upload_arg(&path, [1; 32], vec![0, 0], 4, 0, 2));
    let arg = UploadingArg {
        path: path.clone(),
        headers: vec![],
        hash: HashDigest([2; 32]),
        size: 6,
        chunk_size: 3,
        index: 0,
        chunk: vec![1, 2, 3],
    };

    state.assure_uploading(&arg);

    let file = state.uploading_get(&path);
    assert!(file.is_some_and(|file| {
        file.hash == arg.hash && file.size == 6 && file.data.len() == 6 && file.chunk_size == 3
    }));
}

#[test]
#[should_panic(expected = "file size exceeds the configured limit")]
fn rejects_files_above_the_configured_limit() {
    InnerState::check_size_and_data(&UploadingArg {
        path: "/too-large.bin".to_string(),
        headers: vec![],
        hash: HashDigest([0; 32]),
        size: storage::upload::MAX_ASSET_FILE_SIZE + 1,
        chunk_size: 1,
        index: 0,
        chunk: vec![0],
    });
}

#[test]
fn chunks_in_any_order_publish_the_assembled_file() {
    let mut state = InnerState::new();
    state
        .try_put_uploading_at(upload_arg("/a.bin", [0; 32], vec![5], 5, 2, 2), NOW)
        .unwrap();
    assert!(state.business_assets_get_file(&"/a.bin".to_string()).is_none());
    state
        .try_put_uploading_at(upload_arg("/a.bin", [0; 32], vec![1, 2], 5, 0, 2), NOW)
        .unwrap();
    assert!(state.try_download("/a.bin".to_string()).is_err());
    state
        .try_put_uploading_at(upload_arg("/a.bin", [0; 32], vec![3, 4], 5, 1, 2), NOW)
        .unwrap();
    assert_eq!(state.try_download("/a.bin".to_string()).unwrap(), vec![1, 2, 3, 4, 5]);
    assert!(state.uploading_get(&"/a.bin".to_string()).is_none());
    let file = state.business_assets_get_file(&"/a.bin".to_string()).unwrap();
    assert_eq!(file.size, 5);
    assert_eq!(file.created, NOW);
    assert_eq!(file.modified, NOW);
    assert_eq!(file.hash, HashDigest(sha256(&[1, 2, 3, 4, 5])));
}

#[test]
fn delete_cancels_unfinished_upload() {
    let mut state = InnerState::new();
    state
        .try_business_upload_at(vec![upload_arg("/partial.bin", [0; 32], vec![1, 2], 4, 0, 2)], NOW)
        .unwrap();
    state.try_business_delete(vec!["/partial.bin".to_string()]).unwrap();
    state
        .try_business_upload_at(vec![upload_arg("/partial.bin", [0; 32], vec![3, 4], 4, 1, 2)], NOW)
        .unwrap();
    assert_eq!(
        state.try_download("/partial.bin".to_string()),
        Err(DownloadError::FileNotFound)
    );
    state
        .try_business_upload_at(vec![upload_arg("/partial.bin", [0; 32], vec![1, 2], 4, 0, 2)], NOW)
        .unwrap();
    assert_eq!(state.try_download("/partial.bin".to_string()).unwrap(), vec![1, 2, 3, 4]);
}

#[test]
fn changed_layout_restarts_the_upload() {
    let mut state = InnerState::new();
    state
        .try_business_upload_at(vec![upload_arg("/restart.bin", [1; 32], vec![1, 2], 4, 0, 2)], NOW)
        .unwrap();
    state
        .try_business_upload_at(vec![upload_arg("/restart.bin", [2; 32], vec![5, 6, 7], 6, 0, 3)], NOW)
        .unwrap();
    state
        .try_business_upload_at(vec![upload_arg("/restart.bin", [2; 32], vec![8, 9, 10], 6, 1, 3)], NOW)
        .unwrap();
    assert_eq!(
        state.try_download("/restart.bin".to_string()).unwrap(),
        vec![5, 6, 7, 8, 9, 10]
    );
}

#[test]
fn trusted_digest_reuses_content_and_drops_the_old_one() {
    let mut state = InnerState::new();
    state
        .try_business_upload_at(vec![upload_arg("/old.bin", [0; 32], vec![11, 12, 13], 3, 0, 3)], NOW)
        .unwrap();
    let old_hash = sha256(&[11, 12, 13]);
    state
        .try_business_upload_at(vec![upload_arg("/shared.bin", [0; 32], vec![21, 22, 23, 24], 4, 0, 4)], NOW)
        .unwrap();
    let shared_hash = sha256(&[21, 22, 23, 24]);
    state.business_hashed_update(true);
    assert!(state.business_hashed_find());
    state
        .try_business_upload_at(vec![upload_arg("/old.bin", shared_hash, vec![21, 22, 23, 24], 4, 0, 4)], NOW + 5)
        .unwrap();
    let old_file = state.business_assets_get_file(&"/old.bin".to_string()).unwrap();
    assert_eq!(old_file.size, 4);
    assert_eq!(old_file.hash, HashDigest(shared_hash));
    assert_eq!(old_file.created, NOW);
    assert_eq!(old_file.modified, NOW + 5);
    assert!(state.business_assets_get(&HashDigest(old_hash)).is_none());
    assert!(state.hashes_get(&HashDigest(old_hash)).is_none());
    let paths = state.hashes_get(&HashDigest(shared_hash)).unwrap();
    assert_eq!(paths.0.len(), 2);
    state
        .try_business_upload_at(vec![upload_arg("/old-hash-reused.bin", old_hash, vec![31, 32, 33], 3, 0, 3)], NOW)
        .unwrap();
    assert_eq!(
        state.try_download("/old-hash-reused.bin".to_string()).unwrap(),
        vec![31, 32, 33]
    );
}

#[test]
fn trusted_digest_with_another_size_is_refused() {
    let mut state = InnerState::new();
    state.business_hashed_update(true);
    state
        .try_put_uploading_at(upload_arg("/a.bin", [7; 32], vec![1, 2, 3], 3, 0, 3), NOW)
        .unwrap();
    assert_eq!(
        state.try_put_uploading_at(upload_arg("/b.bin", [7; 32], vec![1, 2, 3, 4], 4, 0, 4), NOW),
        Err(UploadError::ExistingHashSizeMismatch)
    );
    assert!(state.business_assets_get_file(&"/b.bin".to_string()).is_none());
}

#[test]
fn listing_shows_each_file_with_hex_digest() {
    let mut state = InnerState::new();
    state.business_hashed_update(true);
    state
        .try_put_uploading_at(upload_arg("/x.txt", [0xab; 32], vec![1], 1, 0, 1), NOW)
        .unwrap();
    state
        .try_put_uploading_at(upload_arg("/y.txt", [0x0f; 32], vec![2, 3], 2, 0, 2), NOW)
        .unwrap();
    let mut files = state.files();
    files.sort_by(|a, b| a.path.cmp(&b.path));
    assert_eq!(files.len(), 2);
    assert_eq!(files[0].path, "/x.txt");
    assert_eq!(files[0].hash, "ab".repeat(32));
    assert_eq!(files[0].size, 1);
    assert_eq!(files[1].path, "/y.txt");
    assert_eq!(files[1].hash, "0f".repeat(32));
    assert_eq!(files[1].created, NOW);
}

#[test]
fn download_by_reads_a_range() {
    let mut state = InnerState::new();
    state
        .try_put_uploading_at(upload_arg("/r.bin", [0; 32], vec![1, 2, 3, 4], 4, 0, 4), NOW)
        .unwrap();
    assert_eq!(state.try_download_by("/r.bin".to_string(), 1, 2).unwrap(), vec![2, 3]);
    assert_eq!(state.try_download_by("/r.bin".to_string(), 4, 0).unwrap(), Vec::<u8>::new());
    assert_eq!(
        state.try_download_by("/r.bin".to_string(), 5, 0),
        Err(DownloadError::OffsetBeyondFile)
    );
    assert_eq!(
        state.try_download_by("/r.bin".to_string(), 3, 2),
        Err(DownloadError::SliceBeyondFile)
    );
    assert_eq!(
        state.try_download_by("/none".to_string(), 0, 1),
        Err(DownloadError::FileNotFound)
    );
    assert_eq!(
        state.try_download_by("/r.bin".to_string(), 0, 3_080_193),
        Err(DownloadError::DownloadSizeTooLarge)
    );
}

#[test]
fn refused_chunk_leaves_state_unchanged() {
    let mut state = InnerState::new();
    let mut arg = upload_arg("/h.bin", [9; 32], vec![1], 1, 0, 1);
    arg.headers = vec![("X-Test".to_string(), "ok\r\nbad".to_string())];
    assert_eq!(
        state.try_business_upload_at(vec![arg], NOW),
        Err(UploadError::InvalidHeaderValue)
    );
    assert!(state.files().is_empty());
    assert!(state.uploading_get(&"/h.bin".to_string()).is_none());
    assert_eq!(
        state.try_business_upload_at(vec![upload_arg("/too-large.bin", [8; 32], vec![1], u64::MAX, 0, 1)], NOW),
        Err(UploadError::FileTooLarge)
    );
}

#[test]
fn batches_are_limited() {
    let mut state = InnerState::new();
    let args = (0..65)
        .map(|index| upload_arg(&format!("/batch-{index}.bin"), [10; 32], vec![1], 1, 0, 1))
        .collect();
    assert_eq!(
        state.try_business_upload_at(args, NOW),
        Err(UploadError::TooManyUploadChunks)
    );
    assert!(state.files().is_empty());
    assert_eq!(
        state.try_business_delete(vec!["/none".to_string(); 1001]),
        Err(UploadError::TooManyDeletePaths)
    );
    assert_eq!(
        state.try_business_delete(vec![String::new()]),
        Err(UploadError::InvalidDeletePath)
    );
}

#[test]
fn a_later_refused_chunk_keeps_the_earlier_ones() {
    let mut state = InnerState::new();
    let result = state.try_business_upload_at(
        vec![
            upload_arg("/ok.bin", [0; 32], vec![1], 1, 0, 1),
            upload_arg("bad", [0; 32], vec![1], 1, 0, 1),
        ],
        NOW,
    );
    assert_eq!(result, Err(UploadError::PathNotAbsolute));
    assert_eq!(state.try_download("/ok.bin".to_string()).unwrap(), vec![1]);
}

#[test]
fn too_many_active_uploads_are_refused() {
    let mut state = InnerState::new();
    for i in 0..16 {
        state
            .try_put_uploading_at(upload_arg(&format!("/u{i}.bin"), [0; 32], vec![1], 2, 0, 1), NOW)
            .unwrap();
    }
    assert_eq!(
        state.try_put_uploading_at(upload_arg("/u16.bin", [0; 32], vec![1], 2, 0, 1), NOW),
        Err(UploadError::TooManyActiveUploads)
    );
    state
        .try_put_uploading_at(upload_arg("/u3.bin", [0; 32], vec![1], 3, 0, 1), NOW)
        .unwrap();
}

#[test]
fn uploads_beyond_the_state_limit_are_refused() {
    let mut state = InnerState::new();
    let big = 256 * 1024 * 1024;
    for i in 0..4 {
        state
            .try_put_uploading_at(upload_arg(&format!("/big{i}.bin"), [0; 32], vec![0; 2], big, 0, 2), NOW)
            .unwrap();
    }
    assert_eq!(
        state.try_put_uploading_at(upload_arg("/more.bin", [0; 32], vec![0; 1], 1, 0, 1), NOW),
        Err(UploadError::StateLimitExceeded)
    );
}

#[test]
fn republishing_keeps_other_files() {
    let mut state = InnerState::new();
    state
        .try_put_uploading_at(upload_arg("/a", [0; 32], vec![1, 1], 2, 0, 2), NOW)
        .unwrap();
    state
        .try_put_uploading_at(upload_arg("/b", [0; 32], vec![1, 1], 2, 0, 2), NOW)
        .unwrap();
    state
        .try_put_uploading_at(upload_arg("/a", [0; 32], vec![2], 1, 0, 1), NOW + 1)
        .unwrap();
    assert_eq!(state.try_download("/a".to_string()).unwrap(), vec![2]);
    assert_eq!(state.try_download("/b".to_string()).unwrap(), vec![1, 1]);
    assert!(state
        .business_assets_get(&HashDigest(sha256(&[1, 1])))
        .is_some());
    state.try_business_delete(vec!["/b".to_string()]).unwrap();
    assert!(state
        .business_assets_get(&HashDigest(sha256(&[1, 1])))
        .is_none());
}

#[test]
fn snapshot_parts_restore_the_state() {
    let mut state = InnerState::new();
    state
        .try_put_uploading_at(upload_arg("/a", [0; 32], vec![1, 2], 2, 0, 2), NOW)
        .unwrap();
    state
        .try_put_uploading_at(upload_arg("/b", [0; 32], vec![1, 2], 2, 0, 2), NOW)
        .unwrap();
    state
        .try_put_uploading_at(upload_arg("/c", [0; 32], vec![9], 2, 0, 1), NOW)
        .unwrap();
    state.business_hashed_update(true);
    let (hashed, assets, files, uploading) = state.into_parts();
    assert!(hashed);
    assert_eq!(assets.len(), 1);
    assert_eq!(files.len(), 2);
    assert_eq!(uploading.len(), 1);
    let restored = InnerState::from_parts(hashed, assets, files, uploading).unwrap();
    assert!(restored.business_hashed_find());
    assert_eq!(restored.try_download("/a".to_string()).unwrap(), vec![1, 2]);
    assert_eq!(restored.try_download("/b".to_string()).unwrap(), vec![1, 2]);
    assert_eq!(restored.uploading_get(&"/c".to_string()).unwrap().data, vec![9, 0]);
    let paths = restored.hashes_get(&HashDigest(sha256(&[1, 2]))).unwrap();
    assert_eq!(paths.0.len(), 2);
}

#[test]
fn snapshot_parts_that_do_not_fit_are_refused() {
    let mut state = InnerState::new();
    state
        .try_put_uploading_at(upload_arg("/a", [0; 32], vec![1, 2], 2, 0, 2), NOW)
        .unwrap();
    let (hashed, mut assets, files, uploading) = state.into_parts();
    assets.push((HashDigest([5; 32]), vec![7]));
    assert!(InnerState::from_parts(hashed, assets, files, uploading).is_none());
    assert!(InnerState::from_parts(false, vec![(HashDigest([5; 32]), vec![7])], vec![], vec![]).is_none());
    assert!(InnerState::from_parts(false, vec![], vec![], vec![]).is_some());
}

#[test]
fn publishing_an_upload_under_a_given_digest_shares_equal_digests() {
    let mut state = InnerState::new();
    let file = |path: &str, data: Vec<u8>| storage::upload::UploadingFile {
        path: path.to_string(),
        headers: vec![("Content-Type".to_string(), "text/plain".to_string())],
        hash: HashDigest([0; 32]),
        size: data.len() as u64,
        chunk_size: data.len() as u32,
        chunks: 1,
        chunked: vec![true],
        data,
    };
    state.publish_upload(file("/a.txt", vec![1, 2, 3]), HashDigest([7; 32]), NOW);
    assert_eq!(state.try_download("/a.txt".to_string()).unwrap(), vec![1, 2, 3]);
    let listed = state.files();
    assert_eq!(listed.len(), 1);
    assert_eq!(listed[0].hash, "07".repeat(32));
    assert_eq!(listed[0].headers, vec![("Content-Type".to_string(), "text/plain".to_string())]);

    // A second path under the same digest shares the stored content.
    state.publish_upload(file("/b.txt", vec![9, 9, 9]), HashDigest([7; 32]), NOW + 1);
    assert_eq!(state.try_download("/b.txt".to_string()).unwrap(), vec![1, 2, 3]);
    assert_eq!(state.business_assets_get(&HashDigest([7; 32])).unwrap().len(), 3);

    // Republishing the first path under another digest keeps the shared content for the second.
    state.publish_upload(file("/a.txt", vec![4, 5]), HashDigest([8; 32]), NOW + 2);
    assert_eq!(state.try_download("/a.txt".to_string()).unwrap(), vec![4, 5]);
    assert_eq!(state.try_download("/b.txt".to_string()).unwrap(), vec![1, 2, 3]);
    assert_eq!(state.business_assets_get_file(&"/a.txt".to_string()).unwrap().created, NOW + 2);
}

#[test]
fn untrusted_upload_is_named_by_its_sha256_digest() {
    let mut state = InnerState::new();
    let data = b"hello storage".to_vec();
    state
        .try_put_uploading_at(upload_arg("/h.txt", [0; 32], data.clone(), data.len() as u64, 0, data.len() as u32), NOW)
        .unwrap();
    let digest = sha256(&data);
    assert!(state.business_assets_get(&HashDigest(digest)).is_some());
    assert_eq!(state.files()[0].hash, hex_of(&digest));
}

fn hex_of(bytes: &[u8]) -> String {
    bytes.iter().map(|b| format!("{b:02x}")).collect()
}

#[test]
fn a_file_larger_than_a_direct_query_is_read_by_range() {
    let mut state = InnerState::new();
    let size: usize = 4 * 1024 * 1024 + 5;
    let chunk_size: usize = 2 * 1024 * 1024;
    let content: Vec<u8> = (0..size).map(|i| (i % 251) as u8).collect();
    let chunks = (size + chunk_size - 1) / chunk_size;
    for index in (0..chunks).rev() {
        let start = index * chunk_size;
        let end = std::cmp::min(start + chunk_size, size);
        state
            .try_put_uploading_at(
                upload_arg("/big.bin", [0; 32], content[start..end].to_vec(), size as u64, index as u32, chunk_size as u32),
                NOW,
            )
            .unwrap();
    }
    assert!(state.uploading_get(&"/big.bin".to_string()).is_none());
    let file = state.business_assets_get_file(&"/big.bin".to_string()).unwrap();
    assert_eq!(file.size, size as u64);
    assert_eq!(file.hash, HashDigest(sha256(&content)));
    assert_eq!(
        state.try_download("/big.bin".to_string()),
        Err(DownloadError::DirectDownloadTooLarge)
    );
    let offset = 3 * 1024 * 1024 + 7;
    let part = state.try_download_by("/big.bin".to_string(), offset as u64, 1000).unwrap();
    assert_eq!(part, content[offset..offset + 1000].to_vec());
    let tail = state.try_download_by("/big.bin".to_string(), (size - 5) as u64, 5).unwrap();
    assert_eq!(tail, content[size - 5..].to_vec());
}

#[test]
fn snapshot_uploads_must_be_laid_out_as_their_sizes_say() {
    let parts = || {
        let mut state = InnerState::new();
        state
            .try_put_uploading_at(upload_arg("/a", [0; 32], vec![1, 2], 5, 0, 2), NOW)
            .unwrap();
        state.into_parts()
    };
    let (hashed, assets, files, uploading) = parts();
    assert_eq!(uploading.len(), 1);
    assert_eq!(uploading[0].chunks, 3);
    assert_eq!(uploading[0].chunked, vec![true, false, false]);
    assert!(InnerState::from_parts(hashed, assets, files, uploading).is_some());

    let (hashed, assets, files, mut short) = parts();
    short[0].data.pop();
    assert!(InnerState::from_parts(hashed, assets, files, short).is_none());

    let (hashed, assets, files, mut miscounted) = parts();
    miscounted[0].chunks = 2;
    miscounted[0].chunked = vec![true, false];
    assert!(InnerState::from_parts(hashed, assets, files, miscounted).is_none());

    let (hashed, assets, files, mut flags) = parts();
    flags[0].chunked.push(false);
    assert!(InnerState::from_parts(hashed, assets, files, flags).is_none());
}

#[test]
fn chunks_sent_in_separate_calls_at_different_times_publish_the_file() {
    let mut state = InnerState::new();
    state.put_uploading_at(upload_arg("/t.bin", [0; 32], vec![3], 3, 1, 2), NOW);
    state.put_uploading_at(upload_arg("/t.bin", [0; 32], vec![1, 2], 3, 0, 2), NOW + 50);
    assert_eq!(state.download("/t.bin".to_string()), vec![1, 2, 3]);
    assert_eq!(state.download_by("/t.bin".to_string(), 1, 2), vec![2, 3]);
    let file = state.business_assets_get_file(&"/t.bin".to_string()).unwrap();
    assert_eq!(file.created, NOW + 50);
    assert_eq!(file.modified, NOW + 50);
}

#[test]
fn deleting_a_batch_removes_its_paths() {
    let mut state = InnerState::new();
    state.put_uploading_at(upload_arg("/d.bin", [0; 32], vec![1], 1, 0, 1), NOW);
    state.business_delete(vec!["/d.bin".to_string()]);
    assert!(state.business_assets_get_file(&"/d.bin".to_string()).is_none());
}
