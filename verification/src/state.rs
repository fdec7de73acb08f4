//! The storage's state: published files, the assets they name, and uploads in progress.

use crate::assets::{AssetData, AssetFile, DownloadError, FileView, slice_result};
use crate::digest::{HashDigest, hex_lower, sha256, sha256_digest};
use crate::keyed::{
    distinct_keys, has_key, lemma_to_map_sum, map_sum, sum_upto, lemma_push, lemma_remove, lemma_to_map_dom, lemma_to_map_full,
    lemma_to_map_pointwise, lemma_update,
    to_map,
};
use crate::upload::{
    UploadError, UploadView, UploadingArg, UploadingFile, as_result, chunk_count, chunk_range,
    try_check_delete_batch, try_check_upload_batch, delete_batch_fault, lemma_chunk_count, lemma_chunk_range,
    path_and_headers_fault, upload_batch_fault, size_and_data_fault, sizes_ok,
};
use vstd::prelude::*;

verus! {

/// The paths that publish one content digest.
pub struct HashedPath(pub Vec<String>);

pub open spec fn string_key() -> spec_fn(String) -> Seq<char> {
    |s: String| s@
}

impl View for HashedPath {
    type V = Set<Seq<char>>;

    open spec fn view(&self) -> Set<Seq<char>> {
        to_map(self.0@, string_key()).dom()
    }
}

/// A stored content under its digest.
pub struct AssetEntry {
    pub hash: HashDigest,
    pub data: AssetData,
}

/// The paths that publish a digest, under that digest.
pub struct HashEntry {
    pub hash: HashDigest,
    pub paths: HashedPath,
}

/// A file as `files` lists it.
pub struct QueryFile {
    pub path: String,
    pub size: u64,
    pub headers: Vec<(String, String)>,
    pub created: i128,
    pub modified: i128,
    /// The content digest in lower-case hexadecimal.
    pub hash: String,
}

pub open spec fn asset_key() -> spec_fn(AssetEntry) -> Seq<u8> {
    |e: AssetEntry| e.hash@
}

pub open spec fn file_key() -> spec_fn(AssetFile) -> Seq<char> {
    |f: AssetFile| f.path@
}

pub open spec fn hash_key() -> spec_fn(HashEntry) -> Seq<u8> {
    |e: HashEntry| e.hash@
}

pub open spec fn upload_key() -> spec_fn(UploadingFile) -> Seq<char> {
    |u: UploadingFile| u.path@
}

pub open spec fn query_key() -> spec_fn(QueryFile) -> Seq<char> {
    |q: QueryFile| q.path@
}

/// The digests that some published file names.
pub open spec fn file_hashes(files: Map<Seq<char>, FileView>) -> Set<Seq<u8>> {
    Set::new(|h: Seq<u8>| exists|p: Seq<char>| files.contains_key(p) && #[trigger] files[p].hash == h)
}

/// The published paths whose content has digest `h`.
pub open spec fn paths_with_hash(files: Map<Seq<char>, FileView>, h: Seq<u8>) -> Set<Seq<char>> {
    Set::new(|p: Seq<char>| files.contains_key(p) && files[p].hash == h)
}

/// An upload in progress at path `p` is laid out as its sizes say: sizes
/// that can be stored, as many bytes as the file's size, and one received
/// flag for each of its chunks.
pub open spec fn upload_consistent(p: Seq<char>, u: UploadView) -> bool {
    &&& u.path == p
    &&& sizes_ok(u.size, u.chunk_size)
    &&& u.data.len() == u.size
    &&& u.chunks == chunk_count(u.size as int, u.chunk_size as int)
    &&& u.chunked.len() == u.chunks
}

/// Every upload in progress is laid out as its sizes say.
pub open spec fn uploads_consistent(uploading: Map<Seq<char>, UploadView>) -> bool {
    forall|p: Seq<char>| #[trigger] uploading.contains_key(p) ==> upload_consistent(p, uploading[p])
}

/// Dropping an upload keeps the others laid out as their sizes say.
pub proof fn lemma_consistent_remove(uploading: Map<Seq<char>, UploadView>, p: Seq<char>)
    requires
        uploads_consistent(uploading),
    ensures
        uploads_consistent(uploading.remove(p)),
{
    assert forall|q: Seq<char>| #[trigger] uploading.remove(p).contains_key(q) implies upload_consistent(
        q,
        uploading.remove(p)[q],
    ) by {
        assert(uploading.contains_key(q));
    }
}

/// The listing entry of a published file.
pub open spec fn query_of(f: FileView, q: QueryFile) -> bool {
    &&& q.path@ == f.path
    &&& q.size == f.size
    &&& q.headers@ == f.headers
    &&& q.created == f.created
    &&& q.modified == f.modified
    &&& q.hash@ == hex_lower(f.hash)
}

/// Largest response to a direct query, from `ic_canister_kit::http::MAX_RESPONSE_LENGTH`.
pub open spec fn max_direct_download() -> u64 {
    3080192
}

/// Reads `ic_canister_kit::http::MAX_RESPONSE_LENGTH`, which its source sets
/// to 3 MiB less 64 KiB; the contract claims that value.
#[verifier::external_body]
fn max_direct_download_size() -> (n: u64)
    ensures
        n == max_direct_download(),
{
    ic_canister_kit::http::MAX_RESPONSE_LENGTH as u64
}

/// The heap state of the storage.
pub struct InnerState {
    hashed: bool,
    assets: Vec<AssetEntry>,
    files: Vec<AssetFile>,
    hashes: Vec<HashEntry>,
    uploading: Vec<UploadingFile>,
}

impl InnerState {
    /// Whether the digest sent with an upload is trusted as the name of the
    /// file's content, or the storage computes it when the upload completes.
    pub closed spec fn trusts_digests(&self) -> bool {
        self.hashed
    }

    /// Stored contents, by digest.
    pub closed spec fn assets_view(&self) -> Map<Seq<u8>, Seq<u8>> {
        to_map(self.assets@, asset_key()).map_values(|e: AssetEntry| e.data@)
    }

    /// Published files, by path.
    pub closed spec fn files_view(&self) -> Map<Seq<char>, FileView> {
        to_map(self.files@, file_key()).map_values(|f: AssetFile| f@)
    }

    /// The paths that publish each digest.
    pub closed spec fn hashes_view(&self) -> Map<Seq<u8>, Set<Seq<char>>> {
        to_map(self.hashes@, hash_key()).map_values(|e: HashEntry| e.paths@)
    }

    /// Uploads in progress, by path.
    pub closed spec fn uploading_view(&self) -> Map<Seq<char>, UploadView> {
        to_map(self.uploading@, upload_key()).map_values(|u: UploadingFile| u@)
    }

    /// The digest index agrees with the published files.
    pub closed spec fn index_ok(&self) -> bool {
        &&& self.hashes_view().dom() == file_hashes(self.files_view())
        &&& forall|h: Seq<u8>| #[trigger]
            self.hashes_view().contains_key(h) ==> self.hashes_view()[h] == paths_with_hash(
                self.files_view(),
                h,
            )
    }

    /// Every table holds each key once.
    pub closed spec fn tables_ok(&self) -> bool {
        &&& distinct_keys(self.assets@, asset_key())
        &&& distinct_keys(self.files@, file_key())
        &&& distinct_keys(self.hashes@, hash_key())
        &&& distinct_keys(self.uploading@, upload_key())
        &&& entries_distinct(self.hashes@)
    }

    /// The state is well formed: its tables hold each key once, a content is
    /// stored exactly when some published file names it, the digest index
    /// lists, for each such digest, exactly the paths that publish it, and
    /// every upload in progress is laid out as its sizes say.
    pub closed spec fn wf(&self) -> bool {
        &&& self.tables_ok()
        &&& self.assets_view().dom() == file_hashes(self.files_view())
        &&& self.index_ok()
        &&& uploads_consistent(self.uploading_view())
    }

    /// Sum of the lengths of the stored contents.
    pub closed spec fn stored_bytes(&self) -> int {
        asset_bytes_upto(self.assets@, self.assets@.len() as int)
    }

    /// Sum of the sizes of the uploads in progress.
    pub closed spec fn buffered_bytes(&self) -> int {
        upload_bytes_upto(self.uploading@, self.uploading@.len() as int)
    }
}

/// The length of a stored content.
pub open spec fn content_len() -> spec_fn(Seq<u8>) -> int {
    |d: Seq<u8>| d.len() as int
}

/// The size of an upload in progress.
pub open spec fn upload_size() -> spec_fn(UploadView) -> int {
    |u: UploadView| u.size as int
}

/// Bytes that the stored contents take together.
pub open spec fn stored_total(assets: Map<Seq<u8>, Seq<u8>>) -> int {
    map_sum(assets, content_len())
}

/// Bytes that the uploads in progress take together.
pub open spec fn buffered_total(uploading: Map<Seq<char>, UploadView>) -> int {
    map_sum(uploading, upload_size())
}

/// The storage is within its limits: at most `MAX_ACTIVE_UPLOADS` uploads in
/// progress, and stored contents and uploads in progress together take at
/// most `MAX_ASSET_STATE_BYTES` bytes.
pub open spec fn within_limits(m: StateModel) -> bool {
    &&& m.assets.dom().finite()
    &&& m.uploading.dom().finite()
    &&& m.uploading.dom().len() <= MAX_ACTIVE_UPLOADS
    &&& stored_total(m.assets) + buffered_total(m.uploading) <= MAX_ASSET_STATE_BYTES
}

proof fn lemma_asset_bytes_sum(s: Seq<AssetEntry>, g: spec_fn(AssetEntry) -> int, n: int)
    requires
        forall|e: AssetEntry| #[trigger] g(e) == e.data@.len(),
    ensures
        asset_bytes_upto(s, n) == sum_upto(s, g, n),
    decreases n,
{
    if n > 0 {
        lemma_asset_bytes_sum(s, g, n - 1);
    }
}

proof fn lemma_upload_bytes_sum(s: Seq<UploadingFile>, g: spec_fn(UploadingFile) -> int, n: int)
    requires
        forall|u: UploadingFile| #[trigger] g(u) == u.size,
    ensures
        upload_bytes_upto(s, n) == sum_upto(s, g, n),
    decreases n,
{
    if n > 0 {
        lemma_upload_bytes_sum(s, g, n - 1);
    }
}

impl InnerState {
    /// The measures that the capacity check reads are those of the visible
    /// tables: the number of uploads in progress, the bytes of the stored
    /// contents and the sizes of the uploads in progress.
    pub proof fn lemma_capacity_measures(&self)
        requires
            self.wf(),
        ensures
            self.assets_view().dom().finite(),
            self.uploading_view().dom().finite(),
            self.active_uploads() == self.uploading_view().dom().len(),
            self.stored_bytes() == stored_total(self.assets_view()),
            self.buffered_bytes() == buffered_total(self.uploading_view()),
    {
        let a = self.assets@;
        let u = self.uploading@;
        lemma_to_map_sum(a, asset_key(), |e: AssetEntry| e.data@, content_len(), a.len() as int);
        lemma_to_map_sum(u, upload_key(), |f: UploadingFile| f@, upload_size(), u.len() as int);
        assert(a.take(a.len() as int) =~= a);
        assert(u.take(u.len() as int) =~= u);
        lemma_asset_bytes_sum(a, |e: AssetEntry| content_len()((|e: AssetEntry| e.data@)(e)), a.len() as int);
        lemma_upload_bytes_sum(u, |f: UploadingFile| upload_size()((|f: UploadingFile| f@)(f)), u.len() as int);
        assert(to_map(a, asset_key()).map_values(|e: AssetEntry| e.data@).dom() =~= to_map(a, asset_key()).dom());
        assert(to_map(u, upload_key()).map_values(|f: UploadingFile| f@).dom() =~= to_map(u, upload_key()).dom());
    }
}

pub open spec fn asset_bytes_upto(s: Seq<AssetEntry>, n: int) -> int
    decreases n,
{
    if n <= 0 {
        0
    } else {
        asset_bytes_upto(s, n - 1) + s[n - 1].data@.len()
    }
}

pub open spec fn upload_bytes_upto(s: Seq<UploadingFile>, n: int) -> int
    decreases n,
{
    if n <= 0 {
        0
    } else {
        upload_bytes_upto(s, n - 1) + s[n - 1].size
    }
}

/// What a direct download of a path gives.
pub open spec fn download_result(
    files: Map<Seq<char>, FileView>,
    assets: Map<Seq<u8>, Seq<u8>>,
    path: Seq<char>,
) -> Result<Seq<u8>, DownloadError> {
    if !files.contains_key(path) {
        Err(DownloadError::FileNotFound)
    } else if files[path].size > max_direct_download() {
        Err(DownloadError::DirectDownloadTooLarge)
    } else if !assets.contains_key(files[path].hash) {
        Err(DownloadError::FileNotFound)
    } else if files[path].size > usize::MAX {
        Err(DownloadError::FileSizeOutOfAddressRange)
    } else {
        slice_result(
            assets[files[path].hash],
            files[path].size,
            0,
            files[path].size as usize,
        )
    }
}

/// What downloading `size` bytes at `offset` of a path gives.
pub open spec fn download_by_result(
    files: Map<Seq<char>, FileView>,
    assets: Map<Seq<u8>, Seq<u8>>,
    path: Seq<char>,
    offset: u64,
    size: u64,
) -> Result<Seq<u8>, DownloadError> {
    if size > max_direct_download() {
        Err(DownloadError::DownloadSizeTooLarge)
    } else if !files.contains_key(path) {
        Err(DownloadError::FileNotFound)
    } else if !assets.contains_key(files[path].hash) {
        Err(DownloadError::FileNotFound)
    } else if offset > usize::MAX {
        Err(DownloadError::OffsetOutOfAddressRange)
    } else if size > usize::MAX {
        Err(DownloadError::SizeOutOfAddressRange)
    } else {
        slice_result(assets[files[path].hash], files[path].size, offset as usize, size as usize)
    }
}

/// Copies a list of headers.
pub fn clone_headers(headers: &Vec<(String, String)>) -> (r: Vec<(String, String)>)
    ensures
        r@ == headers@,
{
    let mut r: Vec<(String, String)> = Vec::new();
    let mut i: usize = 0;
    while i < headers.len()
        invariant
            i <= headers@.len(),
            r@ == headers@.subrange(0, i as int),
        decreases headers@.len() - i,
    {
        let (name, value) = &headers[i];
        r.push((name.clone(), value.clone()));
        i = i + 1;
    }
    assert(headers@.subrange(0, headers@.len() as int) =~= headers@);
    r
}

impl InnerState {
    /// An empty storage that does not trust uploaded digests.
    pub fn new() -> (s: Self)
        ensures
            s.wf(),
            !s.trusts_digests(),
            s.files_view() == Map::<Seq<char>, FileView>::empty(),
            s.assets_view() == Map::<Seq<u8>, Seq<u8>>::empty(),
            s.hashes_view() == Map::<Seq<u8>, Set<Seq<char>>>::empty(),
            s.uploading_view() == Map::<Seq<char>, UploadView>::empty(),
    {
        let s = InnerState {
            hashed: false,
            assets: Vec::new(),
            files: Vec::new(),
            hashes: Vec::new(),
            uploading: Vec::new(),
        };
        assert(s.assets_view() =~= Map::<Seq<u8>, Seq<u8>>::empty());
        assert(s.hashes_view() =~= Map::<Seq<u8>, Set<Seq<char>>>::empty());
        assert(file_hashes(s.files_view()) =~= Set::<Seq<u8>>::empty());
        s
    }

    fn find_file(&self, path: &String) -> (r: Option<usize>)
        requires
            self.tables_ok(),
        ensures
            match r {
                Some(i) => i < self.files@.len() && self.files@[i as int].path@ == path@,
                None => !has_key(self.files@, file_key(), path@),
            },
    {
        let mut i: usize = 0;
        while i < self.files.len()
            invariant
                i <= self.files@.len(),
                forall|j: int| 0 <= j < i ==> #[trigger] self.files@[j].path@ != path@,
            decreases self.files@.len() - i,
        {
            if self.files[i].path == *path {
                return Some(i);
            }
            i = i + 1;
        }
        None
    }

    fn find_asset(&self, hash: &HashDigest) -> (r: Option<usize>)
        requires
            self.tables_ok(),
        ensures
            match r {
                Some(i) => i < self.assets@.len() && self.assets@[i as int].hash@ == hash@,
                None => !has_key(self.assets@, asset_key(), hash@),
            },
    {
        let mut i: usize = 0;
        while i < self.assets.len()
            invariant
                i <= self.assets@.len(),
                forall|j: int| 0 <= j < i ==> #[trigger] self.assets@[j].hash@ != hash@,
            decreases self.assets@.len() - i,
        {
            if self.assets[i].hash.same_as(hash) {
                return Some(i);
            }
            i = i + 1;
        }
        None
    }

    fn find_hash(&self, hash: &HashDigest) -> (r: Option<usize>)
        requires
            self.tables_ok(),
        ensures
            match r {
                Some(i) => i < self.hashes@.len() && self.hashes@[i as int].hash@ == hash@,
                None => !has_key(self.hashes@, hash_key(), hash@),
            },
    {
        let mut i: usize = 0;
        while i < self.hashes.len()
            invariant
                i <= self.hashes@.len(),
                forall|j: int| 0 <= j < i ==> #[trigger] self.hashes@[j].hash@ != hash@,
            decreases self.hashes@.len() - i,
        {
            if self.hashes[i].hash.same_as(hash) {
                return Some(i);
            }
            i = i + 1;
        }
        None
    }

    fn find_upload(&self, path: &String) -> (r: Option<usize>)
        requires
            self.tables_ok(),
        ensures
            match r {
                Some(i) => i < self.uploading@.len() && self.uploading@[i as int].path@ == path@,
                None => !has_key(self.uploading@, upload_key(), path@),
            },
    {
        let mut i: usize = 0;
        while i < self.uploading.len()
            invariant
                i <= self.uploading@.len(),
                forall|j: int| 0 <= j < i ==> #[trigger] self.uploading@[j].path@ != path@,
            decreases self.uploading@.len() - i,
        {
            if self.uploading[i].path == *path {
                return Some(i);
            }
            i = i + 1;
        }
        None
    }
}

} // verus!

verus! {

impl InnerState {
    /// Whether uploaded digests are trusted.
    pub fn business_hashed_find(&self) -> (r: bool)
        ensures
            r == self.trusts_digests(),
    {
        self.hashed
    }

    /// Sets whether uploaded digests are trusted; nothing else changes.
    pub fn business_hashed_update(&mut self, hashed: bool)
        requires
            old(self).wf(),
        ensures
            final(self).wf(),
            final(self).trusts_digests() == hashed,
            final(self).files_view() == old(self).files_view(),
            final(self).assets_view() == old(self).assets_view(),
            final(self).hashes_view() == old(self).hashes_view(),
            final(self).uploading_view() == old(self).uploading_view(),
            final(self).stored_bytes() == old(self).stored_bytes(),
            final(self).buffered_bytes() == old(self).buffered_bytes(),
    {
        self.hashed = hashed;
    }

    /// The published file at a path.
    pub fn business_assets_get_file(&self, path: &String) -> (r: Option<&AssetFile>)
        requires
            self.wf(),
        ensures
            match r {
                Some(f) => self.files_view().contains_key(path@) && f@ == self.files_view()[path@],
                None => !self.files_view().contains_key(path@),
            },
    {
        proof {
            lemma_to_map_full(self.files@, file_key());
        }
        match self.find_file(path) {
            Some(i) => Some(&self.files[i]),
            None => None,
        }
    }

    /// The stored content with a digest.
    pub fn business_assets_get(&self, hash: &HashDigest) -> (r: Option<&AssetData>)
        requires
            self.wf(),
        ensures
            match r {
                Some(a) => self.assets_view().contains_key(hash@) && a@ == self.assets_view()[hash@],
                None => !self.assets_view().contains_key(hash@),
            },
    {
        proof {
            lemma_to_map_full(self.assets@, asset_key());
        }
        match self.find_asset(hash) {
            Some(i) => Some(&self.assets[i].data),
            None => None,
        }
    }

    /// The paths recorded under a digest in the digest index.
    pub fn hashes_get(&self, hash: &HashDigest) -> (r: Option<&HashedPath>)
        requires
            self.wf(),
        ensures
            match r {
                Some(p) => self.hashes_view().contains_key(hash@) && p@ == self.hashes_view()[hash@],
                None => !self.hashes_view().contains_key(hash@),
            },
    {
        proof {
            lemma_to_map_full(self.hashes@, hash_key());
        }
        match self.find_hash(hash) {
            Some(i) => Some(&self.hashes[i].paths),
            None => None,
        }
    }

    /// The upload in progress at a path.
    pub fn uploading_get(&self, path: &String) -> (r: Option<&UploadingFile>)
        requires
            self.wf(),
        ensures
            match r {
                Some(u) => self.uploading_view().contains_key(path@) && u@ == self.uploading_view()[path@],
                None => !self.uploading_view().contains_key(path@),
            },
    {
        proof {
            lemma_to_map_full(self.uploading@, upload_key());
        }
        match self.find_upload(path) {
            Some(i) => Some(&self.uploading[i]),
            None => None,
        }
    }

    /// Lists every published file once, in no particular order.
    pub fn files(&self) -> (r: Vec<QueryFile>)
        requires
            self.wf(),
        ensures
            distinct_keys(r@, query_key()),
            forall|i: int|
                0 <= i < r@.len() ==> self.files_view().contains_key(#[trigger] r@[i].path@)
                    && query_of(self.files_view()[r@[i].path@], r@[i]),
            forall|p: Seq<char>|
                self.files_view().contains_key(p) ==> exists|i: int|
                    0 <= i < r@.len() && #[trigger] r@[i].path@ == p,
    {
        proof {
            lemma_to_map_full(self.files@, file_key());
        }
        let mut r: Vec<QueryFile> = Vec::new();
        let mut i: usize = 0;
        while i < self.files.len()
            invariant
                self.tables_ok(),
                i <= self.files@.len(),
                r@.len() == i,
                forall|j: int| 0 <= j < i ==> query_of(self.files@[j]@, #[trigger] r@[j]),
            decreases self.files@.len() - i,
        {
            let f = &self.files[i];
            let q = QueryFile {
                path: f.path.clone(),
                size: f.size,
                headers: clone_headers(&f.headers),
                created: f.created,
                modified: f.modified,
                hash: f.hash.hex(),
            };
            r.push(q);
            i = i + 1;
        }
        assert forall|a: int, b: int|
            0 <= a < r@.len() && 0 <= b < r@.len() && a != b implies query_key()(r@[a])
            != query_key()(r@[b]) by {
            assert(query_of(self.files@[a]@, r@[a]));
            assert(query_of(self.files@[b]@, r@[b]));
        }
        assert forall|p: Seq<char>| self.files_view().contains_key(p) implies exists|i: int|
            0 <= i < r@.len() && #[trigger] r@[i].path@ == p by {
            let j = choose|j: int| 0 <= j < self.files@.len() && file_key()(self.files@[j]) == p;
            assert(query_of(self.files@[j]@, r@[j]));
        }
        assert forall|j: int| 0 <= j < r@.len() implies self.files_view().contains_key(
            #[trigger] r@[j].path@,
        ) && query_of(self.files_view()[r@[j].path@], r@[j]) by {
            assert(query_of(self.files@[j]@, r@[j]));
            assert(to_map(self.files@, file_key())[file_key()(self.files@[j])] == self.files@[j]);
        }
        r
    }

    /// Reads a whole file, when it is small enough for a direct query; else
    /// says why not.
    pub fn try_download(&self, path: String) -> (r: Result<Vec<u8>, DownloadError>)
        requires
            self.wf(),
        ensures
            match (r, download_result(self.files_view(), self.assets_view(), path@)) {
                (Ok(v), Ok(d)) => v@ == d,
                (Err(e), Err(f)) => e == f,
                _ => false,
            },
    {
        proof {
            lemma_to_map_full(self.files@, file_key());
            lemma_to_map_full(self.assets@, asset_key());
        }
        let fi = match self.find_file(&path) {
            Some(i) => i,
            None => return Err(DownloadError::FileNotFound),
        };
        let file = &self.files[fi];
        proof {
            assert(to_map(self.files@, file_key())[file_key()(self.files@[fi as int])] == self.files@[fi as int]);
        }
        if file.size > max_direct_download_size() {
            return Err(DownloadError::DirectDownloadTooLarge);
        }
        let ai = match self.find_asset(&file.hash) {
            Some(i) => i,
            None => return Err(DownloadError::FileNotFound),
        };
        let asset = &self.assets[ai].data;
        proof {
            assert(to_map(self.assets@, asset_key())[asset_key()(self.assets@[ai as int])]
                == self.assets@[ai as int]);
        }
        if file.size > usize::MAX as u64 {
            return Err(DownloadError::FileSizeOutOfAddressRange);
        }
        let size = file.size as usize;
        match asset.try_slice(&file.hash, file.size, 0, size) {
            Ok(s) => Ok(vstd::slice::slice_to_vec(s)),
            Err(e) => Err(e),
        }
    }

    /// Reads `size` bytes at `offset` of a file, when `size` fits a direct
    /// query and the range lies inside the file; else says why not.
    pub fn try_download_by(&self, path: String, offset: u64, size: u64) -> (r: Result<
        Vec<u8>,
        DownloadError,
    >)
        requires
            self.wf(),
        ensures
            match (r, download_by_result(self.files_view(), self.assets_view(), path@, offset, size)) {
                (Ok(v), Ok(d)) => v@ == d,
                (Err(e), Err(f)) => e == f,
                _ => false,
            },
    {
        proof {
            lemma_to_map_full(self.files@, file_key());
            lemma_to_map_full(self.assets@, asset_key());
        }
        if size > max_direct_download_size() {
            return Err(DownloadError::DownloadSizeTooLarge);
        }
        let fi = match self.find_file(&path) {
            Some(i) => i,
            None => return Err(DownloadError::FileNotFound),
        };
        let file = &self.files[fi];
        proof {
            assert(to_map(self.files@, file_key())[file_key()(self.files@[fi as int])] == self.files@[fi as int]);
        }
        let ai = match self.find_asset(&file.hash) {
            Some(i) => i,
            None => return Err(DownloadError::FileNotFound),
        };
        let asset = &self.assets[ai].data;
        proof {
            assert(to_map(self.assets@, asset_key())[asset_key()(self.assets@[ai as int])]
                == self.assets@[ai as int]);
        }
        if offset > usize::MAX as u64 {
            return Err(DownloadError::OffsetOutOfAddressRange);
        }
        if size > usize::MAX as u64 {
            return Err(DownloadError::SizeOutOfAddressRange);
        }
        match asset.try_slice(&file.hash, file.size, offset as usize, size as usize) {
            Ok(s) => Ok(vstd::slice::slice_to_vec(s)),
            Err(e) => Err(e),
        }
    }

    /// Reads a whole file that is published, stored and small enough for a
    /// direct query; on any other path this panics with the reason.
    pub fn download(&self, path: String) -> (r: Vec<u8>)
        requires
            self.wf(),
            download_result(self.files_view(), self.assets_view(), path@) is Ok,
        ensures
            r@ == download_result(self.files_view(), self.assets_view(), path@)->Ok_0,
    {
        match self.try_download(path) {
            Ok(v) => v,
            Err(e) => Option::<Vec<u8>>::None.expect(e.message()),
        }
    }

    /// Reads `size` bytes at `offset` of a file, where `size` fits a direct
    /// query and the range lies inside the file; on any other request this
    /// panics with the reason.
    pub fn download_by(&self, path: String, offset: u64, size: u64) -> (r: Vec<u8>)
        requires
            self.wf(),
            download_by_result(self.files_view(), self.assets_view(), path@, offset, size) is Ok,
        ensures
            r@ == download_by_result(self.files_view(), self.assets_view(), path@, offset, size)->Ok_0,
    {
        match self.try_download_by(path, offset, size) {
            Ok(v) => v,
            Err(e) => Option::<Vec<u8>>::None.expect(e.message()),
        }
    }

    /// Drops the upload in progress at a path, if any; nothing else changes.
    pub fn clean_uploading(&mut self, path: &String)
        requires
            old(self).wf(),
        ensures
            final(self).wf(),
            final(self).uploading_view() == old(self).uploading_view().remove(path@),
            final(self).files_view() == old(self).files_view(),
            final(self).assets_view() == old(self).assets_view(),
            final(self).hashes_view() == old(self).hashes_view(),
            final(self).trusts_digests() == old(self).trusts_digests(),
            final(self).stored_bytes() == old(self).stored_bytes(),
    {
        proof {
            lemma_to_map_full(self.uploading@, upload_key());
        }
        match self.find_upload(path) {
            Some(i) => {
                proof {
                    lemma_remove(self.uploading@, upload_key(), i as int);
                }
                let ghost before = self.uploading_view();
                self.uploading.remove(i);
                proof {
                    assert(self.uploading_view() =~= before.remove(path@));
                    lemma_consistent_remove(before, path@);
                }
            },
            None => {
                assert(self.uploading_view().remove(path@) =~= self.uploading_view());
            },
        }
    }
}

} // verus!

verus! {

impl HashedPath {
    /// Adds a path to the set.
    #[verifier::loop_isolation(false)]
    pub fn insert_path(&mut self, path: String)
        requires
            distinct_keys(old(self).0@, string_key()),
        ensures
            distinct_keys(final(self).0@, string_key()),
            final(self)@ == old(self)@.insert(path@),
    {
        let mut i: usize = 0;
        while i < self.0.len()
            invariant
                i <= self.0@.len(),
                forall|j: int| 0 <= j < i ==> #[trigger] self.0@[j]@ != path@,
            decreases self.0@.len() - i,
        {
            if self.0[i] == path {
                proof {
                    lemma_to_map_dom(self.0@, string_key(), path@);
                    assert(string_key()(self.0@[i as int]) == path@);
                    assert(self@.insert(path@) =~= self@);
                }
                return;
            }
            i = i + 1;
        }
        proof {
            assert(!has_key(self.0@, string_key(), path@)) by {
                if has_key(self.0@, string_key(), path@) {
                    let j = choose|j: int| 0 <= j < self.0@.len() && string_key()(self.0@[j]) == path@;
                    assert(self.0@[j]@ != path@);
                }
            }
            lemma_push(self.0@, string_key(), path);
        }
        self.0.push(path);
    }

    /// Removes a path from the set.
    #[verifier::loop_isolation(false)]
    pub fn remove_path(&mut self, path: &String)
        requires
            distinct_keys(old(self).0@, string_key()),
        ensures
            distinct_keys(final(self).0@, string_key()),
            final(self)@ == old(self)@.remove(path@),
    {
        let mut i: usize = 0;
        while i < self.0.len()
            invariant
                i <= self.0@.len(),
                self.0@ == old(self).0@,
                distinct_keys(self.0@, string_key()),
                forall|j: int| 0 <= j < i ==> #[trigger] self.0@[j]@ != path@,
            decreases self.0@.len() - i,
        {
            if self.0[i] == *path {
                proof {
                    lemma_remove(self.0@, string_key(), i as int);
                    assert(string_key()(self.0@[i as int]) == path@);
                }
                self.0.remove(i);
                return;
            }
            i = i + 1;
        }
        proof {
            assert(!has_key(self.0@, string_key(), path@)) by {
                if has_key(self.0@, string_key(), path@) {
                    let j = choose|j: int| 0 <= j < self.0@.len() && string_key()(self.0@[j]) == path@;
                    assert(self.0@[j]@ != path@);
                }
            }
            lemma_to_map_dom(self.0@, string_key(), path@);
            assert(self@.remove(path@) =~= self@);
        }
    }
}

} // verus!

verus! {

/// Every index entry lists each path once.
pub open spec fn entries_distinct(s: Seq<HashEntry>) -> bool {
    forall|k: int| 0 <= k < s.len() ==> distinct_keys(#[trigger] s[k].paths.0@, string_key())
}

proof fn lemma_entries_update(s: Seq<HashEntry>, i: int, e: HashEntry)
    requires
        entries_distinct(s),
        distinct_keys(e.paths.0@, string_key()),
        0 <= i < s.len(),
    ensures
        entries_distinct(s.update(i, e)),
{
    assert forall|k: int| 0 <= k < s.update(i, e).len() implies distinct_keys(
        #[trigger] s.update(i, e)[k].paths.0@,
        string_key(),
    ) by {
        if k != i {
            assert(s.update(i, e)[k] == s[k]);
        }
    }
}

proof fn lemma_entries_push(s: Seq<HashEntry>, e: HashEntry)
    requires
        entries_distinct(s),
        distinct_keys(e.paths.0@, string_key()),
    ensures
        entries_distinct(s.push(e)),
{
    assert forall|k: int| 0 <= k < s.push(e).len() implies distinct_keys(
        #[trigger] s.push(e)[k].paths.0@,
        string_key(),
    ) by {
        if k < s.len() {
            assert(s.push(e)[k] == s[k]);
        }
    }
}

proof fn lemma_entries_remove(s: Seq<HashEntry>, i: int)
    requires
        entries_distinct(s),
        0 <= i < s.len(),
    ensures
        entries_distinct(s.remove(i)),
{
    assert forall|k: int| 0 <= k < s.remove(i).len() implies distinct_keys(
        #[trigger] s.remove(i)[k].paths.0@,
        string_key(),
    ) by {
        if k < i {
            assert(s.remove(i)[k] == s[k]);
        } else {
            assert(s.remove(i)[k] == s[k + 1]);
        }
    }
}

impl InnerState {
    /// The digest index is right but for digest `h`, which still lists `path`
    /// and which the stored contents and the index may keep though no
    /// published file names it any more.
    pub closed spec fn cleaning(&self, h: Seq<u8>, path: Seq<char>) -> bool {
        &&& self.tables_ok()
        &&& self.assets_view().dom() == file_hashes(self.files_view()).insert(h)
        &&& self.hashes_view().dom() == file_hashes(self.files_view()).insert(h)
        &&& forall|g: Seq<u8>| #[trigger]
            self.hashes_view().contains_key(g) && g != h ==> self.hashes_view()[g]
                == paths_with_hash(self.files_view(), g)
        &&& self.hashes_view()[h] == paths_with_hash(self.files_view(), h).insert(path)
        &&& !paths_with_hash(self.files_view(), h).contains(path)
        &&& uploads_consistent(self.uploading_view())
    }

    proof fn lemma_file_hashes(&self, h: Seq<u8>)
        requires
            self.tables_ok(),
        ensures
            file_hashes(self.files_view()).contains(h) <==> exists|i: int|
                0 <= i < self.files@.len() && #[trigger] self.files@[i].hash@ == h,
    {
        lemma_to_map_full(self.files@, file_key());
        if file_hashes(self.files_view()).contains(h) {
            let p = choose|p: Seq<char>|
                self.files_view().contains_key(p) && #[trigger] self.files_view()[p].hash == h;
            let i = choose|i: int| 0 <= i < self.files@.len() && file_key()(self.files@[i]) == p;
            assert(to_map(self.files@, file_key())[file_key()(self.files@[i])] == self.files@[i]);
        }
        if exists|i: int| 0 <= i < self.files@.len() && #[trigger] self.files@[i].hash@ == h {
            let i = choose|i: int| 0 <= i < self.files@.len() && #[trigger] self.files@[i].hash@ == h;
            let p = self.files@[i].path@;
            assert(to_map(self.files@, file_key())[file_key()(self.files@[i])] == self.files@[i]);
            assert(self.files_view().contains_key(p) && self.files_view()[p].hash == h);
        }
    }

    /// Whether some published file has content digest `hash`.
    #[verifier::loop_isolation(false)]
    fn file_has_hash(&self, hash: &HashDigest) -> (r: bool)
        requires
            self.tables_ok(),
        ensures
            r == file_hashes(self.files_view()).contains(hash@),
    {
        proof {
            self.lemma_file_hashes(hash@);
        }
        let mut i: usize = 0;
        while i < self.files.len()
            invariant
                i <= self.files@.len(),
                forall|j: int| 0 <= j < i ==> #[trigger] self.files@[j].hash@ != hash@,
            decreases self.files@.len() - i,
        {
            if self.files[i].hash.same_as(hash) {
                return true;
            }
            i = i + 1;
        }
        false
    }

    /// Takes `path` out of the index entry of `hash`, and drops the entry and
    /// the stored content when no published file names `hash` any more.
    #[verifier::rlimit(30)]
    fn clean_hash_path(&mut self, hash: &HashDigest, path: &String)
        requires
            old(self).cleaning(hash@, path@),
        ensures
            final(self).wf(),
            final(self).files_view() == old(self).files_view(),
            final(self).uploading_view() == old(self).uploading_view(),
            final(self).trusts_digests() == old(self).trusts_digests(),
            final(self).assets_view() == old(self).assets_view().restrict(
                file_hashes(old(self).files_view()),
            ),
    {
        let ghost files = self.files_view();
        let ghost fh = file_hashes(files);
        proof {
            lemma_to_map_full(self.hashes@, hash_key());
            lemma_to_map_full(self.assets@, asset_key());
        }
        match self.find_hash(hash) {
            Some(i) => {
                let ghost old_hashes = self.hashes@;
                let mut entry = self.hashes.remove(i);
                proof {
                    assert(old_hashes.remove(i as int).insert(i as int, entry) =~= old_hashes);
                    assert(distinct_keys(entry.paths.0@, string_key()));
                }
                entry.paths.remove_path(path);
                let ghost new_entry = entry;
                self.hashes.insert(i, entry);
                proof {
                    assert(self.hashes@ =~= old_hashes.update(i as int, new_entry));
                    lemma_update(old_hashes, hash_key(), i as int, new_entry);
                    lemma_entries_update(old_hashes, i as int, new_entry);
                    assert(to_map(old_hashes, hash_key())[hash_key()(old_hashes[i as int])]
                        == old_hashes[i as int]);
                    assert(new_entry.paths@ =~= paths_with_hash(files, hash@));
                }
            },
            None => {},
        }
        proof {
            assert(self.hashes_view() =~= old(self).hashes_view().insert(
                hash@,
                paths_with_hash(files, hash@),
            ));
            lemma_to_map_full(self.hashes@, hash_key());
        }
        if !self.file_has_hash(hash) {
            match self.find_hash(hash) {
                Some(i) => {
                    let ghost before = self.hashes@;
                    proof {
                        lemma_remove(self.hashes@, hash_key(), i as int);
                        lemma_entries_remove(self.hashes@, i as int);
                    }
                    self.hashes.remove(i);
                    proof {
                        assert(self.hashes_view() =~= to_map(before, hash_key()).map_values(
                            |e: HashEntry| e.paths@,
                        ).remove(hash@));
                    }
                },
                None => {},
            }
            match self.find_asset(hash) {
                Some(i) => {
                    let ghost before = self.assets@;
                    proof {
                        lemma_remove(self.assets@, asset_key(), i as int);
                    }
                    self.assets.remove(i);
                    proof {
                        assert(self.assets_view() =~= to_map(before, asset_key()).map_values(
                            |e: AssetEntry| e.data@,
                        ).remove(hash@));
                    }
                },
                None => {},
            }
            proof {
                assert(self.assets_view().dom() =~= fh);
                assert(self.hashes_view().dom() =~= fh);
                assert(self.assets_view() =~= old(self).assets_view().restrict(fh));
            }
        } else {
            proof {
                assert(fh.insert(hash@) =~= fh);
                assert(self.assets_view() =~= old(self).assets_view().restrict(fh));
            }
        }
    }
}

} // verus!

verus! {

/// What the contracts say of the storage.
pub struct StateModel {
    pub hashed: bool,
    pub files: Map<Seq<char>, FileView>,
    pub assets: Map<Seq<u8>, Seq<u8>>,
    pub uploading: Map<Seq<char>, UploadView>,
}

/// Unpublishing a path: the file goes, and with it its content when no other
/// file names that content.
pub open spec fn clean_file_model(m: StateModel, path: Seq<char>) -> StateModel {
    let files = m.files.remove(path);
    StateModel { files, assets: m.assets.restrict(file_hashes(files)), ..m }
}

/// Publishing `fv` at a path: the path now names `fv`, and the content the
/// path named before goes when no other file names it.
pub open spec fn put_file_model(m: StateModel, path: Seq<char>, fv: FileView) -> StateModel {
    let files = m.files.insert(path, fv);
    StateModel { files, assets: m.assets.restrict(file_hashes(files)), ..m }
}

/// The file that publishing a path gives: a file already at the path keeps
/// the time it was created.
pub open spec fn published_file(
    files: Map<Seq<char>, FileView>,
    path: Seq<char>,
    headers: Seq<(String, String)>,
    hash: Seq<u8>,
    size: u64,
    now: i128,
) -> FileView {
    FileView {
        path,
        created: if files.contains_key(path) {
            files[path].created
        } else {
            now
        },
        modified: now,
        headers,
        hash,
        size,
    }
}

pub proof fn lemma_files_remove(files: Map<Seq<char>, FileView>, path: Seq<char>)
    requires
        files.contains_key(path),
    ensures
        file_hashes(files) == file_hashes(files.remove(path)).insert(files[path].hash),
        paths_with_hash(files, files[path].hash) == paths_with_hash(
            files.remove(path),
            files[path].hash,
        ).insert(path),
        !paths_with_hash(files.remove(path), files[path].hash).contains(path),
        forall|g: Seq<u8>|
            g != files[path].hash ==> #[trigger] paths_with_hash(files, g) == paths_with_hash(
                files.remove(path),
                g,
            ),
{
    let nf = files.remove(path);
    let h = files[path].hash;
    assert forall|g: Seq<u8>| file_hashes(files).contains(g) <==> #[trigger] file_hashes(
        nf,
    ).insert(h).contains(g) by {
        if file_hashes(files).contains(g) && g != h {
            let p = choose|p: Seq<char>| files.contains_key(p) && #[trigger] files[p].hash == g;
            assert(nf.contains_key(p) && nf[p].hash == g);
        }
        if file_hashes(nf).contains(g) {
            let p = choose|p: Seq<char>| nf.contains_key(p) && #[trigger] nf[p].hash == g;
            assert(files.contains_key(p) && files[p].hash == g);
        }
        if g == h {
            assert(files.contains_key(path) && files[path].hash == g);
        }
    }
    assert(file_hashes(files) =~= file_hashes(nf).insert(h));
    assert(paths_with_hash(files, h) =~= paths_with_hash(nf, h).insert(path));
    assert forall|g: Seq<u8>| g != h implies #[trigger] paths_with_hash(files, g)
        == paths_with_hash(nf, g) by {
        assert(paths_with_hash(files, g) =~= paths_with_hash(nf, g));
    }
}

pub proof fn lemma_files_insert(files: Map<Seq<char>, FileView>, path: Seq<char>, fv: FileView)
    ensures
        paths_with_hash(files.insert(path, fv), fv.hash) == paths_with_hash(files, fv.hash).insert(
            path,
        ),
        files.contains_key(path) && files[path].hash != fv.hash ==> paths_with_hash(
            files.insert(path, fv),
            files[path].hash,
        ) == paths_with_hash(files, files[path].hash).remove(path),
        forall|g: Seq<u8>|
            g != fv.hash && !(files.contains_key(path) && files[path].hash == g)
                ==> #[trigger] paths_with_hash(files.insert(path, fv), g) == paths_with_hash(
                files,
                g,
            ),
        files.contains_key(path) ==> file_hashes(files.insert(path, fv)).insert(files[path].hash)
            == file_hashes(files).insert(fv.hash),
        !files.contains_key(path) ==> file_hashes(files.insert(path, fv)) == file_hashes(
            files,
        ).insert(fv.hash),
        file_hashes(files.insert(path, fv)).contains(fv.hash),
        file_hashes(files.insert(path, fv)).subset_of(file_hashes(files).insert(fv.hash)),
{
    let nf = files.insert(path, fv);
    assert(paths_with_hash(nf, fv.hash) =~= paths_with_hash(files, fv.hash).insert(path));
    if files.contains_key(path) && files[path].hash != fv.hash {
        assert(paths_with_hash(nf, files[path].hash) =~= paths_with_hash(
            files,
            files[path].hash,
        ).remove(path));
    }
    assert forall|g: Seq<u8>|
        g != fv.hash && !(files.contains_key(path) && files[path].hash == g) implies #[trigger]
        paths_with_hash(nf, g) == paths_with_hash(files, g) by {
        assert(paths_with_hash(nf, g) =~= paths_with_hash(files, g));
    }
    assert(nf.contains_key(path) && nf[path].hash == fv.hash);
    assert forall|g: Seq<u8>| #[trigger] file_hashes(nf).contains(g) implies file_hashes(
        files,
    ).insert(fv.hash).contains(g) by {
        let p = choose|p: Seq<char>| nf.contains_key(p) && #[trigger] nf[p].hash == g;
        if p != path {
            assert(files.contains_key(p) && files[p].hash == g);
        }
    }
    assert(file_hashes(nf).subset_of(file_hashes(files).insert(fv.hash)));
    if files.contains_key(path) {
        let o = files[path].hash;
        assert forall|g: Seq<u8>| #[trigger]
            file_hashes(files).insert(fv.hash).contains(g) implies file_hashes(nf).insert(
            o,
        ).contains(g) by {
            if g != fv.hash && g != o {
                let p = choose|p: Seq<char>| files.contains_key(p) && #[trigger] files[p].hash == g;
                assert(nf.contains_key(p) && nf[p].hash == g);
            }
        }
        assert(file_hashes(nf).insert(o) =~= file_hashes(files).insert(fv.hash));
    } else {
        assert forall|g: Seq<u8>| #[trigger]
            file_hashes(files).insert(fv.hash).contains(g) implies file_hashes(nf).contains(g) by {
            if g != fv.hash {
                let p = choose|p: Seq<char>| files.contains_key(p) && #[trigger] files[p].hash == g;
                assert(nf.contains_key(p) && nf[p].hash == g);
            }
        }
        assert(file_hashes(nf) =~= file_hashes(files).insert(fv.hash));
    }
}

impl InnerState {
    /// The state as the contracts see it.
    pub open spec fn model(&self) -> StateModel {
        StateModel {
            hashed: self.trusts_digests(),
            files: self.files_view(),
            assets: self.assets_view(),
            uploading: self.uploading_view(),
        }
    }

    /// Unpublishes a path: the file goes, and with it its content when no
    /// other published file names that content. Uploads are not touched.
    pub fn clean_file(&mut self, path: &String)
        requires
            old(self).wf(),
        ensures
            final(self).wf(),
            final(self).model() == clean_file_model(old(self).model(), path@),
    {
        proof {
            lemma_to_map_full(self.files@, file_key());
        }
        match self.find_file(path) {
            None => {
                proof {
                    assert(self.files_view().remove(path@) =~= self.files_view());
                    assert(self.assets_view().restrict(file_hashes(self.files_view()))
                        =~= self.assets_view());
                }
            },
            Some(i) => {
                let ghost before = self.files@;
                let ghost old_files = self.files_view();
                proof {
                    lemma_remove(self.files@, file_key(), i as int);
                    assert(to_map(before, file_key())[file_key()(before[i as int])] == before[i as int]);
                }
                let file = self.files.remove(i);
                proof {
                    assert(self.files_view() =~= old_files.remove(path@));
                    lemma_files_remove(old_files, path@);
                    assert(old_files[path@].hash == file.hash@);
                    let h = file.hash@;
                    assert(self.tables_ok());
                    assert(self.assets_view().dom() == file_hashes(self.files_view()).insert(h));
                    assert(self.hashes_view().dom() == file_hashes(self.files_view()).insert(h));
                    assert forall|g: Seq<u8>| #[trigger]
                        self.hashes_view().contains_key(g) && g != h implies self.hashes_view()[g]
                            == paths_with_hash(self.files_view(), g) by {
                        assert(paths_with_hash(old_files, g) == paths_with_hash(self.files_view(), g));
                    }
                    assert(old_files.contains_key(path@) && old_files[path@].hash == h);
                    assert(file_hashes(old_files).contains(h));
                    assert(self.hashes_view().contains_key(h));
                    assert(self.hashes_view()[h] == paths_with_hash(old_files, h));
                    assert(self.cleaning(file.hash@, path@));
                }
                self.clean_hash_path(&file.hash, path);
            },
        }
    }
}

} // verus!

verus! {

impl InnerState {
    /// The digest index is right, and the stored contents are those the
    /// published files name plus, maybe, the content with digest `h`.
    pub closed spec fn ready_to_publish(&self, h: Seq<u8>) -> bool {
        &&& self.tables_ok()
        &&& self.index_ok()
        &&& self.assets_view().dom() == file_hashes(self.files_view()).insert(h)
        &&& uploads_consistent(self.uploading_view())
    }

    proof fn lemma_wf_ready(&self, h: Seq<u8>)
        requires
            self.wf(),
            self.assets_view().contains_key(h),
        ensures
            self.ready_to_publish(h),
    {
        assert(file_hashes(self.files_view()).insert(h) =~= file_hashes(self.files_view()));
    }

    /// Adds `path` to the index entry of `hash`, creating the entry if needed.
    fn index_path(&mut self, hash: &HashDigest, path: &String)
        requires
            old(self).tables_ok(),
        ensures
            final(self).tables_ok(),
            final(self).files@ == old(self).files@,
            final(self).assets@ == old(self).assets@,
            final(self).uploading@ == old(self).uploading@,
            final(self).hashed == old(self).hashed,
            final(self).hashes_view() == old(self).hashes_view().insert(
                hash@,
                if old(self).hashes_view().contains_key(hash@) {
                    old(self).hashes_view()[hash@].insert(path@)
                } else {
                    Set::empty().insert(path@)
                },
            ),
    {
        proof {
            lemma_to_map_full(self.hashes@, hash_key());
        }
        let ghost before = self.hashes@;
        match self.find_hash(hash) {
            Some(i) => {
                let mut entry = self.hashes.remove(i);
                proof {
                    assert(before.remove(i as int).insert(i as int, entry) =~= before);
                    assert(distinct_keys(entry.paths.0@, string_key()));
                    assert(to_map(before, hash_key())[hash_key()(before[i as int])] == before[i as int]);
                }
                entry.paths.insert_path(path.clone());
                let ghost new_entry = entry;
                self.hashes.insert(i, entry);
                proof {
                    assert(self.hashes@ =~= before.update(i as int, new_entry));
                    lemma_update(before, hash_key(), i as int, new_entry);
                    lemma_entries_update(before, i as int, new_entry);
                    assert(self.hashes_view() =~= old(self).hashes_view().insert(
                        hash@,
                        old(self).hashes_view()[hash@].insert(path@),
                    ));
                }
            },
            None => {
                let mut paths = HashedPath(Vec::new());
                proof {
                    assert(paths@ =~= Set::<Seq<char>>::empty());
                }
                paths.insert_path(path.clone());
                let entry = HashEntry { hash: *hash, paths };
                proof {
                    lemma_push(before, hash_key(), entry);
                    lemma_entries_push(before, entry);
                }
                self.hashes.push(entry);
                proof {
                    assert(self.hashes_view() =~= old(self).hashes_view().insert(
                        hash@,
                        Set::empty().insert(path@),
                    ));
                }
            },
        }
    }

    /// Publishes a file at `path` with content digest `hash`, whose content
    /// must already be stored; the content the path named before goes when no
    /// other file names it.
    #[verifier::rlimit(40)]
    fn put_file(
        &mut self,
        path: String,
        headers: Vec<(String, String)>,
        hash: HashDigest,
        size: u64,
        now: i128,
    )
        requires
            old(self).ready_to_publish(hash@),
        ensures
            final(self).wf(),
            final(self).model() == put_file_model(
                old(self).model(),
                path@,
                published_file(old(self).files_view(), path@, headers@, hash@, size, now),
            ),
    {
        let ghost old_files = self.files_view();
        let ghost fv = published_file(old_files, path@, headers@, hash@, size, now);
        proof {
            lemma_to_map_full(self.files@, file_key());
        }
        let found = self.find_file(&path);
        let ghost before = self.files@;
        let old_hash: Option<HashDigest> = match found {
            Some(i) => Some(self.files[i].hash),
            None => None,
        };
        match found {
            Some(i) => {
                let created = self.files[i].created;
                let file = AssetFile {
                    path: path.clone(),
                    created,
                    modified: now,
                    headers,
                    hash,
                    size,
                };
                proof {
                    assert(to_map(before, file_key())[file_key()(before[i as int])] == before[i as int]);
                    assert(file@ == fv);
                    lemma_update(before, file_key(), i as int, file);
                }
                self.files.set(i, file);
            },
            None => {
                let file = AssetFile {
                    path: path.clone(),
                    created: now,
                    modified: now,
                    headers,
                    hash,
                    size,
                };
                proof {
                    assert(file@ == fv);
                    lemma_push(before, file_key(), file);
                }
                self.files.push(file);
            },
        }
        proof {
            assert(self.files_view() =~= old_files.insert(path@, fv));
            lemma_files_insert(old_files, path@, fv);
        }
        let ghost mid_hashes = self.hashes_view();
        self.index_path(&hash, &path);
        let ghost new_files = self.files_view();
        proof {
            assert(self.assets_view() == old(self).assets_view());
            assert(self.uploading_view() == old(self).uploading_view());
        }
        match old_hash {
            Some(o) => {
                if !o.same_as(&hash) {
                    proof {
                        assert(old_files.contains_key(path@) && old_files[path@].hash == o@);
                        assert(file_hashes(old_files).contains(o@));
                        assert(self.tables_ok());
                        assert(self.assets_view().dom() =~= file_hashes(new_files).insert(o@));
                        assert(self.hashes_view().dom() =~= file_hashes(new_files).insert(o@));
                        assert forall|g: Seq<u8>| #[trigger]
                            self.hashes_view().contains_key(g) && g != o@ implies self.hashes_view()[g]
                                == paths_with_hash(new_files, g) by {
                            if g != hash@ {
                                assert(paths_with_hash(new_files, g) == paths_with_hash(old_files, g));
                            }
                        }
                        assert(self.hashes_view()[o@] == paths_with_hash(old_files, o@));
                        assert(paths_with_hash(old_files, o@) =~= paths_with_hash(new_files, o@).insert(
                            path@,
                        ));
                        assert(self.cleaning(o@, path@));
                    }
                    self.clean_hash_path(&o, &path);
                } else {
                    proof {
                        assert(file_hashes(new_files) =~= file_hashes(old_files).insert(hash@));
                        assert(self.assets_view().dom() =~= file_hashes(new_files));
                        assert(self.hashes_view().dom() =~= file_hashes(new_files));
                        assert forall|g: Seq<u8>| #[trigger]
                            self.hashes_view().contains_key(g) implies self.hashes_view()[g]
                                == paths_with_hash(new_files, g) by {
                            if g != hash@ {
                                assert(paths_with_hash(new_files, g) == paths_with_hash(old_files, g));
                            }
                        }
                        assert(self.assets_view() =~= old(self).assets_view().restrict(
                            file_hashes(new_files),
                        ));
                    }
                }
            },
            None => {
                proof {
                    assert(self.assets_view().dom() =~= file_hashes(new_files));
                    assert(self.hashes_view().dom() =~= file_hashes(new_files));
                    assert forall|g: Seq<u8>| #[trigger]
                        self.hashes_view().contains_key(g) implies self.hashes_view()[g]
                            == paths_with_hash(new_files, g) by {
                        if g != hash@ {
                            assert(paths_with_hash(new_files, g) == paths_with_hash(old_files, g));
                        }
                    }
                    assert(self.assets_view() =~= old(self).assets_view().restrict(
                        file_hashes(new_files),
                    ));
                }
            },
        }
    }
}

} // verus!

verus! {

/// The digest under which a completed upload is stored: the one sent with it
/// when digests are trusted, else the SHA-256 value of its content.
pub open spec fn content_digest(hashed: bool, u: UploadView) -> Seq<u8> {
    if hashed {
        u.hash
    } else {
        sha256(u.data)
    }
}

/// Publishing a completed upload under digest `h`: whatever the path
/// published before is unpublished, the content is stored unless a content
/// with the same digest already is, and the path is published anew.
pub open spec fn publish_model_as(m: StateModel, u: UploadView, h: Seq<u8>, now: i128) -> StateModel {
    let m0 = clean_file_model(m, u.path);
    let assets = if m0.assets.contains_key(h) {
        m0.assets
    } else {
        m0.assets.insert(h, u.data)
    };
    let fv = FileView {
        path: u.path,
        created: now,
        modified: now,
        headers: u.headers,
        hash: h,
        size: u.size,
    };
    StateModel { files: m0.files.insert(u.path, fv), assets, ..m0 }
}

/// Publishing a completed upload under the digest its content is stored by.
pub open spec fn publish_model(m: StateModel, u: UploadView, now: i128) -> StateModel {
    publish_model_as(m, u, content_digest(m.hashed, u), now)
}

impl InnerState {
    /// The digest under which a completed upload is stored.
    fn hash(&self, file: &UploadingFile) -> (h: HashDigest)
        requires
            file.data@.len() == file.size,
        ensures
            h@ == content_digest(self.trusts_digests(), file@),
    {
        if self.hashed {
            file.hash
        } else {
            sha256_digest(file.data.as_slice())
        }
    }

    /// Publishes a completed upload under the digest its content is stored by.
    fn put_assets(&mut self, file: UploadingFile, now: i128)
        requires
            old(self).wf(),
            file.data@.len() == file.size,
        ensures
            final(self).wf(),
            final(self).model() == publish_model(old(self).model(), file@, now),
    {
        let hash = self.hash(&file);
        self.publish_upload(file, hash, now);
    }

    /// Publishes a completed upload under digest `hash`: unpublishes the
    /// path, stores the content unless a content with that digest already is,
    /// and publishes the path anew.
    pub fn publish_upload(&mut self, file: UploadingFile, hash: HashDigest, now: i128)
        requires
            old(self).wf(),
            file.data@.len() == file.size,
        ensures
            final(self).wf(),
            final(self).model() == publish_model_as(old(self).model(), file@, hash@, now),
    {
        let ghost u = file@;
        self.clean_file(&file.path);
        let ghost m0 = self.model();
        proof {
            lemma_to_map_full(self.assets@, asset_key());
        }
        match self.find_asset(&hash) {
            Some(_) => {
                proof {
                    self.lemma_wf_ready(hash@);
                }
            },
            None => {
                let ghost before = self.assets@;
                let entry = AssetEntry { hash, data: AssetData::from(&hash, file.data) };
                proof {
                    lemma_push(before, asset_key(), entry);
                }
                self.assets.push(entry);
                proof {
                    assert(self.assets_view() =~= m0.assets.insert(hash@, u.data));
                    assert(self.assets_view().dom() =~= file_hashes(self.files_view()).insert(hash@));
                }
            },
        }
        let ghost m1 = self.model();
        let ghost fv = FileView {
            path: u.path,
            created: now,
            modified: now,
            headers: u.headers,
            hash: hash@,
            size: u.size,
        };
        proof {
            assert(!m1.files.contains_key(u.path));
            assert(published_file(m1.files, u.path, u.headers, hash@, u.size, now) == fv);
            lemma_files_insert(m1.files, u.path, fv);
            assert(file_hashes(m1.files.insert(u.path, fv)) == file_hashes(m1.files).insert(hash@));
            assert(m1.assets.restrict(file_hashes(m1.files.insert(u.path, fv))) =~= m1.assets);
        }
        self.put_file(file.path, file.headers, hash, file.size, now);
    }
}

} // verus!

verus! {

/// Most uploads that may be in progress at once.
pub const MAX_ACTIVE_UPLOADS: usize = 16;

/// Most bytes that stored contents and uploads in progress may take together (1 GiB).
pub const MAX_ASSET_STATE_BYTES: u64 = 1073741824;

/// An upload in progress that was started with the same layout as `arg`.
pub open spec fn upload_matches(u: UploadView, arg: UploadingArg) -> bool {
    &&& u.path == arg.path@
    &&& u.hash == arg.hash@
    &&& u.size == arg.size
    &&& u.data.len() == arg.size
    &&& u.chunk_size == arg.chunk_size
    &&& u.chunks == chunk_count(arg.size as int, arg.chunk_size as int)
    &&& u.chunked.len() == u.chunks
}

/// The upload that `arg` starts: zeroed content and no chunk received.
pub open spec fn fresh_upload(arg: UploadingArg) -> UploadView {
    let chunks = chunk_count(arg.size as int, arg.chunk_size as int);
    UploadView {
        path: arg.path@,
        headers: arg.headers@,
        hash: arg.hash@,
        data: Seq::new(arg.size as nat, |i: int| 0u8),
        size: arg.size,
        chunk_size: arg.chunk_size,
        chunks: chunks as u32,
        chunked: Seq::new(chunks as nat, |i: int| false),
    }
}

proof fn lemma_upload_bytes_mono(s: Seq<UploadingFile>, a: int, b: int)
    requires
        0 <= a <= b <= s.len(),
    ensures
        upload_bytes_upto(s, a) <= upload_bytes_upto(s, b),
    decreases b - a,
{
    if a < b {
        lemma_upload_bytes_mono(s, a, b - 1);
    }
}

proof fn lemma_asset_bytes_mono(s: Seq<AssetEntry>, a: int, b: int)
    requires
        0 <= a <= b <= s.len(),
    ensures
        asset_bytes_upto(s, a) <= asset_bytes_upto(s, b),
    decreases b - a,
{
    if a < b {
        lemma_asset_bytes_mono(s, a, b - 1);
    }
}

impl InnerState {
    /// Number of uploads in progress.
    pub closed spec fn active_uploads(&self) -> int {
        self.uploading@.len() as int
    }

    /// Size of the upload in progress at the path of `arg`, or 0.
    pub open spec fn replacing_size(&self, arg: UploadingArg) -> u64 {
        if self.uploading_view().contains_key(arg.path@) {
            self.uploading_view()[arg.path@].size
        } else {
            0
        }
    }

    /// Why starting the upload that `arg` describes would exceed the limits:
    /// too many uploads at once (unless one at the same path is replaced), or
    /// stored contents and buffered uploads, with this one in place of any
    /// at its path, over the state limit.
    pub open spec fn capacity_fault(&self, arg: UploadingArg) -> Option<UploadError> {
        let replacing = self.replacing_size(arg);
        let rest = if self.buffered_bytes() >= replacing {
            self.buffered_bytes() - replacing
        } else {
            0
        };
        if replacing == 0 && self.active_uploads() >= MAX_ACTIVE_UPLOADS {
            Some(UploadError::TooManyActiveUploads)
        } else if self.stored_bytes() + rest + arg.size > MAX_ASSET_STATE_BYTES {
            Some(UploadError::StateLimitExceeded)
        } else {
            None
        }
    }

    /// Checks that the upload that `arg` describes may start.
    #[verifier::loop_isolation(false)]
    fn try_assure_upload_capacity(&self, arg: &UploadingArg) -> (r: Result<(), UploadError>)
        requires
            self.tables_ok(),
        ensures
            r == as_result(self.capacity_fault(*arg)),
    {
        proof {
            lemma_to_map_full(self.uploading@, upload_key());
        }
        let replacing: u64 = match self.find_upload(&arg.path) {
            Some(i) => {
                proof {
                    assert(to_map(self.uploading@, upload_key())[upload_key()(self.uploading@[i as int])]
                        == self.uploading@[i as int]);
                }
                self.uploading[i].size
            },
            None => 0,
        };
        assert(replacing == self.replacing_size(*arg));
        if replacing == 0 && self.uploading.len() >= MAX_ACTIVE_UPLOADS {
            return Err(UploadError::TooManyActiveUploads);
        }
        let limit: u128 = MAX_ASSET_STATE_BYTES as u128;
        let mut stored: u128 = 0;
        let mut i: usize = 0;
        while i < self.assets.len()
            invariant
                i <= self.assets@.len(),
                stored == asset_bytes_upto(self.assets@, i as int),
                stored <= limit,
            decreases self.assets@.len() - i,
        {
            stored = stored + self.assets[i].data.len() as u128;
            i = i + 1;
            if stored > limit {
                proof {
                    lemma_asset_bytes_mono(self.assets@, i as int, self.assets@.len() as int);
                }
                return Err(UploadError::StateLimitExceeded);
            }
        }
        let mut buffered: u128 = 0;
        let mut k: usize = 0;
        while k < self.uploading.len()
            invariant
                k <= self.uploading@.len(),
                buffered == upload_bytes_upto(self.uploading@, k as int),
                buffered <= limit + replacing,
            decreases self.uploading@.len() - k,
        {
            buffered = buffered + self.uploading[k].size as u128;
            k = k + 1;
            if buffered > limit + replacing as u128 {
                proof {
                    lemma_upload_bytes_mono(self.uploading@, k as int, self.uploading@.len() as int);
                }
                return Err(UploadError::StateLimitExceeded);
            }
        }
        let rest: u128 = if buffered >= replacing as u128 {
            buffered - replacing as u128
        } else {
            0
        };
        if stored + rest + arg.size as u128 > limit {
            return Err(UploadError::StateLimitExceeded);
        }
        Ok(())
    }

    /// Makes sure an upload with the layout of `arg` is in progress at its
    /// path: one started with the same layout is kept; otherwise, if the
    /// limits allow, a fresh one replaces whatever was there.
    #[verifier::loop_isolation(false)]
    pub fn try_assure_uploading(&mut self, arg: &UploadingArg) -> (r: Result<(), UploadError>)
        requires
            old(self).wf(),
            sizes_ok(arg.size, arg.chunk_size),
        ensures
            final(self).wf(),
            final(self).files_view() == old(self).files_view(),
            final(self).assets_view() == old(self).assets_view(),
            final(self).trusts_digests() == old(self).trusts_digests(),
            final(self).stored_bytes() == old(self).stored_bytes(),
            old(self).uploading_view().contains_key(arg.path@) && upload_matches(
                old(self).uploading_view()[arg.path@],
                *arg,
            ) ==> r is Ok && final(self).uploading_view() == old(self).uploading_view(),
            !(old(self).uploading_view().contains_key(arg.path@) && upload_matches(
                old(self).uploading_view()[arg.path@],
                *arg,
            )) ==> match old(self).capacity_fault(*arg) {
                Some(e) => r == Err::<(), UploadError>(e) && final(self).uploading_view()
                    == old(self).uploading_view(),
                None => r is Ok && final(self).uploading_view() == old(
                    self,
                ).uploading_view().insert(arg.path@, fresh_upload(*arg)),
            },
    {
        proof {
            lemma_to_map_full(self.uploading@, upload_key());
        }
        let chunks = Self::chunks(arg);
        let found = self.find_upload(&arg.path);
        match found {
            Some(i) => {
                let exist = &self.uploading[i];
                proof {
                    assert(to_map(self.uploading@, upload_key())[upload_key()(self.uploading@[i as int])]
                        == self.uploading@[i as int]);
                }
                if exist.hash.same_as(&arg.hash) && exist.size == arg.size && exist.data.len() as u64
                    == arg.size && exist.chunk_size == arg.chunk_size && exist.chunks == chunks
                    && exist.chunked.len() as u64 == chunks as u64 {
                    return Ok(());
                }
            },
            None => {},
        }
        let checked = self.try_assure_upload_capacity(arg);
        if checked.is_err() {
            return checked;
        }
        proof {
            lemma_chunk_count(arg.size as int, arg.chunk_size as int);
        }
        let file = UploadingFile {
            path: arg.path.clone(),
            headers: clone_headers(&arg.headers),
            hash: arg.hash,
            data: vec![0u8; arg.size as usize],
            size: arg.size,
            chunk_size: arg.chunk_size,
            chunks,
            chunked: vec![false; chunks as usize],
        };
        proof {
            assert(file@.data =~= fresh_upload(*arg).data);
            assert(file@.chunked =~= fresh_upload(*arg).chunked);
            assert(file@ == fresh_upload(*arg));
        }
        let ghost before = self.uploading@;
        match found {
            Some(i) => {
                proof {
                    lemma_update(before, upload_key(), i as int, file);
                }
                self.uploading.set(i, file);
            },
            None => {
                proof {
                    lemma_push(before, upload_key(), file);
                }
                self.uploading.push(file);
            },
        }
        proof {
            assert(self.uploading_view() =~= old(self).uploading_view().insert(
                arg.path@,
                fresh_upload(*arg),
            ));
        }
        Ok(())
    }
}

} // verus!

verus! {

/// The upload after chunk `arg` is written into it: the chunk's bytes land in
/// its range, the chunk is marked received, and the headers become those sent
/// with the chunk.
pub open spec fn write_chunk(base: UploadView, arg: UploadingArg) -> UploadView {
    let range = chunk_range(arg.size as int, arg.chunk_size as int, arg.index as int);
    UploadView {
        headers: arg.headers@,
        data: base.data.subrange(0, range.0) + arg.chunk@ + base.data.subrange(
            range.1,
            base.data.len() as int,
        ),
        chunked: base.chunked.update(arg.index as int, true),
        ..base
    }
}

/// Every entry is set.
pub open spec fn all_set(s: Seq<bool>) -> bool {
    forall|i: int| 0 <= i < s.len() ==> #[trigger] s[i]
}

/// Every chunk of the upload has arrived.
pub open spec fn all_received(u: UploadView) -> bool {
    all_set(u.chunked)
}

impl InnerState {
    /// Size of the first published file, in the state's own order, whose
    /// content has digest `h`.
    pub closed spec fn existing_size(&self, h: Seq<u8>) -> u64 {
        let i = choose|i: int|
            0 <= i < self.files@.len() && #[trigger] self.files@[i].hash@ == h && forall|j: int|
                0 <= j < i ==> #[trigger] self.files@[j].hash@ != h;
        self.files@[i].size
    }

    /// The size that `existing_size` gives is that of a published file with that digest.
    pub proof fn lemma_existing_size(&self, h: Seq<u8>)
        requires
            self.wf(),
            self.assets_view().contains_key(h),
        ensures
            exists|p: Seq<char>|
                self.files_view().contains_key(p) && #[trigger] self.files_view()[p].hash == h
                    && self.files_view()[p].size == self.existing_size(h),
    {
        self.lemma_file_hashes(h);
        let i = self.first_index(h);
        lemma_to_map_full(self.files@, file_key());
        let p = self.files@[i].path@;
        assert(to_map(self.files@, file_key())[file_key()(self.files@[i])] == self.files@[i]);
        assert(self.files_view().contains_key(p) && self.files_view()[p].hash == h);
    }

    proof fn first_index(&self, h: Seq<u8>) -> (i: int)
        requires
            exists|i: int| 0 <= i < self.files@.len() && #[trigger] self.files@[i].hash@ == h,
        ensures
            0 <= i < self.files@.len(),
            self.files@[i].hash@ == h,
            forall|j: int| 0 <= j < i ==> #[trigger] self.files@[j].hash@ != h,
            self.files@[i].size == self.existing_size(h),
    {
        let k = choose|k: int| 0 <= k < self.files@.len() && #[trigger] self.files@[k].hash@ == h;
        let i = self.first_index_below(h, k);
        assert(exists|i: int|
            0 <= i < self.files@.len() && #[trigger] self.files@[i].hash@ == h && forall|j: int|
                0 <= j < i ==> #[trigger] self.files@[j].hash@ != h);
        let c = choose|c: int|
            0 <= c < self.files@.len() && #[trigger] self.files@[c].hash@ == h && forall|j: int|
                0 <= j < c ==> #[trigger] self.files@[j].hash@ != h;
        if c < i {
            assert(self.files@[c].hash@ != h);
        }
        if i < c {
            assert(self.files@[i].hash@ != h);
        }
        i
    }

    proof fn first_index_below(&self, h: Seq<u8>, k: int) -> (i: int)
        requires
            0 <= k < self.files@.len(),
            self.files@[k].hash@ == h,
        ensures
            0 <= i <= k,
            self.files@[i].hash@ == h,
            forall|j: int| 0 <= j < i ==> #[trigger] self.files@[j].hash@ != h,
        decreases k,
    {
        if exists|j: int| 0 <= j < k && #[trigger] self.files@[j].hash@ == h {
            let j = choose|j: int| 0 <= j < k && #[trigger] self.files@[j].hash@ == h;
            self.first_index_below(h, j)
        } else {
            k
        }
    }

    /// Size of the first published file whose content has digest `hash`.
    #[verifier::loop_isolation(false)]
    fn find_size_by_hash(&self, hash: &HashDigest) -> (r: Option<u64>)
        requires
            self.tables_ok(),
        ensures
            match r {
                Some(s) => file_hashes(self.files_view()).contains(hash@) && s
                    == self.existing_size(hash@),
                None => !file_hashes(self.files_view()).contains(hash@),
            },
    {
        proof {
            self.lemma_file_hashes(hash@);
        }
        let mut i: usize = 0;
        while i < self.files.len()
            invariant
                i <= self.files@.len(),
                forall|j: int| 0 <= j < i ==> #[trigger] self.files@[j].hash@ != hash@,
            decreases self.files@.len() - i,
        {
            if self.files[i].hash.same_as(hash) {
                proof {
                    let f = self.first_index(hash@);
                    if f < i {
                        assert(self.files@[f].hash@ != hash@);
                    }
                    if i < f {
                        assert(self.files@[i as int].hash@ != hash@);
                    }
                }
                return Some(self.files[i].size);
            }
            i = i + 1;
        }
        None
    }

    /// What sending chunk `arg` at time `now` does: the state it leaves, or
    /// why it is refused (and then nothing changes).
    #[verifier::opaque]
    pub open spec fn chunk_result(&self, arg: UploadingArg, now: i128) -> Result<
        StateModel,
        UploadError,
    > {
        let m = self.model();
        match path_and_headers_fault(arg) {
            Some(e) => Err(e),
            None => match size_and_data_fault(arg) {
                Some(e) => Err(e),
                None => if m.hashed && m.assets.contains_key(arg.hash@) {
                    let existing = self.existing_size(arg.hash@);
                    if arg.size != existing {
                        Err(UploadError::ExistingHashSizeMismatch)
                    } else {
                        Ok(
                            put_file_model(
                                StateModel { uploading: m.uploading.remove(arg.path@), ..m },
                                arg.path@,
                                published_file(
                                    m.files,
                                    arg.path@,
                                    arg.headers@,
                                    arg.hash@,
                                    existing,
                                    now,
                                ),
                            ),
                        )
                    }
                } else {
                    let matched = m.uploading.contains_key(arg.path@) && upload_matches(
                        m.uploading[arg.path@],
                        arg,
                    );
                    match (if matched {
                        None
                    } else {
                        self.capacity_fault(arg)
                    }) {
                        Some(e) => Err(e),
                        None => {
                            let base = if matched {
                                m.uploading[arg.path@]
                            } else {
                                fresh_upload(arg)
                            };
                            let u = write_chunk(base, arg);
                            if all_received(u) {
                                Ok(
                                    publish_model(
                                        StateModel { uploading: m.uploading.remove(arg.path@), ..m },
                                        u,
                                        now,
                                    ),
                                )
                            } else {
                                Ok(StateModel { uploading: m.uploading.insert(arg.path@, u), ..m })
                            }
                        },
                    }
                },
            },
        }
    }
}

} // verus!

verus! {

impl InnerState {
    /// Whether every chunk of an upload has arrived.
    fn all_chunked(chunked: &Vec<bool>) -> (r: bool)
        ensures
            r == all_set(chunked@),
    {
        let mut i: usize = 0;
        while i < chunked.len()
            invariant
                i <= chunked@.len(),
                forall|j: int| 0 <= j < i ==> #[trigger] chunked@[j],
            decreases chunked@.len() - i,
        {
            if !chunked[i] {
                return false;
            }
            i = i + 1;
        }
        true
    }

    /// Writes `chunk` into `data` from position `start` on.
    fn write_bytes(data: &mut Vec<u8>, start: usize, chunk: &Vec<u8>)
        requires
            start + chunk@.len() <= old(data)@.len(),
        ensures
            final(data)@ == old(data)@.subrange(0, start as int) + chunk@ + old(data)@.subrange(
                start + chunk@.len(),
                old(data)@.len() as int,
            ),
    {
        let ghost base = data@;
        let mut j: usize = 0;
        while j < chunk.len()
            invariant
                start + chunk@.len() <= base.len(),
                data@.len() == base.len(),
                j <= chunk@.len(),
                data@ == base.subrange(0, start as int) + chunk@.subrange(0, j as int) + base.subrange(
                    start + j,
                    base.len() as int,
                ),
            decreases chunk@.len() - j,
        {
            assert(start + j < data.len());
            data.set(start + j, chunk[j]);
            proof {
                assert(data@ =~= base.subrange(0, start as int) + chunk@.subrange(0, j + 1)
                    + base.subrange(start + j + 1, base.len() as int));
            }
            j = j + 1;
        }
        assert(chunk@.subrange(0, chunk@.len() as int) =~= chunk@);
    }

    /// Receives one chunk at time `now`: checks it, then either republishes a
    /// content already stored under the trusted digest, or writes the chunk
    /// into its upload and publishes the file once every chunk has arrived.
    /// A refused chunk changes nothing.
    #[verifier::rlimit(80)]
    fn receive_chunk_at(&mut self, arg: UploadingArg, now: i128) -> (r: Result<(), UploadError>)
        requires
            old(self).wf(),
        ensures
            final(self).wf(),
            match r {
                Ok(()) => old(self).chunk_result(arg, now) == Ok::<StateModel, UploadError>(
                    final(self).model(),
                ),
                Err(e) => old(self).chunk_result(arg, now) == Err::<StateModel, UploadError>(e)
                    && final(self).model() == old(self).model(),
            },
    {
        proof {
            reveal(InnerState::chunk_result);
        }
        let checked = Self::try_check_path_and_headers(&arg);
        if checked.is_err() {
            return checked;
        }
        let checked = Self::try_check_size_and_data(&arg);
        if checked.is_err() {
            return checked;
        }
        proof {
            lemma_to_map_full(self.assets@, asset_key());
            lemma_chunk_range(arg.size as int, arg.chunk_size as int, arg.index as int);
        }
        if self.hashed && self.find_asset(&arg.hash).is_some() {
            let existing = match self.find_size_by_hash(&arg.hash) {
                Some(s) => s,
                None => {
                    proof {
                        assert(self.assets_view().contains_key(arg.hash@));
                    }
                    return Err(UploadError::ExistingHashSizeMismatch);
                },
            };
            if arg.size != existing {
                return Err(UploadError::ExistingHashSizeMismatch);
            }
            self.clean_uploading(&arg.path);
            proof {
                self.lemma_wf_ready(arg.hash@);
            }
            self.put_file(arg.path, arg.headers, arg.hash, existing, now);
            return Ok(());
        }
        let ghost m = self.model();
        let ghost matched = m.uploading.contains_key(arg.path@) && upload_matches(
            m.uploading[arg.path@],
            arg,
        );
        let checked = self.try_assure_uploading(&arg);
        if checked.is_err() {
            return checked;
        }
        let ghost base = if matched {
            m.uploading[arg.path@]
        } else {
            fresh_upload(arg)
        };
        let ghost mid = self.uploading_view();
        proof {
            assert(self.uploading_view().contains_key(arg.path@));
            assert(self.uploading_view()[arg.path@] == base);
            assert(mid.remove(arg.path@) =~= m.uploading.remove(arg.path@));
            assert(mid.insert(arg.path@, write_chunk(base, arg)) =~= m.uploading.insert(
                arg.path@,
                write_chunk(base, arg),
            ));
            lemma_to_map_full(self.uploading@, upload_key());
        }
        let (offset, offset_end) = Self::offset(&arg);
        let i = match self.find_upload(&arg.path) {
            Some(i) => i,
            None => {
                return Ok(());
            },
        };
        let ghost before = self.uploading@;
        proof {
            assert(to_map(before, upload_key())[upload_key()(before[i as int])] == before[i as int]);
            assert(before[i as int]@ == base);
            lemma_remove(before, upload_key(), i as int);
        }
        let mut file = self.uploading.remove(i);
        let UploadingArg { path: _, headers, hash: _, size: _, chunk_size: _, index, chunk } = arg;
        Self::write_bytes(&mut file.data, offset, &chunk);
        file.chunked.set(index as usize, true);
        file.headers = headers;
        let ghost fu = file@;
        proof {
            assert(fu == write_chunk(base, arg));
        }
        let done = Self::all_chunked(&file.chunked);
        proof {
            assert(done == all_received(fu));
        }
        if done {
            proof {
                assert(self.uploading_view() =~= mid.remove(arg.path@));
                assert(self.model() == StateModel { uploading: m.uploading.remove(arg.path@), ..m });
            }
            self.put_assets(file, now);
            proof {
                assert(all_received(write_chunk(base, arg)));
                assert(old(self).chunk_result(arg, now) == Ok::<StateModel, UploadError>(
                    publish_model(
                        StateModel { uploading: m.uploading.remove(arg.path@), ..m },
                        write_chunk(base, arg),
                        now,
                    ),
                ));
            }
        } else {
            proof {
                assert(before.remove(i as int).insert(i as int, file) =~= before.update(i as int, file));
                lemma_update(before, upload_key(), i as int, file);
            }
            self.uploading.insert(i, file);
            proof {
                assert(self.uploading_view() =~= mid.insert(arg.path@, write_chunk(base, arg)));
                assert(!all_received(write_chunk(base, arg)));
                assert(old(self).chunk_result(arg, now) == Ok::<StateModel, UploadError>(
                    StateModel { uploading: m.uploading.insert(arg.path@, write_chunk(base, arg)), ..m },
                ));
            }
        }
        Ok(())
    }
}

} // verus!

verus! {

/// Reads `ic_canister_kit::times::now`, the time of the current message in
/// nanoseconds. Nothing is claimed of the value: it is the clock's.
#[verifier::external_body]
fn current_time() -> i128 {
    ic_canister_kit::times::now().into_inner()
}

/// Unpublishing each path in turn, together with any upload in progress at it.
pub open spec fn delete_model(m: StateModel, names: Seq<String>) -> StateModel
    decreases names.len(),
{
    if names.len() == 0 {
        m
    } else {
        let m1 = delete_model(m, names.drop_last());
        let p = names.last()@;
        clean_file_model(StateModel { uploading: m1.uploading.remove(p), ..m1 }, p)
    }
}

/// `states` runs from one state to the next by accepting, in turn, each of
/// the chunks `args`, all at time `now`.
pub open spec fn upload_chain(states: Seq<InnerState>, args: Seq<UploadingArg>, now: i128) -> bool {
    &&& states.len() == args.len() + 1
    &&& forall|k: int|
        0 <= k < args.len() ==> #[trigger] states[k].wf() && states[k].chunk_result(args[k], now)
            == Ok::<StateModel, UploadError>(states[k + 1].model())
}

/// `states` runs from one state to the next by accepting, in turn, each of
/// the chunks `args`, chunk `k` at time `times[k]`; the chunks may come in
/// separate calls at different times.
pub open spec fn upload_steps(states: Seq<InnerState>, args: Seq<UploadingArg>, times: Seq<i128>) -> bool {
    &&& states.len() == args.len() + 1
    &&& times.len() == args.len()
    &&& forall|k: int|
        0 <= k < args.len() ==> #[trigger] states[k].wf() && states[k].chunk_result(args[k], times[k])
            == Ok::<StateModel, UploadError>(states[k + 1].model())
}

/// A batch received at one time is a run of steps, all at that time.
pub proof fn lemma_chain_is_steps(states: Seq<InnerState>, args: Seq<UploadingArg>, now: i128)
    requires
        upload_chain(states, args, now),
    ensures
        upload_steps(states, args, Seq::new(args.len(), |k: int| now)),
{
}

/// Two runs of steps, the second starting where the first ends, make one run.
pub proof fn lemma_steps_join(
    s1: Seq<InnerState>,
    a1: Seq<UploadingArg>,
    t1: Seq<i128>,
    s2: Seq<InnerState>,
    a2: Seq<UploadingArg>,
    t2: Seq<i128>,
)
    requires
        upload_steps(s1, a1, t1),
        upload_steps(s2, a2, t2),
        s1.last() == s2[0],
    ensures
        upload_steps(s1 + s2.drop_first(), a1 + a2, t1 + t2),
{
    let s = s1 + s2.drop_first();
    let a = a1 + a2;
    let t = t1 + t2;
    assert forall|k: int| 0 <= k < a.len() implies #[trigger] s[k].wf() && s[k].chunk_result(a[k], t[k])
        == Ok::<StateModel, UploadError>(s[k + 1].model()) by {
        if k < a1.len() {
            assert(s1[k].wf());
            assert(s[k] == s1[k]);
            assert(a[k] == a1[k] && t[k] == t1[k]);
            if k + 1 < s1.len() {
                assert(s[k + 1] == s1[k + 1]);
            } else {
                assert(s[k + 1] == s2[0]);
            }
        } else {
            let j = k - a1.len();
            assert(s2[j].wf());
            assert(a[k] == a2[j] && t[k] == t2[j]);
            assert(s[k + 1] == s2[j + 1]);
            if j == 0 {
                assert(s[k] == s1.last());
            } else {
                assert(s[k] == s2[j]);
            }
        }
    }
}

/// An accepted chunk is a run of one step.
pub proof fn lemma_one_step(before: InnerState, after: InnerState, arg: UploadingArg, now: i128)
    requires
        before.wf(),
        before.chunk_result(arg, now) == Ok::<StateModel, UploadError>(after.model()),
    ensures
        upload_steps(seq![before, after], seq![arg], seq![now]),
{
}

/// From state `s`, the chunks `args` sent at time `now` are accepted in turn
/// until one is refused with `e`; the state is then as the accepted chunks left it, `m`.
pub open spec fn upload_stopped(
    s: InnerState,
    args: Seq<UploadingArg>,
    now: i128,
    m: StateModel,
    e: UploadError,
) -> bool {
    exists|states: Seq<InnerState>|
        #![trigger states.last()]
        states.len() >= 1 && states.len() <= args.len() && upload_chain(
            states,
            args.take(states.len() - 1),
            now,
        ) && states[0] == s && states.last().model() == m && states.last().chunk_result(
            args[states.len() - 1],
            now,
        ) == Err::<StateModel, UploadError>(e)
}

impl Default for InnerState {
    fn default() -> (s: Self)
        ensures
            s.wf(),
            !s.trusts_digests(),
            s.files_view() == Map::<Seq<char>, FileView>::empty(),
            s.assets_view() == Map::<Seq<u8>, Seq<u8>>::empty(),
            s.uploading_view() == Map::<Seq<char>, UploadView>::empty(),
    {
        InnerState::new()
    }
}

impl InnerState {
    /// Receives one chunk at time `now`: checks it, then either republishes a
    /// content already stored under the trusted digest, or writes the chunk
    /// into its upload and publishes the file once every chunk has arrived.
    /// A refused chunk changes nothing, and an accepted one keeps the storage
    /// within its limits.
    pub fn try_put_uploading_at(&mut self, arg: UploadingArg, now: i128) -> (r: Result<(), UploadError>)
        requires
            old(self).wf(),
        ensures
            final(self).wf(),
            match r {
                Ok(()) => old(self).chunk_result(arg, now) == Ok::<StateModel, UploadError>(
                    final(self).model(),
                ),
                Err(e) => old(self).chunk_result(arg, now) == Err::<StateModel, UploadError>(e)
                    && final(self).model() == old(self).model(),
            },
            within_limits(old(self).model()) ==> within_limits(final(self).model()),
    {
        let ghost before = *self;
        let ghost chunk = arg;
        let r = self.receive_chunk_at(arg, now);
        proof {
            if r is Ok && within_limits(before.model()) {
                crate::laws::lemma_accepted_chunk_keeps_limits(&before, chunk, now);
            }
        }
        r
    }

    /// Receives one chunk at the current time; see `try_put_uploading_at`.
    pub fn try_put_uploading(&mut self, arg: UploadingArg) -> (r: Result<(), UploadError>)
        requires
            old(self).wf(),
        ensures
            final(self).wf(),
            exists|now: i128|
                match r {
                    Ok(()) => old(self).chunk_result(arg, now) == Ok::<StateModel, UploadError>(
                        final(self).model(),
                    ),
                    Err(e) => old(self).chunk_result(arg, now) == Err::<StateModel, UploadError>(
                        e,
                    ) && final(self).model() == old(self).model(),
                },
            within_limits(old(self).model()) ==> within_limits(final(self).model()),
    {
        let now = current_time();
        self.try_put_uploading_at(arg, now)
    }

    /// Receives a batch of chunks at time `now`: the batch is checked as a
    /// whole, then each chunk is received in turn until one is refused.
    #[verifier::loop_isolation(false)]
    #[verifier::spinoff_prover]
    pub fn try_business_upload_at(&mut self, args: Vec<UploadingArg>, now: i128) -> (r: Result<
        (),
        UploadError,
    >)
        requires
            old(self).wf(),
        ensures
            final(self).wf(),
            upload_batch_fault(args@) is Some ==> r == as_result(upload_batch_fault(args@))
                && final(self).model() == old(self).model(),
            upload_batch_fault(args@) is None && r is Ok ==> exists|states: Seq<InnerState>|
                upload_chain(states, args@, now) && #[trigger] states[0] == *old(self)
                    && states.last() == *final(self),
            upload_batch_fault(args@) is None && r is Err ==> upload_stopped(
                *old(self),
                args@,
                now,
                final(self).model(),
                r->Err_0,
            ),
            within_limits(old(self).model()) ==> within_limits(final(self).model()),
    {
        let checked = try_check_upload_batch(args.as_slice());
        if checked.is_err() {
            return checked;
        }
        let ghost all = args@;
        let ghost mut states: Seq<InnerState> = seq![*self];
        let mut rest = args;
        let mut k: usize = 0;
        while rest.len() > 0
            invariant
                self.wf(),
                k + rest@.len() == all.len(),
                rest@ == all.skip(k as int),
                states.len() == k + 1,
                states[0] == *old(self),
                states.last() == *self,
                upload_chain(states, all.take(k as int), now),
                within_limits(old(self).model()) ==> within_limits(self.model()),
            decreases rest@.len(),
        {
            let arg = rest.remove(0);
            proof {
                assert(arg == all[k as int]);
            }
            let ghost before = *self;
            let step = self.try_put_uploading_at(arg, now);
            if step.is_err() {
                proof {
                    assert(states.last() == before);
                    assert(states.last().model() == self.model());
                }
                return step;
            }
            proof {
                let next = states.push(*self);
                assert(all.take(k + 1).drop_last() =~= all.take(k as int));
                assert forall|j: int| 0 <= j < k + 1 implies #[trigger] next[j].wf()
                    && next[j].chunk_result(all.take(k + 1)[j], now) == Ok::<StateModel, UploadError>(
                    next[j + 1].model(),
                ) by {
                    if j < k {
                        assert(all.take(k + 1)[j] == all.take(k as int)[j]);
                        assert(next[j] == states[j] && next[j + 1] == states[j + 1]);
                    } else {
                        assert(next[j] == before);
                        assert(next[j + 1] == *self);
                        assert(all.take(k + 1)[j] == arg);
                    }
                }
                states = next;
            }
            k = k + 1;
            proof {
                assert(rest@ =~= all.skip(k as int));
            }
        }
        proof {
            assert(all.take(k as int) =~= all);
        }
        Ok(())
    }

    /// Receives a batch of chunks at the current time; see `try_business_upload_at`.
    pub fn try_business_upload(&mut self, args: Vec<UploadingArg>) -> (r: Result<(), UploadError>)
        requires
            old(self).wf(),
        ensures
            final(self).wf(),
            upload_batch_fault(args@) is Some ==> r == as_result(upload_batch_fault(args@))
                && final(self).model() == old(self).model(),
            upload_batch_fault(args@) is None && r is Ok ==> exists|now: i128, states: Seq<InnerState>|
                #[trigger] upload_chain(states, args@, now) && states[0] == *old(self)
                    && states.last() == *final(self),
            upload_batch_fault(args@) is None && r is Err ==> exists|now: i128|
                #[trigger] upload_stopped(*old(self), args@, now, final(self).model(), r->Err_0),
            within_limits(old(self).model()) ==> within_limits(final(self).model()),
    {
        let now = current_time();
        self.try_business_upload_at(args, now)
    }

    /// Deletes a batch of paths: the batch is checked as a whole, then each
    /// path loses its upload in progress and its published file.
    #[verifier::loop_isolation(false)]
    pub fn try_business_delete(&mut self, names: Vec<String>) -> (r: Result<(), UploadError>)
        requires
            old(self).wf(),
        ensures
            final(self).wf(),
            r == as_result(delete_batch_fault(names@)),
            r is Err ==> final(self).model() == old(self).model(),
            r is Ok ==> final(self).model() == delete_model(old(self).model(), names@),
            within_limits(old(self).model()) ==> within_limits(final(self).model()),
    {
        let checked = try_check_delete_batch(names.as_slice());
        if checked.is_err() {
            return checked;
        }
        let mut i: usize = 0;
        while i < names.len()
            invariant
                self.wf(),
                i <= names@.len(),
                self.model() == delete_model(old(self).model(), names@.take(i as int)),
            decreases names@.len() - i,
        {
            self.clean_uploading(&names[i]);
            self.clean_file(&names[i]);
            proof {
                assert(names@.take(i + 1).drop_last() =~= names@.take(i as int));
            }
            i = i + 1;
        }
        proof {
            assert(names@.take(names@.len() as int) =~= names@);
            if within_limits(old(self).model()) {
                crate::laws::lemma_delete_keeps_limits(old(self).model(), names@);
            }
        }
        Ok(())
    }
}

} // verus!

verus! {

impl InnerState {
    /// Unfolds well-formedness into what it says of the views.
    pub proof fn lemma_index(&self)
        requires
            self.wf(),
        ensures
            self.assets_view().dom() == file_hashes(self.files_view()),
            self.hashes_view().dom() == file_hashes(self.files_view()),
            forall|h: Seq<u8>| #[trigger]
                self.hashes_view().contains_key(h) ==> self.hashes_view()[h] == paths_with_hash(
                    self.files_view(),
                    h,
                ),
    {
    }
}

} // verus!

verus! {

/// A stored content with its digest, as a plain pair.
pub open spec fn pair_key() -> spec_fn((HashDigest, Vec<u8>)) -> Seq<u8> {
    |p: (HashDigest, Vec<u8>)| p.0@
}

/// The parts of a state fit together: each table holds each key once, and the
/// stored contents are exactly those the files name.
pub open spec fn parts_fit(
    assets: Seq<(HashDigest, Vec<u8>)>,
    files: Seq<AssetFile>,
    uploading: Seq<UploadingFile>,
) -> bool {
    &&& distinct_keys(assets, pair_key())
    &&& distinct_keys(files, file_key())
    &&& distinct_keys(uploading, upload_key())
    &&& to_map(assets, pair_key()).dom() == file_hashes(to_map(files, file_key()).map_values(|f: AssetFile| f@))
    &&& forall|i: int| 0 <= i < uploading.len() ==> upload_consistent(#[trigger] uploading[i].path@, uploading[i]@)
}

/// Whether an upload in progress is laid out as its sizes say.
fn consistent_upload(u: &UploadingFile) -> (r: bool)
    ensures
        r == upload_consistent(u.path@, u@),
{
    if u.size == 0 || u.size > crate::upload::MAX_ASSET_FILE_SIZE || u.chunk_size == 0
        || u.chunk_size as usize > crate::upload::MAX_ASSET_UPLOAD_REQUEST_BYTES {
        return false;
    }
    if u.data.len() as u64 != u.size {
        return false;
    }
    let q: u64 = u.size / (u.chunk_size as u64);
    assert(q * u.chunk_size <= u.size) by (nonlinear_arith)
        requires
            q == u.size / (u.chunk_size as u64),
            u.chunk_size > 0,
    ;
    let count: u64 = if q * (u.chunk_size as u64) < u.size {
        q + 1
    } else {
        q
    };
    assert(count == chunk_count(u.size as int, u.chunk_size as int));
    if count != u.chunks as u64 {
        return false;
    }
    u.chunked.len() as u64 == count
}

/// Whether every upload in progress is laid out as its sizes say.
fn consistent_uploads(uploading: &Vec<UploadingFile>) -> (r: bool)
    ensures
        r == forall|i: int|
            0 <= i < uploading@.len() ==> upload_consistent(#[trigger] uploading@[i].path@, uploading@[i]@),
{
    let mut i: usize = 0;
    while i < uploading.len()
        invariant
            i <= uploading@.len(),
            forall|j: int| 0 <= j < i ==> upload_consistent(#[trigger] uploading@[j].path@, uploading@[j]@),
        decreases uploading@.len() - i,
    {
        if !consistent_upload(&uploading[i]) {
            return false;
        }
        i = i + 1;
    }
    true
}

fn distinct_assets(assets: &Vec<(HashDigest, Vec<u8>)>) -> (r: bool)
    ensures
        r == distinct_keys(assets@, pair_key()),
{
    let mut i: usize = 0;
    while i < assets.len()
        invariant
            i <= assets@.len(),
            forall|a: int, b: int|
                0 <= a < i && 0 <= b < assets@.len() && a != b ==> pair_key()(assets@[a])
                    != pair_key()(assets@[b]),
        decreases assets@.len() - i,
    {
        let mut j: usize = 0;
        while j < assets.len()
            invariant
                i < assets@.len(),
                j <= assets@.len(),
                forall|a: int, b: int|
                    0 <= a < i && 0 <= b < assets@.len() && a != b ==> pair_key()(assets@[a])
                        != pair_key()(assets@[b]),
                forall|b: int| 0 <= b < j && i != b ==> pair_key()(assets@[i as int]) != pair_key()(assets@[b]),
            decreases assets@.len() - j,
        {
            if i != j && assets[i].0.same_as(&assets[j].0) {
                return false;
            }
            j = j + 1;
        }
        i = i + 1;
    }
    true
}

fn distinct_files(files: &Vec<AssetFile>) -> (r: bool)
    ensures
        r == distinct_keys(files@, file_key()),
{
    let mut i: usize = 0;
    while i < files.len()
        invariant
            i <= files@.len(),
            forall|a: int, b: int|
                0 <= a < i && 0 <= b < files@.len() && a != b ==> file_key()(files@[a]) != file_key()(
                    files@[b],
                ),
        decreases files@.len() - i,
    {
        let mut j: usize = 0;
        while j < files.len()
            invariant
                i < files@.len(),
                j <= files@.len(),
                forall|a: int, b: int|
                    0 <= a < i && 0 <= b < files@.len() && a != b ==> file_key()(files@[a])
                        != file_key()(files@[b]),
                forall|b: int| 0 <= b < j && i != b ==> file_key()(files@[i as int]) != file_key()(files@[b]),
            decreases files@.len() - j,
        {
            if i != j && files[i].path == files[j].path {
                return false;
            }
            j = j + 1;
        }
        i = i + 1;
    }
    true
}

fn distinct_uploads(uploading: &Vec<UploadingFile>) -> (r: bool)
    ensures
        r == distinct_keys(uploading@, upload_key()),
{
    let mut i: usize = 0;
    while i < uploading.len()
        invariant
            i <= uploading@.len(),
            forall|a: int, b: int|
                0 <= a < i && 0 <= b < uploading@.len() && a != b ==> upload_key()(uploading@[a])
                    != upload_key()(uploading@[b]),
        decreases uploading@.len() - i,
    {
        let mut j: usize = 0;
        while j < uploading.len()
            invariant
                i < uploading@.len(),
                j <= uploading@.len(),
                forall|a: int, b: int|
                    0 <= a < i && 0 <= b < uploading@.len() && a != b ==> upload_key()(uploading@[a])
                        != upload_key()(uploading@[b]),
                forall|b: int|
                    0 <= b < j && i != b ==> upload_key()(uploading@[i as int]) != upload_key()(
                        uploading@[b],
                    ),
            decreases uploading@.len() - j,
        {
            if i != j && uploading[i].path == uploading[j].path {
                return false;
            }
            j = j + 1;
        }
        i = i + 1;
    }
    true
}

} // verus!

verus! {

impl InnerState {
    /// Builds the state that a snapshot's parts describe, rebuilding the
    /// digest index; `None` when the parts do not fit together.
    #[verifier::loop_isolation(false)]
    #[verifier::rlimit(40)]
    pub fn from_parts(
        hashed: bool,
        assets: Vec<(HashDigest, Vec<u8>)>,
        files: Vec<AssetFile>,
        uploading: Vec<UploadingFile>,
    ) -> (r: Option<InnerState>)
        ensures
            r is Some <==> parts_fit(assets@, files@, uploading@),
            r matches Some(s) ==> {
                &&& s.wf()
                &&& s.trusts_digests() == hashed
                &&& s.files_view() == to_map(files@, file_key()).map_values(|f: AssetFile| f@)
                &&& s.assets_view() == to_map(assets@, pair_key()).map_values(
                    |p: (HashDigest, Vec<u8>)| p.1@,
                )
                &&& s.uploading_view() == to_map(uploading@, upload_key()).map_values(
                    |u: UploadingFile| u@,
                )
            },
    {
        if !distinct_assets(&assets) || !distinct_files(&files) || !distinct_uploads(&uploading)
            || !consistent_uploads(&uploading) {
            return None;
        }
        let ghost pairs = assets@;
        let ghost ups = uploading@;
        let ghost fs = files@;
        let mut rest = assets;
        let mut entries: Vec<AssetEntry> = Vec::new();
        while rest.len() > 0
            invariant
                entries@.len() + rest@.len() == pairs.len(),
                rest@ == pairs.skip(entries@.len() as int),
                forall|j: int|
                    0 <= j < entries@.len() ==> (#[trigger] entries@[j]).hash@ == pairs[j].0@
                        && entries@[j].data@ == pairs[j].1@,
            decreases rest@.len(),
        {
            let ghost k = entries@.len() as int;
            let (hash, data) = rest.remove(0);
            proof {
                assert(pairs[k] == (hash, data));
            }
            entries.push(AssetEntry { hash, data: AssetData::from(&hash, data) });
            proof {
                assert(rest@ =~= pairs.skip(entries@.len() as int));
            }
        }
        proof {
            lemma_to_map_pointwise(
                entries@,
                pairs,
                asset_key(),
                pair_key(),
                |e: AssetEntry| e.data@,
                |p: (HashDigest, Vec<u8>)| p.1@,
            );
            assert(distinct_keys(entries@, asset_key()));
        }
        let mut state = InnerState {
            hashed,
            assets: entries,
            files,
            hashes: Vec::new(),
            uploading,
        };
        proof {
            assert(state.hashes_view() =~= Map::<Seq<u8>, Set<Seq<char>>>::empty());
            lemma_to_map_full(state.assets@, asset_key());
            assert(state.tables_ok());
        }
        let mut i: usize = 0;
        while i < state.assets.len()
            invariant
                state.tables_ok(),
                state.hashes@.len() == 0,
                i <= state.assets@.len(),
                forall|j: int|
                    0 <= j < i ==> file_hashes(state.files_view()).contains(
                        #[trigger] state.assets@[j].hash@,
                    ),
            decreases state.assets@.len() - i,
        {
            if !state.file_has_hash(&state.assets[i].hash) {
                proof {
                    assert(to_map(state.assets@, asset_key()).contains_key(state.assets@[i as int].hash@));
                    assert(state.assets_view().dom().contains(state.assets@[i as int].hash@));
                }
                return None;
            }
            i = i + 1;
        }
        let mut j: usize = 0;
        while j < state.files.len()
            invariant
                state.tables_ok(),
                state.hashes@.len() == 0,
                j <= state.files@.len(),
                forall|k: int|
                    0 <= k < j ==> state.assets_view().contains_key(#[trigger] state.files@[k].hash@),
            decreases state.files@.len() - j,
        {
            if state.find_asset(&state.files[j].hash).is_none() {
                proof {
                    state.lemma_file_hashes(state.files@[j as int].hash@);
                    let h = state.files@[j as int].hash@;
                    assert(file_hashes(state.files_view()).contains(h));
                    lemma_to_map_full(state.assets@, asset_key());
                    assert(!state.assets_view().contains_key(h));
                    assert(!to_map(pairs, pair_key()).dom().contains(h));
                }
                return None;
            }
            j = j + 1;
        }
        proof {
            assert forall|h: Seq<u8>| state.assets_view().dom().contains(h) <==> file_hashes(
                state.files_view(),
            ).contains(h) by {
                if state.assets_view().dom().contains(h) {
                    let a = choose|a: int| 0 <= a < state.assets@.len() && asset_key()(state.assets@[a]) == h;
                }
                if file_hashes(state.files_view()).contains(h) {
                    state.lemma_file_hashes(h);
                    let f = choose|f: int| 0 <= f < state.files@.len() && #[trigger] state.files@[f].hash@ == h;
                }
            }
            assert(state.assets_view().dom() =~= file_hashes(state.files_view()));
        }
        let ghost all_files = state.files@;
        let mut n: usize = 0;
        while n < state.files.len()
            invariant
                state.tables_ok(),
                state.files@ == all_files,
                all_files == fs,
                state.hashed == hashed,
                state.uploading@ == ups,
                state.assets_view() == to_map(pairs, pair_key()).map_values(
                    |p: (HashDigest, Vec<u8>)| p.1@,
                ),
                distinct_keys(pairs, pair_key()),
                distinct_keys(fs, file_key()),
                distinct_keys(ups, upload_key()),
                state.assets_view().dom() == file_hashes(state.files_view()),
                n <= all_files.len(),
                state.hashes_view().dom() == file_hashes(
                    to_map(all_files.take(n as int), file_key()).map_values(|f: AssetFile| f@),
                ),
                forall|h: Seq<u8>| #[trigger]
                    state.hashes_view().contains_key(h) ==> state.hashes_view()[h] == paths_with_hash(
                        to_map(all_files.take(n as int), file_key()).map_values(|f: AssetFile| f@),
                        h,
                    ),
            decreases all_files.len() - n,
        {
            let hash = state.files[n].hash;
            let path = state.files[n].path.clone();
            let ghost before = to_map(all_files.take(n as int), file_key()).map_values(
                |f: AssetFile| f@,
            );
            let ghost fv = all_files[n as int]@;
            proof {
                assert(all_files.take(n + 1).drop_last() =~= all_files.take(n as int));
                assert(all_files.take(n + 1).last() == all_files[n as int]);
                assert(to_map(all_files.take(n + 1), file_key()).map_values(|f: AssetFile| f@)
                    =~= before.insert(path@, fv));
                lemma_to_map_dom(all_files.take(n as int), file_key(), path@);
                if has_key(all_files.take(n as int), file_key(), path@) {
                    let a = choose|a: int|
                        0 <= a < all_files.take(n as int).len() && file_key()(
                            all_files.take(n as int)[a],
                        ) == path@;
                    assert(all_files.take(n as int)[a] == all_files[a]);
                    assert(file_key()(all_files[a]) == file_key()(all_files[n as int]));
                }
                assert(!before.contains_key(path@));
                lemma_files_insert(before, path@, fv);
            }
            state.index_path(&hash, &path);
            proof {
                let after = before.insert(path@, fv);
                assert(state.hashes_view().dom() =~= file_hashes(after));
                assert forall|h: Seq<u8>| #[trigger]
                    state.hashes_view().contains_key(h) implies state.hashes_view()[h]
                    == paths_with_hash(after, h) by {
                    if h == hash@ {
                        if before.contains_key(path@) {
                        }
                        if !file_hashes(before).contains(h) {
                            assert(paths_with_hash(before, h) =~= Set::<Seq<char>>::empty());
                        }
                    }
                }
            }
            n = n + 1;
        }
        proof {
            assert(all_files.take(n as int) =~= all_files);
            assert(to_map(pairs, pair_key()).dom() =~= state.assets_view().dom());
            lemma_to_map_full(ups, upload_key());
            assert forall|p: Seq<char>| #[trigger] state.uploading_view().contains_key(p) implies upload_consistent(
                p,
                state.uploading_view()[p],
            ) by {
                let a = choose|a: int| 0 <= a < ups.len() && upload_key()(ups[a]) == p;
                assert(upload_consistent(ups[a].path@, ups[a]@));
            }
        }
        Some(state)
    }

    /// The parts that a snapshot of the state holds: the trust setting, the
    /// stored contents with their digests, the published files and the
    /// uploads in progress.
    pub fn into_parts(self) -> (r: (bool, Vec<(HashDigest, Vec<u8>)>, Vec<AssetFile>, Vec<UploadingFile>))
        requires
            self.wf(),
        ensures
            parts_fit(r.1@, r.2@, r.3@),
            r.0 == self.trusts_digests(),
            to_map(r.2@, file_key()).map_values(|f: AssetFile| f@) == self.files_view(),
            to_map(r.1@, pair_key()).map_values(|p: (HashDigest, Vec<u8>)| p.1@) == self.assets_view(),
            to_map(r.3@, upload_key()).map_values(|u: UploadingFile| u@) == self.uploading_view(),
    {
        let ghost old_self = self;
        let InnerState { hashed, assets, files, hashes: _, uploading } = self;
        let ghost entries = assets@;
        let mut rest = assets;
        let mut pairs: Vec<(HashDigest, Vec<u8>)> = Vec::new();
        while rest.len() > 0
            invariant
                pairs@.len() + rest@.len() == entries.len(),
                rest@ == entries.skip(pairs@.len() as int),
                forall|j: int|
                    0 <= j < pairs@.len() ==> (#[trigger] pairs@[j]).0@ == entries[j].hash@
                        && pairs@[j].1@ == entries[j].data@,
            decreases rest@.len(),
        {
            let ghost k = pairs@.len() as int;
            let entry = rest.remove(0);
            proof {
                assert(entry == entries[k]);
            }
            let AssetEntry { hash, data } = entry;
            pairs.push((hash, data.into_bytes()));
            proof {
                assert(rest@ =~= entries.skip(pairs@.len() as int));
            }
        }
        proof {
            lemma_to_map_pointwise(
                pairs@,
                entries,
                pair_key(),
                asset_key(),
                |p: (HashDigest, Vec<u8>)| p.1@,
                |e: AssetEntry| e.data@,
            );
            assert(distinct_keys(entries, asset_key()));
            assert(distinct_keys(pairs@, pair_key())) by {
                assert forall|a: int, b: int|
                    0 <= a < pairs@.len() && 0 <= b < pairs@.len() && a != b implies pair_key()(
                    pairs@[a],
                ) != pair_key()(pairs@[b]) by {
                    assert(asset_key()(entries[a]) != asset_key()(entries[b]));
                }
            }
            assert(to_map(pairs@, pair_key()).dom() =~= old_self.assets_view().dom());
            lemma_to_map_full(uploading@, upload_key());
            assert forall|i: int| 0 <= i < uploading@.len() implies upload_consistent(
                #[trigger] uploading@[i].path@,
                uploading@[i]@,
            ) by {
                assert(old_self.uploading_view().contains_key(upload_key()(uploading@[i])));
            }
        }
        (hashed, pairs, files, uploading)
    }
}

/// A snapshot of a well-formed state restores it: the parts fit together and
/// describe the same trust setting, files, contents and uploads.
pub proof fn lemma_snapshot_round_trip(
    s: InnerState,
    hashed: bool,
    assets: Seq<(HashDigest, Vec<u8>)>,
    files: Seq<AssetFile>,
    uploading: Seq<UploadingFile>,
)
    requires
        s.wf(),
        parts_fit(assets, files, uploading),
        hashed == s.trusts_digests(),
        to_map(files, file_key()).map_values(|f: AssetFile| f@) == s.files_view(),
        to_map(assets, pair_key()).map_values(|p: (HashDigest, Vec<u8>)| p.1@) == s.assets_view(),
        to_map(uploading, upload_key()).map_values(|u: UploadingFile| u@) == s.uploading_view(),
    ensures
        forall|t: InnerState|
            t.wf() && t.trusts_digests() == hashed && t.files_view() == to_map(
                files,
                file_key(),
            ).map_values(|f: AssetFile| f@) && t.assets_view() == to_map(assets, pair_key()).map_values(
                |p: (HashDigest, Vec<u8>)| p.1@,
            ) && t.uploading_view() == to_map(uploading, upload_key()).map_values(
                |u: UploadingFile| u@,
            ) ==> #[trigger] t.model() == s.model(),
{
}

} // verus!

verus! {

impl InnerState {
    /// Why chunk `arg` would be refused, if it would: a fault of its path,
    /// headers, sizes or data; a size other than that of the stored content
    /// under a trusted digest; or, when it starts a new upload, the limits.
    /// Whether a chunk is refused does not depend on the time.
    pub open spec fn chunk_fault(&self, arg: UploadingArg) -> Option<UploadError> {
        let m = self.model();
        match path_and_headers_fault(arg) {
            Some(e) => Some(e),
            None => match size_and_data_fault(arg) {
                Some(e) => Some(e),
                None => if m.hashed && m.assets.contains_key(arg.hash@) {
                    if arg.size != self.existing_size(arg.hash@) {
                        Some(UploadError::ExistingHashSizeMismatch)
                    } else {
                        None
                    }
                } else if m.uploading.contains_key(arg.path@) && upload_matches(
                    m.uploading[arg.path@],
                    arg,
                ) {
                    None
                } else {
                    self.capacity_fault(arg)
                },
            },
        }
    }

    /// A chunk is refused at some time exactly when `chunk_fault` names a
    /// fault, and then with that fault.
    pub proof fn lemma_chunk_fault(&self, arg: UploadingArg, now: i128)
        ensures
            self.chunk_fault(arg) is None <==> self.chunk_result(arg, now) is Ok,
            self.chunk_fault(arg) matches Some(e) ==> self.chunk_result(arg, now) == Err::<
                StateModel,
                UploadError,
            >(e),
    {
        reveal(InnerState::chunk_result);
    }

    /// Makes sure an upload with the layout of `arg` is in progress at its
    /// path, where the limits allow a fresh one if it is needed; on any
    /// other chunk this panics with the reason.
    pub fn assure_uploading(&mut self, arg: &UploadingArg)
        requires
            old(self).wf(),
            sizes_ok(arg.size, arg.chunk_size),
            !(old(self).uploading_view().contains_key(arg.path@) && upload_matches(
                old(self).uploading_view()[arg.path@],
                *arg,
            )) ==> old(self).capacity_fault(*arg) is None,
        ensures
            final(self).wf(),
            final(self).files_view() == old(self).files_view(),
            final(self).assets_view() == old(self).assets_view(),
            final(self).trusts_digests() == old(self).trusts_digests(),
            old(self).uploading_view().contains_key(arg.path@) && upload_matches(
                old(self).uploading_view()[arg.path@],
                *arg,
            ) ==> final(self).uploading_view() == old(self).uploading_view(),
            !(old(self).uploading_view().contains_key(arg.path@) && upload_matches(
                old(self).uploading_view()[arg.path@],
                *arg,
            )) ==> final(self).uploading_view() == old(self).uploading_view().insert(
                arg.path@,
                fresh_upload(*arg),
            ),
    {
        if let Err(e) = self.try_assure_uploading(arg) {
            Option::<()>::None.expect(e.message());
        }
    }

    /// Receives one chunk at time `now` that is not refused (see
    /// `chunk_fault`); on a refused chunk this panics with the reason. The
    /// storage stays within its limits.
    pub fn put_uploading_at(&mut self, arg: UploadingArg, now: i128)
        requires
            old(self).wf(),
            old(self).chunk_fault(arg) is None,
        ensures
            final(self).wf(),
            old(self).chunk_result(arg, now) == Ok::<StateModel, UploadError>(final(self).model()),
            within_limits(old(self).model()) ==> within_limits(final(self).model()),
    {
        proof {
            self.lemma_chunk_fault(arg, now);
        }
        if let Err(e) = self.try_put_uploading_at(arg, now) {
            Option::<()>::None.expect(e.message());
        }
    }

    /// Receives one chunk that is not refused at the current time; see
    /// `put_uploading_at`.
    pub fn put_uploading(&mut self, arg: UploadingArg)
        requires
            old(self).wf(),
            old(self).chunk_fault(arg) is None,
        ensures
            final(self).wf(),
            exists|now: i128|
                old(self).chunk_result(arg, now) == Ok::<StateModel, UploadError>(final(self).model()),
            within_limits(old(self).model()) ==> within_limits(final(self).model()),
    {
        let now = current_time();
        self.put_uploading_at(arg, now);
    }

    /// Receives a batch of chunks within the request limits at time `now`:
    /// each chunk in turn until one is refused; on a batch beyond the limits
    /// this panics with the reason. See `try_business_upload_at`.
    pub fn business_upload_at(&mut self, args: Vec<UploadingArg>, now: i128) -> (r: Result<(), UploadError>)
        requires
            old(self).wf(),
            upload_batch_fault(args@) is None,
        ensures
            final(self).wf(),
            r is Ok ==> exists|states: Seq<InnerState>|
                upload_chain(states, args@, now) && #[trigger] states[0] == *old(self)
                    && states.last() == *final(self),
            r is Err ==> upload_stopped(*old(self), args@, now, final(self).model(), r->Err_0),
            within_limits(old(self).model()) ==> within_limits(final(self).model()),
    {
        self.try_business_upload_at(args, now)
    }

    /// Receives a batch of chunks within the request limits at the current
    /// time; see `business_upload_at`.
    pub fn business_upload(&mut self, args: Vec<UploadingArg>) -> (r: Result<(), UploadError>)
        requires
            old(self).wf(),
            upload_batch_fault(args@) is None,
        ensures
            final(self).wf(),
            r is Ok ==> exists|now: i128, states: Seq<InnerState>|
                #[trigger] upload_chain(states, args@, now) && states[0] == *old(self)
                    && states.last() == *final(self),
            r is Err ==> exists|now: i128|
                #[trigger] upload_stopped(*old(self), args@, now, final(self).model(), r->Err_0),
            within_limits(old(self).model()) ==> within_limits(final(self).model()),
    {
        self.try_business_upload(args)
    }

    /// Deletes a batch of paths within the request limits: each path loses
    /// its upload in progress and its published file; on a batch beyond the
    /// limits this panics with the reason.
    pub fn business_delete(&mut self, names: Vec<String>)
        requires
            old(self).wf(),
            delete_batch_fault(names@) is None,
        ensures
            final(self).wf(),
            final(self).model() == delete_model(old(self).model(), names@),
            within_limits(old(self).model()) ==> within_limits(final(self).model()),
    {
        if let Err(e) = self.try_business_delete(names) {
            Option::<()>::None.expect(e.message());
        }
    }
}

} // verus!
