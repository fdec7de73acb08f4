//! Stored content and the published files that point to it.

use crate::digest::HashDigest;
use vstd::prelude::*;

verus! {

/// The bytes of one stored file content.
pub struct AssetData {
    data: Vec<u8>,
}

impl View for AssetData {
    type V = Seq<u8>;

    closed spec fn view(&self) -> Seq<u8> {
        self.data@
    }
}

/// A published file: a path, its headers and the digest of its content.
pub struct AssetFile {
    pub path: String,
    /// When the path was first published, in nanoseconds.
    pub created: i128,
    /// When the path was last published, in nanoseconds.
    pub modified: i128,
    pub headers: Vec<(String, String)>,
    pub hash: HashDigest,
    pub size: u64,
}

/// A published file as the contracts see it.
pub struct FileView {
    pub path: Seq<char>,
    pub created: i128,
    pub modified: i128,
    pub headers: Seq<(String, String)>,
    pub hash: Seq<u8>,
    pub size: u64,
}

impl View for AssetFile {
    type V = FileView;

    open spec fn view(&self) -> FileView {
        FileView {
            path: self.path@,
            created: self.created,
            modified: self.modified,
            headers: self.headers@,
            hash: self.hash@,
            size: self.size,
        }
    }
}

/// Why a download is refused.
#[derive(Debug, Clone, Copy, PartialEq, Eq)]
pub enum DownloadError {
    FileNotFound,
    DirectDownloadTooLarge,
    DownloadSizeTooLarge,
    FileSizeOutOfAddressRange,
    OffsetOutOfAddressRange,
    SizeOutOfAddressRange,
    AssetSizeOutOfAddressRange,
    AssetSizeMismatch,
    OffsetBeyondFile,
    SliceRangeOverflow,
    SliceBeyondFile,
}

pub open spec fn download_error_message(e: DownloadError) -> Seq<char> {
    match e {
        DownloadError::FileNotFound => "File not found"@,
        DownloadError::DirectDownloadTooLarge =>
            "File is too large for a direct query; use business_download_by or HTTP streaming."@,
        DownloadError::DownloadSizeTooLarge => "Download size exceeds the direct query response limit."@,
        DownloadError::FileSizeOutOfAddressRange => "File size exceeds the platform address range."@,
        DownloadError::OffsetOutOfAddressRange => "Asset offset exceeds the platform address range."@,
        DownloadError::SizeOutOfAddressRange => "Asset size exceeds the platform address range."@,
        DownloadError::AssetSizeOutOfAddressRange => "Asset size exceeds the platform address range."@,
        DownloadError::AssetSizeMismatch => "Asset metadata size does not match its data."@,
        DownloadError::OffsetBeyondFile => "Asset offset exceeds file size."@,
        DownloadError::SliceRangeOverflow => "Asset slice range overflow."@,
        DownloadError::SliceBeyondFile => "Asset slice exceeds file size."@,
    }
}

impl DownloadError {
    /// The text with which the download is refused.
    pub fn message(&self) -> (m: &'static str)
        ensures
            m@ == download_error_message(*self),
    {
        match self {
            DownloadError::FileNotFound => "File not found",
            DownloadError::DirectDownloadTooLarge =>
                "File is too large for a direct query; use business_download_by or HTTP streaming.",
            DownloadError::DownloadSizeTooLarge => "Download size exceeds the direct query response limit.",
            DownloadError::FileSizeOutOfAddressRange => "File size exceeds the platform address range.",
            DownloadError::OffsetOutOfAddressRange => "Asset offset exceeds the platform address range.",
            DownloadError::SizeOutOfAddressRange => "Asset size exceeds the platform address range.",
            DownloadError::AssetSizeOutOfAddressRange => "Asset size exceeds the platform address range.",
            DownloadError::AssetSizeMismatch => "Asset metadata size does not match its data.",
            DownloadError::OffsetBeyondFile => "Asset offset exceeds file size.",
            DownloadError::SliceRangeOverflow => "Asset slice range overflow.",
            DownloadError::SliceBeyondFile => "Asset slice exceeds file size.",
        }
    }
}

/// What reading `size` bytes at `offset` from content `data`, which the file's
/// metadata says is `data_size` bytes long, gives.
pub open spec fn slice_result(data: Seq<u8>, data_size: u64, offset: usize, size: usize) -> Result<
    Seq<u8>,
    DownloadError,
> {
    if data_size > usize::MAX {
        Err(DownloadError::AssetSizeOutOfAddressRange)
    } else if data.len() != data_size {
        Err(DownloadError::AssetSizeMismatch)
    } else if offset > data_size {
        Err(DownloadError::OffsetBeyondFile)
    } else if offset + size > usize::MAX {
        Err(DownloadError::SliceRangeOverflow)
    } else if offset + size > data_size {
        Err(DownloadError::SliceBeyondFile)
    } else {
        Ok(data.subrange(offset as int, offset + size))
    }
}

impl AssetData {
    /// Stores the content of a file; the digest names it but is not kept.
    pub fn from(_hash: &HashDigest, data: Vec<u8>) -> (asset: Self)
        ensures
            asset@ == data@,
    {
        AssetData { data }
    }

    /// The stored bytes.
    pub fn into_bytes(self) -> (data: Vec<u8>)
        ensures
            data@ == self@,
    {
        self.data
    }

    pub fn len(&self) -> (n: usize)
        ensures
            n == self@.len(),
    {
        self.data.len()
    }

    /// Reads `size` bytes at `offset`, after checking that the content has
    /// the size the metadata gives and that the range lies inside it; else
    /// says why not.
    pub fn try_slice(&self, _hash: &HashDigest, data_size: u64, offset: usize, size: usize) -> (r: Result<
        &[u8],
        DownloadError,
    >)
        ensures
            match (r, slice_result(self@, data_size, offset, size)) {
                (Ok(s), Ok(t)) => s@ == t,
                (Err(e), Err(f)) => e == f,
                _ => false,
            },
    {
        if data_size > usize::MAX as u64 {
            return Err(DownloadError::AssetSizeOutOfAddressRange);
        }
        let data_size = data_size as usize;
        if self.data.len() != data_size {
            return Err(DownloadError::AssetSizeMismatch);
        }
        if offset > data_size {
            return Err(DownloadError::OffsetBeyondFile);
        }
        if size > usize::MAX - offset {
            return Err(DownloadError::SliceRangeOverflow);
        }
        let offset_end = offset + size;
        if offset_end > data_size {
            return Err(DownloadError::SliceBeyondFile);
        }
        Ok(vstd::slice::slice_subrange(self.data.as_slice(), offset, offset_end))
    }
}

impl AssetData {
    /// Reads `size` bytes at `offset` of a content that has the size the
    /// metadata gives and holds the range; on any other request this panics
    /// with the reason.
    pub fn slice(&self, hash: &HashDigest, data_size: u64, offset: usize, size: usize) -> (r: &[u8])
        requires
            slice_result(self@, data_size, offset, size) is Ok,
        ensures
            r@ == slice_result(self@, data_size, offset, size)->Ok_0,
    {
        match self.try_slice(hash, data_size, offset, size) {
            Ok(s) => s,
            Err(e) => Option::<&[u8]>::None.expect(e.message()),
        }
    }
}

} // verus!
