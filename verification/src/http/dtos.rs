use vstd::prelude::*;

verus! {

/// What an upload answers: the key under which the payload was stored, and
/// the payload's length in bytes.
#[derive(Debug, Clone)]
pub struct UploadResponse {
    pub key: String,
    pub size: usize,
}

/// What a download asks for: the key of a stored payload.
#[derive(Clone)]
pub struct DownloadRequest {
    pub key: String,
}

} // verus!
