use crate::http::common::{
    build_error_response, StandardApiJsonBody, StandardApiResult, STATUS_NOT_FOUND, STATUS_OK,
};
use crate::http::decimal::{decimal, numeral_value, parse_decimal, to_decimal};
use crate::http::dtos::{DownloadRequest, UploadResponse};
use crate::lru::cache::Cache;
use crate::lru::lru_cache::LRUCache;
use crate::lru::model::{has_key, inserted, promoted, value_of};
use std::hash::Hasher;
use vstd::prelude::*;
use vstd::std_specs::hash::DefaultHasherAdditionalSpecFns;
use vstd::string::StringExecFns;

verus! {

/// The hash of a payload: the number under which the cache keeps it.
pub open spec fn payload_hash(buf: Seq<u8>) -> u64 {
    std::hash::DefaultHasher::spec_finish(seq![buf])
}

/// The payload that the cache `s` holds for the key `key`, as a client
/// writes it: the payload kept under the number that `key` is the decimal
/// numeral of. No payload is held for a text that is no such numeral.
pub open spec fn stored(s: Seq<(u64, Vec<u8>)>, key: Seq<char>) -> Option<Vec<u8>> {
    match numeral_value(key) {
        Some(id) => value_of(s, id),
        None => None,
    }
}

/// The cache `s` after a client asked for the key `key`: the payload that
/// was asked for, if it is there, is the most recently used.
pub open spec fn asked_for(s: Seq<(u64, Vec<u8>)>, key: Seq<char>) -> Seq<(u64, Vec<u8>)> {
    match numeral_value(key) {
        Some(id) => promoted(s, id),
        None => s,
    }
}

/// Hashes a payload.
pub fn blob_id(buf: &[u8]) -> (id: u64)
    ensures
        id == payload_hash(buf@),
{
    let mut hasher = std::hash::DefaultHasher::new();
    hasher.write(buf);
    hasher.finish()
}

/// The headers that go with a payload that was found.
#[derive(Clone, Debug)]
pub struct DownloadHeaders {
    pub content_type: String,
    pub content_disposition: String,
}

/// The content disposition of the payload stored under `key`: an
/// attachment named after the key.
pub open spec fn disposition(key: Seq<char>) -> Seq<char> {
    "attachment; filename=\""@ + key + "\""@
}

/// Makes the headers that go with the payload stored under `key`.
pub fn download_headers(key: &str) -> (headers: DownloadHeaders)
    ensures
        headers.content_type@ == "application/octet-stream"@,
        headers.content_disposition@ == disposition(key@),
{
    let disposition_val = String::from_str("attachment; filename=\"").concat(key).concat("\"");
    DownloadHeaders {
        content_type: String::from_str("application/octet-stream"),
        content_disposition: disposition_val,
    }
}

/// Answers a download. The headers are made in any case. A payload that is
/// found becomes the most recently used and is handed out as a copy; a key
/// under which nothing is stored is answered with "not found" and leaves
/// the cache as it was.
pub fn download(cache: &mut LRUCache<u64, Vec<u8>>, req: DownloadRequest) -> (r: (
    DownloadHeaders,
    Result<Vec<u8>, (u16, String)>,
))
    requires
        old(cache).wf(),
    ensures
        final(cache).wf(),
        final(cache).capacity() == old(cache).capacity(),
        final(cache)@ == asked_for(old(cache)@, req.key@),
        r.0.content_type@ == "application/octet-stream"@,
        r.0.content_disposition@ == disposition(req.key@),
        match r.1 {
            Ok(body) => stored(old(cache)@, req.key@) is Some && body@ == stored(
                old(cache)@,
                req.key@,
            ).unwrap()@,
            Err((status, message)) => stored(old(cache)@, req.key@) is None && status
                == STATUS_NOT_FOUND && message@ == "Data not found"@,
        },
{
    let key = req.key;
    let found = match parse_decimal(key.as_str()) {
        Some(id) => match cache.get(&id) {
            Some(buf) => Some(buf.clone()),
            None => None,
        },
        None => None,
    };
    let res = match found {
        Some(body) => Ok(body),
        None => Err((STATUS_NOT_FOUND, String::from_str("Data not found"))),
    };
    (download_headers(key.as_str()), res)
}

/// Answers an upload. A payload is stored under its hash and answered with
/// its key, the decimal numeral of that hash, and its length; an upload
/// without a payload is refused and leaves the cache as it was.
pub fn upload(cache: &mut LRUCache<u64, Vec<u8>>, field: Option<Vec<u8>>) -> (r: StandardApiResult<
    UploadResponse,
>)
    requires
        old(cache).wf(),
    ensures
        final(cache).wf(),
        final(cache).capacity() == old(cache).capacity(),
        match field {
            Some(buf) => r is Ok && r->Ok_0.code@ == "00000"@ && r->Ok_0.message@ == "success"@
                && r->Ok_0.data.size == buf@.len() && r->Ok_0.data.key@ == decimal(
                payload_hash(buf@) as nat,
            ) && final(cache)@ == inserted(
                old(cache)@,
                old(cache).capacity(),
                payload_hash(buf@),
                buf,
            ),
            None => r is Err && r->Err_0.0 == STATUS_OK && r->Err_0.1.code@ == "10001"@
                && r->Err_0.1.message@ == "No data uploaded"@ && final(cache)@ == old(cache)@,
        },
{
    match field {
        Some(buf) => {
            let size = buf.len();
            let id = blob_id(buf.as_slice());
            cache.put(id, buf);
            let res = UploadResponse { key: to_decimal(id), size };
            Ok(StandardApiJsonBody::from(res))
        },
        None => Err(
            build_error_response(String::from_str("10001"), String::from_str("No data uploaded")),
        ),
    }
}

/// What was uploaded is found under the key that the upload answered: in
/// the cache that an upload of `buf` leaves, the key made for `buf` leads
/// to `buf`.
pub proof fn lemma_upload_then_download(s: Seq<(u64, Vec<u8>)>, cap: nat, buf: Vec<u8>)
    requires
        crate::lru::model::distinct_keys(s),
        s.len() <= cap,
        0 < cap,
    ensures
        stored(
            inserted(s, cap, payload_hash(buf@), buf),
            decimal(payload_hash(buf@) as nat),
        ) == Some(buf),
{
    let id = payload_hash(buf@);
    crate::http::decimal::lemma_numeral_value(decimal(id as nat), id);
    crate::lru::model::lemma_inserted(s, cap, id, buf);
}

} // verus!
