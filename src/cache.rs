//! Decisions of the page cache: the key of a URL, the names of its two
//! stored artifacts, whether a stored entry is still fresh, and what a
//! download leaves behind. Reading and writing the artifacts is the
//! caller's part.
use vstd::prelude::*;
use vstd::string::StringSliceAdditionalSpecFns;

verus! {

/// The SHA-256 digest of a byte string.
pub uninterp spec fn sha256_of(data: Seq<u8>) -> Seq<u8>;

/// Relies on sha2's Digest::digest for Sha256: the 32-byte digest of `data`.
#[verifier::external_body]
fn sha256(data: &[u8]) -> (r: Vec<u8>)
    ensures
        r@ == sha256_of(data@),
        r@.len() == 32,
{
    <sha2::Sha256 as sha2::Digest>::digest(data).to_vec()
}

/// The lower-case hexadecimal digit of a value below 16.
pub open spec fn hex_digit(v: u8) -> char {
    if v < 10 {
        ((v + 48) as u8) as char
    } else {
        ((v + 87) as u8) as char
    }
}

/// Two lower-case hexadecimal digits per byte, high nibble first.
pub open spec fn hex_of(b: Seq<u8>) -> Seq<char>
    decreases b.len(),
{
    if b.len() == 0 {
        Seq::empty()
    } else {
        hex_of(b.drop_last()) + seq![hex_digit(b.last() / 16), hex_digit(b.last() % 16)]
    }
}

/// Relies on hex::encode: two lower-case hexadecimal digits for each byte,
/// high nibble first.
#[verifier::external_body]
fn hex_encode(b: &Vec<u8>) -> (r: String)
    ensures
        r@ == hex_of(b@),
{
    hex::encode(b)
}

/// The cache key of a request URL: the hex digest of its UTF-8 bytes.
pub open spec fn key_of(url: &str) -> Seq<char> {
    hex_of(sha256_of(url.spec_bytes()))
}

/// The cache key of `url`, which must be given without fragment.
pub fn cache_key(url: &str) -> (r: String)
    ensures
        r@ == key_of(url),
{
    let digest = sha256(url.as_bytes());
    hex_encode(&digest)
}

/// `.body`: the suffix of the body artifact.
pub open spec fn body_suffix() -> Seq<char> {
    seq!['.', 'b', 'o', 'd', 'y']
}

/// `.json`: the suffix of the metadata artifact.
pub open spec fn meta_suffix() -> Seq<char> {
    seq!['.', 'j', 's', 'o', 'n']
}

/// The file names of a key's body and metadata artifacts.
pub fn artifact_names(key: &str) -> (r: (String, String))
    ensures
        r.0@ == key@ + body_suffix(),
        r.1@ == key@ + meta_suffix(),
{
    proof {
        reveal_strlit(".body");
        reveal_strlit(".json");
        assert(".body"@ =~= body_suffix());
        assert(".json"@ =~= meta_suffix());
    }
    let body = String::from_str(key).concat(".body");
    let meta = String::from_str(key).concat(".json");
    (body, meta)
}

/// An entry saved at `saved_at` is fresh at `now` under `ttl`: the seconds
/// elapsed, saturating at zero, do not exceed the TTL.
pub open spec fn fresh(saved_at: u64, now: u64, ttl: u64) -> bool {
    if now >= saved_at {
        now - saved_at <= ttl
    } else {
        true
    }
}

pub fn is_fresh(saved_at: u64, now: u64, ttl_secs: u64) -> (r: bool)
    ensures
        r == fresh(saved_at, now, ttl_secs),
{
    now.saturating_sub(saved_at) <= ttl_secs
}

/// A stored page: its body and the second at which it was saved.
#[derive(Clone, Debug)]
pub struct CacheEntry {
    pub body: String,
    pub saved_at: u64,
}

/// The body to serve from the cache: a stored entry's body while it is
/// fresh, else nothing (the page must then be downloaded).
pub open spec fn lookup(entry: Option<CacheEntry>, now: u64, ttl: u64) -> Option<Seq<char>> {
    match entry {
        Some(e) => if fresh(e.saved_at, now, ttl) {
            Some(e.body@)
        } else {
            None
        },
        None => None,
    }
}

/// The cached body to serve, if any; `None` means a download is due.
/// A stored entry that could not be read is passed as `None`.
pub fn cached_body(entry: Option<CacheEntry>, now: u64, ttl_secs: u64) -> (r: Option<String>)
    ensures
        crate::site::opt_seq(r) == lookup(entry, now, ttl_secs),
{
    match entry {
        Some(e) => if is_fresh(e.saved_at, now, ttl_secs) {
            Some(e.body)
        } else {
            None
        },
        None => None,
    }
}

/// A status code in the 2xx range.
pub open spec fn success_status(status: u16) -> bool {
    200 <= status <= 299
}

/// What a download leaves: the body handed to the caller and the entry to
/// store, or nothing of either after a transport error (`status` is `None`)
/// or a status outside 2xx.
pub fn after_download(status: Option<u16>, body: String, now: u64) -> (r: (Option<String>, Option<CacheEntry>))
    ensures
        status matches Some(s) && success_status(s) ==> {
            &&& r.0 matches Some(b) && b@ == body@
            &&& r.1 matches Some(e) && e.body@ == body@ && e.saved_at == now
        },
        !(status matches Some(s) && success_status(s)) ==> r.0 is None && r.1 is None,
{
    match status {
        Some(s) => if 200 <= s && s <= 299 {
            let entry = CacheEntry { body: body.clone(), saved_at: now };
            (Some(body), Some(entry))
        } else {
            (None, None)
        },
        None => (None, None),
    }
}

/// A cache round trip: what a successful download at `saved` stores is
/// served, with no download, at every `now` within the TTL; past the TTL a
/// download is due, and a successful one replaces the entry with its own
/// body and time.
pub proof fn lemma_cache_round_trip(e: CacheEntry, body: Seq<char>, saved: u64, now: u64, ttl: u64, later: CacheEntry)
    requires
        e.body@ == body,
        e.saved_at == saved,
        later.saved_at == now,
    ensures
        now >= saved && now - saved <= ttl ==> lookup(Some(e), now, ttl) == Some(body),
        now >= saved && now - saved > ttl ==> lookup(Some(e), now, ttl) is None,
        lookup(Some(later), now, ttl) == Some(later.body@),
{
}

/// The number of permits of the fetch pool: the configured concurrency,
/// at least one.
pub fn pool_size(concurrency: usize) -> (r: usize)
    ensures
        r == if concurrency == 0 {
            1
        } else {
            concurrency
        },
{
    if concurrency == 0 {
        1
    } else {
        concurrency
    }
}

} // verus!
