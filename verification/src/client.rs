//! The storage client's handle and the bookkeeping of its multi-step calls:
//! where a bucket is created, which listed keys are kept, how a listing is
//! paged, and how a batch delete is chunked and reported.
use vstd::prelude::*;

use crate::error::{S3Error, S3Result};
use crate::text::{ends_with, ends_with_char};
use aws_sdk_s3::Client;

verus! {

#[verifier::external_type_specification]
#[verifier::external_body]
pub struct ExClient(Client);

/// `Clone` of the SDK client, which shares the connection handle. The client is
/// opaque here, so nothing is said of the copy.
pub assume_specification[ <Client as Clone>::clone ](c: &Client) -> Client;

/// The most keys that one `DeleteObjects` request may name.
pub const DELETE_CHUNK: usize = 1000;

/// The region in which S3 takes no location constraint.
pub open spec fn default_region() -> Seq<char> {
    "us-east-1"@
}

/// A connection to an S3-compatible service, with the region and endpoint it
/// was made for.
#[derive(Debug)]
pub struct S3Client {
    inner: Client,
    region: String,
    endpoint: String,
}

impl Clone for S3Client {
    /// A copy for the same region and endpoint, sharing the SDK client's
    /// connection handle.
    fn clone(&self) -> (res: S3Client)
        ensures
            res.region_view() == self.region_view(),
            res.endpoint_view() == self.endpoint_view(),
    {
        S3Client {
            inner: self.inner.clone(),
            region: self.region.clone(),
            endpoint: self.endpoint.clone(),
        }
    }
}

impl S3Client {
    /// The region that the client was made for.
    pub closed spec fn region_view(&self) -> Seq<char> {
        self.region@
    }

    /// The SDK client that requests go through.
    pub closed spec fn sdk_client(&self) -> Client {
        self.inner
    }

    /// The endpoint URL that the client talks to.
    pub closed spec fn endpoint_view(&self) -> Seq<char> {
        self.endpoint@
    }

    /// Wraps an SDK client made for `region` and `endpoint`.
    pub fn from_parts(inner: Client, region: String, endpoint: String) -> (res: S3Client)
        ensures
            res.sdk_client() == inner,
            res.region_view() == region@,
            res.endpoint_view() == endpoint@,
    {
        S3Client { inner, region, endpoint }
    }

    /// Direct access to the raw `aws_sdk_s3::Client` for advanced operations.
    pub fn raw(&self) -> (res: &Client)
        ensures
            *res == self.sdk_client(),
    {
        &self.inner
    }

    /// The endpoint URL that the client talks to.
    pub fn endpoint(&self) -> (res: &str)
        ensures
            res@ == self.endpoint_view(),
    {
        self.endpoint.as_str()
    }

    /// The region that the client was made for.
    pub fn region(&self) -> (res: &str)
        ensures
            res@ == self.region_view(),
    {
        self.region.as_str()
    }

    /// The location constraint that a new bucket is created with: none in
    /// `us-east-1`, the client's region anywhere else.
    pub fn bucket_location(&self) -> (res: Option<String>)
        ensures
            res is None <==> self.region_view() == default_region(),
            res matches Some(r) ==> r@ == self.region_view(),
    {
        let default = String::from_str("us-east-1");
        if self.region == default {
            None
        } else {
            Some(self.region.clone())
        }
    }
}

/// The keys that a listing keeps from a page: the present ones that are not
/// folder markers (keys ending in `/`), in order.
pub open spec fn kept_keys(page: Seq<Option<Seq<char>>>) -> Seq<Seq<char>>
    decreases page.len(),
{
    if page.len() == 0 {
        Seq::empty()
    } else {
        let rest = kept_keys(page.drop_last());
        match page.last() {
            Some(k) => if ends_with_char(k, '/') {
                rest
            } else {
                rest.push(k)
            },
            None => rest,
        }
    }
}

/// The views of a sequence of strings.
pub open spec fn string_views(v: Seq<String>) -> Seq<Seq<char>> {
    v.map_values(|s: String| s@)
}

/// The views of a sequence of optional strings.
pub open spec fn option_string_views(v: Seq<Option<String>>) -> Seq<Option<Seq<char>>> {
    v.map_values(
        |o: Option<String>|
            match o {
                Some(s) => Some(s@),
                None => None,
            },
    )
}

/// Appends to `keys` the keys of one listed page that name objects:
/// MinIO/S3 represent "folders" as zero-byte keys ending in '/', and those
/// are left out, as are entries without a key.
pub fn collect_page_keys(keys: &mut Vec<String>, page: Vec<Option<String>>)
    ensures
        string_views(final(keys)@) == string_views(old(keys)@) + kept_keys(
            option_string_views(page@),
        ),
{
    let ghost start = string_views(keys@);
    let ghost pv = option_string_views(page@);
    let mut i: usize = 0;
    // Walk the page front to back; `kept_keys` is defined from the back, so
    // the invariant speaks of the prefix seen so far.
    while i < page.len()
        invariant
            pv == option_string_views(page@),
            i <= page.len(),
            string_views(keys@) == start + kept_keys(pv.subrange(0, i as int)),
        decreases page.len() - i,
    {
        proof {
            assert(pv.subrange(0, i + 1).drop_last() =~= pv.subrange(0, i as int));
        }
        let ghost sub = pv.subrange(0, i + 1);
        assert(sub.last() == pv[i as int]);
        assert(pv[i as int] == opt_view(page@[i as int]));
        match &page[i] {
            Some(k) => {
                if !ends_with(k.as_str(), '/') {
                    let ghost before = keys@;
                    keys.push(k.clone());
                    assert(kept_keys(sub) == kept_keys(pv.subrange(0, i as int)).push(k@));
                    assert(string_views(keys@) =~= string_views(before).push(k@));
                }
            },
            None => {},
        }
        i = i + 1;
    }
    assert(pv.subrange(0, page.len() as int) =~= pv);
}

/// Where a listing that pages by hand stands: the continuation token of the
/// next request, and how many pages and keys it has seen.
pub struct Pager {
    token: Option<String>,
    pages: usize,
    keys: usize,
    finished: bool,
}

/// What a page tells a listing to do next.
#[derive(Debug, PartialEq, Eq)]
pub enum PageStep {
    /// Ask for the next page.
    Continue,
    /// The listing is complete.
    Done,
}

/// The view of an optional string.
pub open spec fn opt_view(o: Option<String>) -> Option<Seq<char>> {
    match o {
        Some(s) => Some(s@),
        None => None,
    }
}

/// A continuation token ends a listing when it is absent or empty.
pub open spec fn token_ends(token: Option<Seq<char>>) -> bool {
    match token {
        None => true,
        Some(t) => t.len() == 0,
    }
}

impl Pager {
    /// The token that the next request sends, if any.
    pub closed spec fn token_view(&self) -> Option<Seq<char>> {
        match self.token {
            Some(t) => Some(t@),
            None => None,
        }
    }

    /// The pages seen so far.
    pub closed spec fn pages_seen(&self) -> nat {
        self.pages as nat
    }

    /// The keys seen so far.
    pub closed spec fn keys_seen(&self) -> nat {
        self.keys as nat
    }

    /// Whether the last page ended the listing.
    pub closed spec fn is_finished(&self) -> bool {
        self.finished
    }

    /// A listing that has not asked for anything yet.
    pub fn new() -> (res: Pager)
        ensures
            res.token_view() is None,
            res.pages_seen() == 0,
            res.keys_seen() == 0,
            !res.is_finished(),
    {
        Pager { token: None, pages: 0, keys: 0, finished: false }
    }

    /// The continuation token for the next request.
    pub fn token(&self) -> (res: Option<String>)
        ensures
            match res {
                Some(t) => self.token_view() == Some(t@),
                None => self.token_view() is None,
            },
    {
        match &self.token {
            Some(t) => Some(t.clone()),
            None => None,
        }
    }

    /// The pages seen so far.
    pub fn pages(&self) -> (res: usize)
        ensures
            res == self.pages_seen(),
    {
        self.pages
    }

    /// The keys seen so far.
    pub fn keys(&self) -> (res: usize)
        ensures
            res == self.keys_seen(),
    {
        self.keys
    }

    /// Takes in a page of `key_count` keys that came back with `next_token`.
    /// An absent or empty token ends the listing; a token equal to the one
    /// that was just sent means that the server is not advancing, which is
    /// reported as `ListingStalled` instead of asking for the same page again.
    pub fn on_page(&mut self, key_count: usize, next_token: Option<String>) -> (res: S3Result<
        PageStep,
    >)
        requires
            !old(self).is_finished(),
            old(self).pages_seen() < usize::MAX,
            old(self).keys_seen() + key_count <= usize::MAX,
        ensures
            final(self).pages_seen() == old(self).pages_seen() + 1,
            final(self).keys_seen() == old(self).keys_seen() + key_count,
            token_ends(opt_view(next_token)) ==> res == Ok::<PageStep, S3Error>(PageStep::Done)
                && final(self).is_finished(),
            !token_ends(opt_view(next_token)) && old(self).token_view() == opt_view(next_token)
                ==> final(self).is_finished() && (res matches Err(
                S3Error::ListingStalled { pages, keys },
            ) && pages == final(self).pages_seen() && keys == final(self).keys_seen()),
            !token_ends(opt_view(next_token)) && old(self).token_view() != opt_view(next_token)
                ==> res == Ok::<PageStep, S3Error>(PageStep::Continue) && !final(self).is_finished()
                && final(self).token_view() == opt_view(next_token),
    {
        self.pages = self.pages + 1;
        self.keys = self.keys + key_count;
        match next_token {
            None => {
                self.finished = true;
                Ok(PageStep::Done)
            },
            Some(t) => {
                if t.as_str().unicode_len() == 0 {
                    self.finished = true;
                    Ok(PageStep::Done)
                } else {
                    let same = match &self.token {
                        Some(prev) => *prev == t,
                        None => false,
                    };
                    if same {
                        self.finished = true;
                        Err(S3Error::ListingStalled { pages: self.pages, keys: self.keys })
                    } else {
                        self.token = Some(t);
                        Ok(PageStep::Continue)
                    }
                }
            },
        }
    }
}

/// The bookkeeping of a batch delete: the keys to delete, how many of them
/// have been handed out in chunks, and the (key, reason) pairs of every key
/// that the service could not delete.
pub struct BatchDelete {
    keys: Vec<String>,
    sent: usize,
    errors: Vec<(String, String)>,
}

/// The views of (key, reason) pairs.
pub open spec fn pair_views(v: Seq<(String, String)>) -> Seq<(Seq<char>, Seq<char>)> {
    v.map_values(|p: (String, String)| (p.0@, p.1@))
}

/// A per-key failure as the service reports it, with the text that stands
/// in for a missing key (empty) or message (`unknown`).
pub open spec fn reported_error(e: (Option<Seq<char>>, Option<Seq<char>>)) -> (Seq<char>, Seq<char>) {
    (
        match e.0 {
            Some(k) => k,
            None => Seq::empty(),
        },
        match e.1 {
            Some(m) => m,
            None => "unknown"@,
        },
    )
}

/// The views of per-key failures.
pub open spec fn failure_views(v: Seq<(Option<String>, Option<String>)>) -> Seq<
    (Option<Seq<char>>, Option<Seq<char>>),
> {
    v.map_values(
        |p: (Option<String>, Option<String>)|
            (
                match p.0 {
                    Some(s) => Some(s@),
                    None => None,
                },
                match p.1 {
                    Some(s) => Some(s@),
                    None => None,
                },
            ),
    )
}

/// The end of the chunk that starts at `start`, among `len` keys.
pub open spec fn chunk_end(start: nat, len: nat) -> nat {
    if start + DELETE_CHUNK <= len {
        (start + DELETE_CHUNK) as nat
    } else {
        len
    }
}

impl BatchDelete {
    /// The keys to delete, in order.
    pub closed spec fn all_keys(&self) -> Seq<Seq<char>> {
        string_views(self.keys@)
    }

    /// How many keys have been handed out in chunks.
    pub closed spec fn sent_count(&self) -> nat {
        self.sent as nat
    }

    /// The (key, reason) pairs recorded so far, in order.
    pub closed spec fn error_pairs(&self) -> Seq<(Seq<char>, Seq<char>)> {
        pair_views(self.errors@)
    }

    /// No more keys have been sent than there are.
    pub open spec fn wf(&self) -> bool {
        self.sent_count() <= self.all_keys().len()
    }

    /// Starts a batch delete of `keys`.
    pub fn new(keys: Vec<String>) -> (res: BatchDelete)
        ensures
            res.wf(),
            res.all_keys() == string_views(keys@),
            res.sent_count() == 0,
            res.error_pairs().len() == 0,
    {
        BatchDelete { keys, sent: 0, errors: Vec::new() }
    }

    /// The next chunk of keys to send: the following `DELETE_CHUNK` keys, or
    /// the rest when fewer are left, and `None` once every key has been sent.
    pub fn next_chunk(&mut self) -> (res: Option<Vec<String>>)
        requires
            old(self).wf(),
        ensures
            final(self).wf(),
            final(self).all_keys() == old(self).all_keys(),
            final(self).error_pairs() == old(self).error_pairs(),
            old(self).sent_count() == old(self).all_keys().len() <==> res is None,
            res is None ==> final(self).sent_count() == old(self).sent_count(),
            res matches Some(chunk) ==> {
                &&& final(self).sent_count() == chunk_end(
                    old(self).sent_count(),
                    old(self).all_keys().len(),
                )
                &&& string_views(chunk@) == old(self).all_keys().subrange(
                    old(self).sent_count() as int,
                    final(self).sent_count() as int,
                )
                &&& 0 < chunk@.len() <= DELETE_CHUNK
            },
    {
        let len = self.keys.len();
        if self.sent == len {
            return None;
        }
        let end = if len - self.sent >= DELETE_CHUNK {
            self.sent + DELETE_CHUNK
        } else {
            len
        };
        let start = self.sent;
        let mut chunk: Vec<String> = Vec::new();
        let mut i = start;
        while i < end
            invariant
                start <= i <= end <= self.keys.len(),
                string_views(chunk@) == string_views(self.keys@).subrange(start as int, i as int),
            decreases end - i,
        {
            let ghost before = chunk@;
            let k = self.keys[i].clone();
            chunk.push(k);
            assert(string_views(chunk@) =~= string_views(before).push(self.keys@[i as int]@));
            i = i + 1;
            assert(string_views(chunk@) =~= string_views(self.keys@).subrange(
                start as int,
                i as int,
            ));
        }
        self.sent = end;
        Some(chunk)
    }

    /// Records the per-key failures that the service reported for a chunk:
    /// each becomes a (key, reason) pair, an empty key or `unknown` standing
    /// in for what the report leaves out.
    pub fn record_errors(&mut self, failures: Vec<(Option<String>, Option<String>)>)
        ensures
            final(self).all_keys() == old(self).all_keys(),
            final(self).sent_count() == old(self).sent_count(),
            final(self).wf() == old(self).wf(),
            final(self).error_pairs() == old(self).error_pairs() + failure_views(
                failures@,
            ).map_values(|e: (Option<Seq<char>>, Option<Seq<char>>)| reported_error(e)),
    {
        let ghost start = pair_views(self.errors@);
        let ghost fv = failure_views(failures@);
        let mut i: usize = 0;
        while i < failures.len()
            invariant
                i <= failures.len(),
                fv == failure_views(failures@),
                self.keys == old(self).keys,
                self.sent == old(self).sent,
                pair_views(self.errors@) == start + fv.subrange(0, i as int).map_values(
                    |e: (Option<Seq<char>>, Option<Seq<char>>)| reported_error(e),
                ),
            decreases failures.len() - i,
        {
            let key = match &failures[i].0 {
                Some(k) => k.clone(),
                None => String::new(),
            };
            let msg = match &failures[i].1 {
                Some(m) => m.clone(),
                None => String::from_str("unknown"),
            };
            let ghost before = self.errors@;
            let ghost e = fv[i as int];
            assert(e == (opt_view(failures@[i as int].0), opt_view(failures@[i as int].1)));
            assert((key@, msg@) == reported_error(e));
            self.errors.push((key, msg));
            assert(pair_views(self.errors@) =~= pair_views(before).push(reported_error(e)));
            assert(fv.subrange(0, i + 1) =~= fv.subrange(0, i as int).push(e));
            i = i + 1;
            assert(pair_views(self.errors@) =~= start + fv.subrange(0, i as int).map_values(
                |e: (Option<Seq<char>>, Option<Seq<char>>)| reported_error(e),
            ));
        }
        assert(fv.subrange(0, failures.len() as int) =~= fv);
    }

    /// The outcome of the whole batch: success when no key failed, else
    /// `BatchDeletePartial` with every (key, reason) pair, in order.
    pub fn finish(self) -> (res: S3Result<()>)
        ensures
            res is Ok <==> self.error_pairs().len() == 0,
            res matches Err(e) ==> (e matches S3Error::BatchDeletePartial(errs) && pair_views(errs@)
                == self.error_pairs()),
    {
        if self.errors.len() == 0 {
            Ok(())
        } else {
            Err(S3Error::BatchDeletePartial(self.errors))
        }
    }
}


/// How many more `DeleteObjects` requests a batch needs when `sent` of its
/// `len` keys have been sent: one per started thousand.
pub open spec fn requests_left(sent: nat, len: nat) -> nat {
    ((len - sent + DELETE_CHUNK - 1) / DELETE_CHUNK as int) as nat
}

/// A batch delete of `n` keys takes `ceil(n / 1000)` requests: each chunk
/// that `next_chunk` hands out brings the requests still needed down by one,
/// and none are needed once every key has been sent.
pub proof fn lemma_batch_delete_request_count(sent: nat, len: nat)
    requires
        sent <= len,
    ensures
        sent == len ==> requests_left(sent, len) == 0,
        sent < len ==> requests_left(chunk_end(sent, len), len) + 1 == requests_left(sent, len),
{
}

/// A listing keeps only object keys: every key it keeps from a page is
/// present in the page and is not a folder marker (a key ending in `/`).
pub proof fn lemma_kept_keys_are_objects(page: Seq<Option<Seq<char>>>)
    ensures
        forall|i: int|
            0 <= i < kept_keys(page).len() ==> !ends_with_char(#[trigger] kept_keys(page)[i], '/')
                && page.contains(Some(kept_keys(page)[i])),
    decreases page.len(),
{
    if page.len() > 0 {
        let rest = page.drop_last();
        lemma_kept_keys_are_objects(rest);
        assert forall|i: int| 0 <= i < kept_keys(page).len() implies !ends_with_char(
            #[trigger] kept_keys(page)[i],
            '/',
        ) && page.contains(Some(kept_keys(page)[i])) by {
            if i < kept_keys(rest).len() {
                assert(kept_keys(page)[i] == kept_keys(rest)[i]);
                let j = choose|j: int| 0 <= j < rest.len() && rest[j] == Some(kept_keys(rest)[i]);
                assert(page[j] == rest[j]);
            } else {
                assert(page[page.len() - 1] == page.last());
            }
        }
    }
}

} // verus!
