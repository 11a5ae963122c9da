//! The storage errors, and how a failed S3 call is turned into one.
use vstd::prelude::*;

use crate::text::{contains, contains_str, occurs_at};
use aws_sdk_s3::error::SdkError;
use aws_sdk_s3::operation::create_bucket::CreateBucketError;
use aws_sdk_s3::operation::get_object::GetObjectError;

verus! {

#[verifier::external_type_specification]
#[verifier::external_body]
#[verifier::reject_recursive_types(E)]
#[verifier::reject_recursive_types(R)]
pub struct ExSdkError<E, R>(SdkError<E, R>);

#[verifier::external_type_specification]
#[verifier::external_body]
pub struct ExGetObjectError(GetObjectError);

#[verifier::external_type_specification]
#[verifier::external_body]
pub struct ExCreateBucketError(CreateBucketError);

/// Everything that can go wrong while talking to the storage service.
#[derive(Debug)]
pub enum S3Error {
    /// The object does not exist.
    NoSuchKey { bucket: String, key: String },
    /// The bucket does not exist.
    NoSuchBucket(String),
    /// The credentials were refused.
    AccessDenied(String),
    /// The service could not be reached.
    Network(String),
    /// The object's body could not be read.
    BodyRead(String),
    /// Contains (key, reason) pairs for every key that failed.
    BatchDeletePartial(Vec<(String, String)>),
    /// Any other failure, with its message.
    Other(String),
    /// The bucket list could not be read.
    GetBucketLists,
    /// A required environment variable is unset or blank.
    MissingEnv(String),
    /// The server repeated its continuation token instead of advancing.
    ListingStalled { pages: usize, keys: usize },
}

pub type S3Result<T> = Result<T, S3Error>;

/// The variant of a failed SDK call.
#[derive(Debug, Clone, Copy, PartialEq, Eq)]
pub enum SdkErrorKind {
    /// The request could not be built.
    Construction,
    /// The request timed out.
    Timeout,
    /// The request could not be dispatched.
    Dispatch,
    /// The response could not be parsed.
    Response,
    /// The service answered with an error.
    Service,
    /// A variant that the SDK does not have: its error type is marked
    /// `#[non_exhaustive]`, so telling its variants apart needs an arm for
    /// others, which the SDK's five variants never reach.
    Unknown,
}

/// A failed SDK call as plain values: its variant and its `Display` text.
#[derive(Debug)]
pub struct SdkFailure {
    pub kind: SdkErrorKind,
    pub message: String,
}

/// The text that the SDK error's `Display` writes for each variant.
pub open spec fn sdk_error_text(kind: SdkErrorKind) -> Seq<char> {
    match kind {
        SdkErrorKind::Construction => "failed to construct request"@,
        SdkErrorKind::Timeout => "request has timed out"@,
        SdkErrorKind::Dispatch => "dispatch failure"@,
        SdkErrorKind::Response => "response error"@,
        SdkErrorKind::Service => "service error"@,
        SdkErrorKind::Unknown => Seq::empty(),
    }
}

/// The message is an authentication refusal.
pub open spec fn is_access_denied_message(msg: Seq<char>) -> bool {
    contains_str(msg, "AccessDenied"@) || contains_str(msg, "InvalidAccessKeyId"@)
}

/// The message names a missing bucket.
pub open spec fn is_no_such_bucket_message(msg: Seq<char>) -> bool {
    contains_str(msg, "NoSuchBucket"@)
}

/// The message tells of a failed connection.
pub open spec fn is_network_message(msg: Seq<char>) -> bool {
    contains_str(msg, "DispatchFailure"@) || contains_str(msg, "timeout"@) || contains_str(
        msg,
        "connection refused"@,
    )
}

/// `e` is the error that the classification of `msg` gives: the first rule
/// that matches decides, and the message is kept whole.
pub open spec fn classified(msg: Seq<char>, e: S3Error) -> bool {
    if is_access_denied_message(msg) {
        e matches S3Error::AccessDenied(m) && m@ == msg
    } else if is_no_such_bucket_message(msg) {
        e matches S3Error::NoSuchBucket(m) && m@ == msg
    } else if is_network_message(msg) {
        e matches S3Error::Network(m) && m@ == msg
    } else {
        e matches S3Error::Other(m) && m@ == msg
    }
}

/// Sorts an error message into the error kind it reports.
pub fn classify(msg: String) -> (res: S3Error)
    ensures
        classified(msg@, res),
{
    if contains(msg.as_str(), "AccessDenied") || contains(msg.as_str(), "InvalidAccessKeyId") {
        S3Error::AccessDenied(msg)
    } else if contains(msg.as_str(), "NoSuchBucket") {
        S3Error::NoSuchBucket(msg)
    } else if contains(msg.as_str(), "DispatchFailure") || contains(msg.as_str(), "timeout")
        || contains(msg.as_str(), "connection refused") {
        S3Error::Network(msg)
    } else {
        S3Error::Other(msg)
    }
}

/// Reads the variant and the `Display` text of an SDK error
/// (`aws_smithy_runtime_api::client::result::SdkError`'s `Display`, through `to_string`).
/// Its source has exactly five variants and writes one fixed text for each.
#[verifier::external_body]
fn describe_sdk_error<E, R>(e: &SdkError<E, R>) -> (res: SdkFailure)
    ensures
        res.kind != SdkErrorKind::Unknown,
        res.message@ == sdk_error_text(res.kind),
{
    let kind = match e {
        SdkError::ConstructionFailure(_) => SdkErrorKind::Construction,
        SdkError::TimeoutError(_) => SdkErrorKind::Timeout,
        SdkError::DispatchFailure(_) => SdkErrorKind::Dispatch,
        SdkError::ResponseError(_) => SdkErrorKind::Response,
        SdkError::ServiceError(_) => SdkErrorKind::Service,
        _ => SdkErrorKind::Unknown,
    };
    SdkFailure { kind, message: e.to_string() }
}

/// Whether a failed `GetObject` call is the service's `NoSuchKey` answer
/// (`ServiceError::err` matched on `GetObjectError::NoSuchKey`). The error is
/// opaque here, so nothing is said of the answer.
#[verifier::external_body]
fn is_no_such_key<R>(e: &SdkError<GetObjectError, R>) -> (res: bool) {
    match e {
        SdkError::ServiceError(svc) => match svc.err() {
            GetObjectError::NoSuchKey(_) => true,
            _ => false,
        },
        _ => false,
    }
}

/// Whether a failed `CreateBucket` call is the service's `BucketAlreadyExists`
/// or `BucketAlreadyOwnedByYou` answer (`ServiceError::err` matched on the
/// two `CreateBucketError` variants). The error is opaque here, so nothing is
/// said of the answer.
#[verifier::external_body]
fn is_bucket_already_there<R>(e: &SdkError<CreateBucketError, R>) -> (res: bool) {
    match e {
        SdkError::ServiceError(svc) => match svc.err() {
            CreateBucketError::BucketAlreadyExists(_) => true,
            CreateBucketError::BucketAlreadyOwnedByYou(_) => true,
            _ => false,
        },
        _ => false,
    }
}

/// The message is one of the fixed texts that a failed SDK call shows.
pub open spec fn is_sdk_error_text(msg: Seq<char>) -> bool {
    ||| msg == sdk_error_text(SdkErrorKind::Construction)
    ||| msg == sdk_error_text(SdkErrorKind::Timeout)
    ||| msg == sdk_error_text(SdkErrorKind::Dispatch)
    ||| msg == sdk_error_text(SdkErrorKind::Response)
    ||| msg == sdk_error_text(SdkErrorKind::Service)
}

/// No two adjacent characters of `s` are `a` then `b`.
spec fn no_pair(s: Seq<char>, a: char, b: char) -> bool
    decreases s.len(),
{
    s.len() < 2 || (!(s[0] == a && s[1] == b) && no_pair(s.drop_first(), a, b))
}

proof fn lemma_no_pair_anywhere(s: Seq<char>, a: char, b: char)
    requires
        no_pair(s, a, b),
    ensures
        forall|j: int| 0 <= j < s.len() - 1 ==> !(s[j] == a && #[trigger] s[j + 1] == b),
    decreases s.len(),
{
    if s.len() >= 2 {
        let t = s.drop_first();
        lemma_no_pair_anywhere(t, a, b);
        assert forall|j: int| 0 <= j < s.len() - 1 implies !(s[j] == a && #[trigger] s[j + 1]
            == b) by {
            if j > 0 {
                assert(s[j] == t[j - 1] && s[j + 1] == t[j]);
            }
        }
    }
}

/// A pattern holding `a` then `b` is not in a text without them side by side.
proof fn lemma_not_contains_by_pair(s: Seq<char>, p: Seq<char>, k: int)
    requires
        0 <= k < p.len() - 1,
        no_pair(s, p[k], p[k + 1]),
    ensures
        !contains_str(s, p),
{
    lemma_no_pair_anywhere(s, p[k], p[k + 1]);
    if contains_str(s, p) {
        let i = choose|i: int| occurs_at(s, p, i);
        assert(s.subrange(i, i + p.len())[k] == s[i + k]);
        assert(s.subrange(i, i + p.len())[k + 1] == s[i + k + 1]);
    }
}

/// None of the classification's words is in `msg` when `msg` lacks these
/// pairs of adjacent characters.
proof fn lemma_no_rule_matches(msg: Seq<char>)
    requires
        no_pair(msg, 'A', 'c'),
        no_pair(msg, 'I', 'n'),
        no_pair(msg, 'N', 'o'),
        no_pair(msg, 'D', 'i'),
        no_pair(msg, 'e', 'o'),
        no_pair(msg, 'e', 'f'),
    ensures
        !is_access_denied_message(msg),
        !is_no_such_bucket_message(msg),
        !is_network_message(msg),
{
    reveal_strlit("AccessDenied");
    reveal_strlit("InvalidAccessKeyId");
    reveal_strlit("NoSuchBucket");
    reveal_strlit("DispatchFailure");
    reveal_strlit("timeout");
    reveal_strlit("connection refused");
    lemma_not_contains_by_pair(msg, "AccessDenied"@, 0);
    lemma_not_contains_by_pair(msg, "InvalidAccessKeyId"@, 0);
    lemma_not_contains_by_pair(msg, "NoSuchBucket"@, 0);
    lemma_not_contains_by_pair(msg, "DispatchFailure"@, 0);
    lemma_not_contains_by_pair(msg, "timeout"@, 3);
    lemma_not_contains_by_pair(msg, "connection refused"@, 12);
}

/// No fixed text of a failed SDK call names an access refusal, a missing
/// bucket or a network failure: classified, every one of them is `Other`,
/// with the text kept.
pub proof fn lemma_sdk_error_texts_are_other(kind: SdkErrorKind, e: S3Error)
    requires
        kind != SdkErrorKind::Unknown,
        classified(sdk_error_text(kind), e),
    ensures
        e matches S3Error::Other(m) && m@ == sdk_error_text(kind),
{
    reveal_with_fuel(no_pair, 30);
    match kind {
        SdkErrorKind::Construction => {
            reveal_strlit("failed to construct request");
        },
        SdkErrorKind::Timeout => {
            reveal_strlit("request has timed out");
        },
        SdkErrorKind::Dispatch => {
            reveal_strlit("dispatch failure");
        },
        SdkErrorKind::Response => {
            reveal_strlit("response error");
        },
        SdkErrorKind::Service => {
            reveal_strlit("service error");
        },
        SdkErrorKind::Unknown => {},
    }
    lemma_no_rule_matches(sdk_error_text(kind));
}

impl S3Error {
    /// The error for a failed SDK call, given as plain values: its text, classified.
    pub fn from_failure(failure: SdkFailure) -> (res: S3Error)
        ensures
            classified(failure.message@, res),
    {
        classify(failure.message)
    }

    /// The error for a failed SDK call of any operation: the SDK error's
    /// text, which names no rule of the classification, so `Other`.
    pub fn from_sdk_error<E, R>(e: &SdkError<E, R>) -> (res: S3Error)
        ensures
            res matches S3Error::Other(m) && is_sdk_error_text(m@),
    {
        let failure = describe_sdk_error(e);
        let ghost k = failure.kind;
        let res = S3Error::from_failure(failure);
        proof {
            lemma_sdk_error_texts_are_other(k, res);
        }
        res
    }

    /// The error for a failed `GetObject` call, given as plain values: the
    /// service's `NoSuchKey` answer becomes `NoSuchKey` (with the bucket and
    /// key left empty), anything else is classified by its text.
    pub fn from_get_object_failure(no_such_key: bool, failure: SdkFailure) -> (res: S3Error)
        ensures
            no_such_key ==> (res matches S3Error::NoSuchKey { bucket, key } && bucket@.len() == 0
                && key@.len() == 0),
            !no_such_key ==> classified(failure.message@, res),
    {
        if no_such_key {
            S3Error::NoSuchKey { bucket: String::new(), key: String::new() }
        } else {
            S3Error::from_failure(failure)
        }
    }

    /// The error for a failed `GetObject` call: `NoSuchKey` (bucket and key
    /// left empty) for the service's `NoSuchKey` answer, else `Other` with the
    /// SDK error's text.
    pub fn from_get_object_error<R>(e: &SdkError<GetObjectError, R>) -> (res: S3Error)
        ensures
            (res matches S3Error::NoSuchKey { bucket, key } && bucket@.len() == 0 && key@.len()
                == 0) || (res matches S3Error::Other(m) && is_sdk_error_text(m@)),
    {
        let no_such_key = is_no_such_key(e);
        let failure = describe_sdk_error(e);
        let ghost k = failure.kind;
        let res = S3Error::from_get_object_failure(no_such_key, failure);
        proof {
            if !no_such_key {
                lemma_sdk_error_texts_are_other(k, res);
            }
        }
        res
    }
}

/// What a `CreateBucket` call that failed comes to, given as plain values:
/// a bucket that already exists (whoever owns it) is success, so creating a
/// bucket is idempotent; any other failure is classified by its text.
pub fn create_bucket_failure(already_there: bool, failure: SdkFailure) -> (res: S3Result<()>)
    ensures
        already_there <==> res is Ok,
        res matches Err(e) ==> classified(failure.message@, e),
{
    if already_there {
        Ok(())
    } else {
        Err(S3Error::from_failure(failure))
    }
}

/// What a `CreateBucket` call that failed comes to: success when the
/// bucket is already there, else `Other` with the SDK error's text.
pub fn create_bucket_error<R>(e: &SdkError<CreateBucketError, R>) -> (res: S3Result<()>)
    ensures
        res matches Err(err) ==> (err matches S3Error::Other(m) && is_sdk_error_text(m@)),
{
    let already_there = is_bucket_already_there(e);
    let failure = describe_sdk_error(e);
    let ghost k = failure.kind;
    let res = create_bucket_failure(already_there, failure);
    proof {
        if res is Err {
            lemma_sdk_error_texts_are_other(k, res->Err_0);
        }
    }
    res
}

/// The error that `get_object` reports: a missing key names the bucket and
/// key that were asked for; any other error is passed on unchanged.
pub fn get_object_error(bucket: &str, key: &str, err: S3Error) -> (res: S3Error)
    ensures
        (err is NoSuchKey) ==> (res matches S3Error::NoSuchKey { bucket: b, key: k } && b@
            == bucket@ && k@ == key@),
        !(err is NoSuchKey) ==> res == err,
{
    match err {
        S3Error::NoSuchKey { .. } => S3Error::NoSuchKey {
            bucket: String::from_str(bucket),
            key: String::from_str(key),
        },
        other => other,
    }
}

} // verus!
