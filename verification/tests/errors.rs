use aws_sdk_s3::config::http::HttpResponse;
use aws_sdk_s3::error::SdkError;
use aws_sdk_s3::operation::create_bucket::CreateBucketError;
use aws_sdk_s3::operation::get_object::GetObjectError;
use aws_sdk_s3::primitives::SdkBody;
use aws_sdk_s3::types::error::{BucketAlreadyExists, BucketAlreadyOwnedByYou, NoSuchKey};
use s3_storage::error::{
    classify, create_bucket_error, create_bucket_failure, get_object_error, S3Error, SdkErrorKind,
    SdkFailure,
};
use s3_storage::text::contains;

fn raw_response(status: u16) -> HttpResponse {
    HttpResponse::new(status.try_into().unwrap(), SdkBody::empty())
}

#[test]
fn classification_picks_the_first_rule_that_matches() {
    assert!(matches!(classify("AccessDenied: no".into()), S3Error::AccessDenied(m) if m == "AccessDenied: no"));
    assert!(matches!(classify("InvalidAccessKeyId".into()), S3Error::AccessDenied(_)));
    assert!(matches!(classify("NoSuchBucket x".into()), S3Error::NoSuchBucket(_)));
    assert!(matches!(classify("NoSuchBucket AccessDenied".into()), S3Error::AccessDenied(_)));
    assert!(matches!(classify("DispatchFailure".into()), S3Error::Network(_)));
    assert!(matches!(classify("a timeout".into()), S3Error::Network(_)));
    assert!(matches!(classify("connection refused".into()), S3Error::Network(_)));
    assert!(matches!(classify("Timeout".into()), S3Error::Other(m) if m == "Timeout"));
    assert!(matches!(classify(String::new()), S3Error::Other(m) if m.is_empty()));
}

#[test]
fn substring_search() {
    assert!(contains("hello world", "o w"));
    assert!(contains("abc", ""));
    assert!(contains("", ""));
    assert!(!contains("", "a"));
    assert!(!contains("ab", "abc"));
    assert!(contains("aaab", "aab"));
}

#[test]
fn sdk_errors_are_classified_by_their_text() {
    let e: SdkError<GetObjectError, HttpResponse> = SdkError::timeout_error("slow");
    match S3Error::from_sdk_error(&e) {
        S3Error::Other(m) => assert_eq!(m, "request has timed out"),
        other => panic!("unexpected {:?}", other),
    }
    let e: SdkError<GetObjectError, HttpResponse> = SdkError::construction_failure("bad");
    match S3Error::from_sdk_error(&e) {
        S3Error::Other(m) => assert_eq!(m, "failed to construct request"),
        other => panic!("unexpected {:?}", other),
    }
}

#[test]
fn missing_key_is_reported_with_bucket_and_key() {
    let e: SdkError<GetObjectError, HttpResponse> = SdkError::service_error(
        GetObjectError::NoSuchKey(NoSuchKey::builder().build()),
        raw_response(404),
    );
    let err = S3Error::from_get_object_error(&e);
    assert!(matches!(&err, S3Error::NoSuchKey { bucket, key } if bucket.is_empty() && key.is_empty()));
    match get_object_error("photos", "a/b.jpg", err) {
        S3Error::NoSuchKey { bucket, key } => {
            assert_eq!(bucket, "photos");
            assert_eq!(key, "a/b.jpg");
        }
        other => panic!("unexpected {:?}", other),
    }
    let other = get_object_error("photos", "k", S3Error::Network("n".into()));
    assert!(matches!(other, S3Error::Network(m) if m == "n"));
}

#[test]
fn other_get_object_failures_are_classified() {
    let e: SdkError<GetObjectError, HttpResponse> = SdkError::service_error(
        GetObjectError::unhandled("AccessDenied"),
        raw_response(403),
    );
    match S3Error::from_get_object_error(&e) {
        S3Error::Other(m) => assert_eq!(m, "service error"),
        other => panic!("unexpected {:?}", other),
    }
    let failure = SdkFailure { kind: SdkErrorKind::Service, message: "NoSuchBucket".into() };
    assert!(matches!(S3Error::from_get_object_failure(false, failure), S3Error::NoSuchBucket(_)));
    let failure = SdkFailure { kind: SdkErrorKind::Service, message: "x".into() };
    assert!(matches!(S3Error::from_get_object_failure(true, failure), S3Error::NoSuchKey { .. }));
}

#[test]
fn existing_bucket_counts_as_created() {
    for err in [
        CreateBucketError::BucketAlreadyExists(BucketAlreadyExists::builder().build()),
        CreateBucketError::BucketAlreadyOwnedByYou(BucketAlreadyOwnedByYou::builder().build()),
    ] {
        let e: SdkError<CreateBucketError, HttpResponse> =
            SdkError::service_error(err, raw_response(409));
        assert!(create_bucket_error(&e).is_ok());
    }
    let e: SdkError<CreateBucketError, HttpResponse> = SdkError::timeout_error("slow");
    assert!(matches!(create_bucket_error(&e), Err(S3Error::Other(_))));
    let failure = SdkFailure { kind: SdkErrorKind::Dispatch, message: "connection refused".into() };
    assert!(matches!(create_bucket_failure(false, failure), Err(S3Error::Network(_))));
    let failure = SdkFailure { kind: SdkErrorKind::Service, message: "x".into() };
    assert!(create_bucket_failure(true, failure).is_ok());
}
