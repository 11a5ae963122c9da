use aws_sdk_s3::config::{BehaviorVersion, Builder, Region};
use aws_sdk_s3::Client;
use s3_storage::client::{collect_page_keys, BatchDelete, PageStep, Pager, S3Client};
use s3_storage::error::S3Error;

fn sdk_client() -> Client {
    Client::from_conf(
        Builder::new()
            .behavior_version(BehaviorVersion::latest())
            .region(Region::new("us-east-1"))
            .build(),
    )
}

#[test]
fn location_constraint_only_outside_us_east_1() {
    let c = S3Client::from_parts(sdk_client(), "us-east-1".into(), "http://localhost:9000".into());
    assert_eq!(c.bucket_location(), None);
    assert_eq!(c.endpoint(), "http://localhost:9000");
    let c = S3Client::from_parts(sdk_client(), "eu-west-1".into(), "http://h".into());
    assert_eq!(c.bucket_location(), Some("eu-west-1".to_string()));
    assert_eq!(c.region(), "eu-west-1");
}

#[test]
fn folder_markers_and_missing_keys_are_skipped() {
    let mut keys = vec!["first".to_string()];
    let page = vec![
        Some("a/1.jpg".to_string()),
        Some("a/".to_string()),
        None,
        Some("b".to_string()),
    ];
    collect_page_keys(&mut keys, page);
    assert_eq!(keys, vec!["first", "a/1.jpg", "b"]);
}

#[test]
fn pager_follows_tokens_and_stops() {
    let mut p = Pager::new();
    assert_eq!(p.token(), None);
    assert_eq!(p.on_page(1000, Some("t1".into())).ok(), Some(PageStep::Continue));
    assert_eq!(p.token(), Some("t1".to_string()));
    assert_eq!(p.on_page(1000, Some("t2".into())).ok(), Some(PageStep::Continue));
    assert_eq!(p.on_page(5, Some(String::new())).ok(), Some(PageStep::Done));
    assert_eq!(p.pages(), 3);
    assert_eq!(p.keys(), 2005);
    let mut q = Pager::new();
    assert_eq!(q.on_page(0, None).ok(), Some(PageStep::Done));
}

#[test]
fn pager_reports_a_repeated_token() {
    let mut p = Pager::new();
    assert_eq!(p.on_page(1000, Some("t".into())).ok(), Some(PageStep::Continue));
    match p.on_page(1000, Some("t".into())) {
        Err(S3Error::ListingStalled { pages, keys }) => {
            assert_eq!(pages, 2);
            assert_eq!(keys, 2000);
        }
        other => panic!("unexpected {:?}", other),
    }
}

#[test]
fn batch_delete_chunks_by_thousand() {
    let keys: Vec<String> = (0..2500).map(|i| format!("k{}", i)).collect();
    let mut b = BatchDelete::new(keys.clone());
    let mut chunks = Vec::new();
    while let Some(c) = b.next_chunk() {
        chunks.push(c);
    }
    assert_eq!(chunks.iter().map(|c| c.len()).collect::<Vec<_>>(), vec![1000, 1000, 500]);
    assert_eq!(chunks.concat(), keys);
    assert!(b.next_chunk().is_none());
    assert!(b.finish().is_ok());
}

#[test]
fn batch_delete_reports_every_failed_key() {
    let mut b = BatchDelete::new(vec!["a".into(), "b".into(), "c".into()]);
    assert!(b.next_chunk().is_some());
    b.record_errors(vec![
        (Some("a".into()), Some("AccessDenied".into())),
        (None, None),
    ]);
    b.record_errors(vec![]);
    match b.finish() {
        Err(S3Error::BatchDeletePartial(errs)) => assert_eq!(
            errs,
            vec![
                ("a".to_string(), "AccessDenied".to_string()),
                (String::new(), "unknown".to_string())
            ]
        ),
        other => panic!("unexpected {:?}", other),
    }
    let mut empty = BatchDelete::new(Vec::new());
    assert!(empty.next_chunk().is_none());
    assert!(empty.finish().is_ok());
}

#[test]
fn a_clone_keeps_region_and_endpoint() {
    let c = S3Client::from_parts(sdk_client(), "eu-west-1".into(), "http://h:9000".into());
    let d = c.clone();
    assert_eq!(d.endpoint(), "http://h:9000");
    assert_eq!(d.region(), "eu-west-1");
}
