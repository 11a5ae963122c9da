use s3_storage::config::{optional, required, S3Config};
use s3_storage::error::S3Error;

fn env(pairs: &[(&str, &str)]) -> Vec<(String, String)> {
    pairs.iter().map(|(k, v)| (k.to_string(), v.to_string())).collect()
}

#[test]
fn unset_and_blank_are_the_same() {
    let e = env(&[("A", "  "), ("B", " x y \t"), ("C", ""), ("B", "second")]);
    assert_eq!(optional(&e, "A"), None);
    assert_eq!(optional(&e, "C"), None);
    assert_eq!(optional(&e, "D"), None);
    assert_eq!(optional(&e, "B"), Some("x y".to_string()));
}

#[test]
fn unicode_whitespace_is_trimmed() {
    let e = env(&[("A", "\u{3000}\u{a0}v\u{2028}\n")]);
    assert_eq!(optional(&e, "A"), Some("v".to_string()));
}

#[test]
fn required_reports_the_missing_name() {
    let e = env(&[("A", "1")]);
    assert_eq!(required(&e, "A").ok(), Some("1".to_string()));
    match required(&e, "S3_BUCKET") {
        Err(S3Error::MissingEnv(k)) => assert_eq!(k, "S3_BUCKET"),
        other => panic!("unexpected {:?}", other),
    }
}

#[test]
fn config_reads_every_setting() {
    let e = env(&[
        ("S3_ENDPOINT_URL", "http://localhost:9000"),
        ("S3_ACCESS_KEY", "ak"),
        ("S3_SECRET_KEY", "sk"),
        ("S3_BUCKET", "photos"),
        ("S3_API_KEY", " key "),
    ]);
    let cfg = S3Config::from_env(&e).unwrap();
    assert_eq!(cfg.endpoint_url, "http://localhost:9000");
    assert_eq!(cfg.region, "us-east-1");
    assert_eq!(cfg.access_key, "ak");
    assert_eq!(cfg.secret_key, "sk");
    assert_eq!(cfg.bucket, "photos");
    assert_eq!(cfg.api_key, Some("key".to_string()));

    let mut e2 = e.clone();
    e2.push(("S3_REGION".to_string(), "eu-west-1".to_string()));
    assert_eq!(S3Config::from_env(&e2).unwrap().region, "eu-west-1");
}

#[test]
fn config_reports_first_missing_setting() {
    let e = env(&[("S3_BUCKET", "b"), ("S3_SECRET_KEY", "s")]);
    match S3Config::from_env(&e) {
        Err(S3Error::MissingEnv(k)) => assert_eq!(k, "S3_ENDPOINT_URL"),
        other => panic!("unexpected {:?}", other),
    }
    let e = env(&[("S3_ENDPOINT_URL", "u"), ("S3_ACCESS_KEY", "a"), ("S3_BUCKET", "b")]);
    match S3Config::from_env(&e) {
        Err(S3Error::MissingEnv(k)) => assert_eq!(k, "S3_SECRET_KEY"),
        other => panic!("unexpected {:?}", other),
    }
}
