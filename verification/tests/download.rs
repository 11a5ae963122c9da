use s3_storage::download::{
    download_concurrency, first_positional, has_flag, is_image, is_image_extension, local_path,
    normalize_folder, parse_usize, relative_key, split_images,
};
use std::path::Path;

#[test]
fn local_path_keeps_structure_under_prefix() {
    let p = local_path("data", "2026/09/03/", "2026/09/03/uid/a.jpeg");
    assert_eq!(p, Path::new("data/uid/a.jpeg"));
}

#[test]
fn only_images_pass_the_filter() {
    assert!(is_image("a/b/c.JPEG"));
    assert!(is_image("x.png"));
    assert!(!is_image("x.json"));
    assert!(!is_image("noext"));
}

#[test]
fn image_extensions_in_any_case() {
    assert!(is_image_extension(Some("TiFf")));
    assert!(is_image_extension(Some("webp")));
    assert!(!is_image_extension(Some("jp")));
    assert!(!is_image_extension(Some("jpegs")));
    assert!(!is_image_extension(None));
}

#[test]
fn hidden_files_and_folders_have_no_image_extension() {
    // a leading dot alone is no extension, and the folder part is not the file
    assert!(!is_image(".png"));
    assert!(!is_image("pics.png/readme"));
    assert!(is_image("dir/.hidden.gif"));
}

#[test]
fn relative_key_drops_prefix_and_leading_slashes() {
    assert_eq!(relative_key("2026/09/03/", "2026/09/03/uid/a.jpeg"), "uid/a.jpeg");
    assert_eq!(relative_key("2026/09/03", "2026/09/03//uid/a.jpeg"), "uid/a.jpeg");
    assert_eq!(relative_key("other/", "/x/y.png"), "x/y.png");
    assert_eq!(relative_key("", "a"), "a");
}

#[test]
fn local_path_of_key_outside_prefix_keeps_whole_key() {
    let p = local_path("out", "2026/", "/2025/b.png");
    assert_eq!(p, Path::new("out/2025/b.png"));
}

#[test]
fn folder_gets_one_trailing_slash() {
    assert_eq!(normalize_folder("2026/09/03".to_string()), "2026/09/03/");
    assert_eq!(normalize_folder("2026/09/03/".to_string()), "2026/09/03/");
    assert_eq!(normalize_folder(String::new()), "/");
}

#[test]
fn usize_parsing_follows_std() {
    for s in ["0", "12", "+7", "007", "18446744073709551615", "", "+", "-1", "1a", " 1", "18446744073709551616"] {
        assert_eq!(parse_usize(s), s.parse::<usize>().ok(), "input {:?}", s);
    }
}

#[test]
fn concurrency_defaults_to_eight() {
    assert_eq!(download_concurrency(None), 8);
    assert_eq!(download_concurrency(Some("3".to_string())), 3);
    assert_eq!(download_concurrency(Some("0".to_string())), 8);
    assert_eq!(download_concurrency(Some("many".to_string())), 8);
}

#[test]
fn images_split_from_other_keys_in_order() {
    let keys: Vec<String> = ["a.jpg", "b.txt", "c.PNG", "d", "e.gif"]
        .iter()
        .map(|s| s.to_string())
        .collect();
    let (images, others) = split_images(keys);
    assert_eq!(images, vec!["a.jpg", "c.PNG", "e.gif"]);
    assert_eq!(others, vec!["b.txt", "d"]);
}

#[test]
fn first_positional_skips_flags() {
    let args: Vec<String> = ["--all", "2026/09/", "x"].iter().map(|s| s.to_string()).collect();
    assert_eq!(first_positional(&args), Some("2026/09/".to_string()));
    assert!(has_flag(&args, "--all"));
    assert!(!has_flag(&args, "--count"));
    let flags: Vec<String> = vec!["--count".to_string()];
    assert_eq!(first_positional(&flags), None);
}

#[test]
fn parent_segments_are_dropped() {
    assert_eq!(relative_key("p/", "p/../../etc/x"), "etc/x");
    assert_eq!(relative_key("p/", "p/a/./b/../c/"), "a/./b/c/");
    assert_eq!(relative_key("p/", "p/..//x"), "x");
    assert_eq!(relative_key("p/", "p/.."), "");
    assert_eq!(relative_key("p/", "p/..a/b.."), "..a/b..");
    let p = local_path("data", "p/", "p/../../etc/passwd.png");
    assert_eq!(p, Path::new("data/etc/passwd.png"));
}

#[test]
fn remainder_without_parent_segments_is_kept_whole() {
    assert_eq!(relative_key("p/", "p/a//b"), "a//b");
    assert_eq!(relative_key("p/", "p/a/b/"), "a/b/");
    assert_eq!(local_path("data", "p/", "p/a//b"), Path::new("data").join("a//b"));
}
