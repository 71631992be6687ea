use curserve::paths::{extension_of, rel_path};
use curserve::policy::{admits, is_binary_extension, MAX_FILE_SIZE};
use curserve::text::{trim_line_end, u64_to_string};

#[test]
fn empty_file_rejected() {
    assert!(!admits("src/lib.rs", 0));
}

#[test]
fn oversize_file_rejected() {
    // 51 MiB is over the 50 MiB bound
    assert!(!admits("big.txt", 53477376));
}

#[test]
fn bound_is_inclusive() {
    assert_eq!(MAX_FILE_SIZE, 52428800);
    assert!(admits("edge.txt", 52428800));
    assert!(!admits("edge.txt", 52428801));
}

#[test]
fn lowercase_binary_extension_rejected() {
    assert!(!admits("lib.a", 10));
    assert!(!admits("image.png", 10));
    assert!(!admits("doc.pdf", 10));
    assert!(!admits("archive.tar", 10));
}

#[test]
fn uppercase_binary_extension_rejected() {
    assert!(!admits("lib.A", 10));
    assert!(!admits("image.PNG", 10));
    assert!(!admits("photo.JpEg", 10));
}

#[test]
fn source_files_admitted() {
    assert!(admits("src/main.rs", 10));
    assert!(admits("README.md", 1));
    assert!(admits("Makefile", 100));
}

#[test]
fn all_binary_extensions_listed() {
    for ext in [
        "png", "jpg", "jpeg", "gif", "pdf", "zip", "tar", "gz", "so", "dylib", "dll", "exe",
        "bin", "o", "a",
    ] {
        assert!(is_binary_extension(ext), "{ext} should be excluded");
    }
    assert!(!is_binary_extension("rs"));
    assert!(!is_binary_extension("txt"));
}

#[test]
fn extension_extraction() {
    assert_eq!(extension_of("a/b/c.txt").as_deref(), Some("txt"));
    assert_eq!(extension_of("a/b/archive.tar.gz").as_deref(), Some("gz"));
    assert_eq!(extension_of("a/b/.gitignore"), None);
    assert_eq!(extension_of("a/b/Makefile"), None);
    assert_eq!(extension_of("noslash.c").as_deref(), Some("c"));
    assert_eq!(extension_of("trailingdot.").as_deref(), Some(""));
}

#[test]
fn hidden_file_with_extension() {
    assert_eq!(extension_of("/r/.config.yaml").as_deref(), Some("yaml"));
}

#[test]
fn relative_path_presentation() {
    assert_eq!(rel_path("/repo/src/lib.rs", "/repo"), "src/lib.rs");
    assert_eq!(rel_path("/repo/src/lib.rs", "/repo/"), "src/lib.rs");
    assert_eq!(rel_path("/elsewhere/x", "/repo"), "/elsewhere/x");
    // the cut must fall on a component boundary
    assert_eq!(rel_path("/repository/x", "/repo"), "/repository/x");
}

#[test]
fn decimal_rendering() {
    assert_eq!(u64_to_string(0), "0");
    assert_eq!(u64_to_string(7), "7");
    assert_eq!(u64_to_string(10), "10");
    assert_eq!(u64_to_string(1000), "1000");
    assert_eq!(u64_to_string(18446744073709551615), "18446744073709551615");
}

#[test]
fn line_trimming() {
    assert_eq!(trim_line_end("hello\n"), "hello");
    assert_eq!(trim_line_end("hello\r\n"), "hello");
    assert_eq!(trim_line_end("hello  \t"), "hello");
    assert_eq!(trim_line_end("hello"), "hello");
    assert_eq!(trim_line_end("   "), "");
    assert_eq!(trim_line_end(""), "");
}
