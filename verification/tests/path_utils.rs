//! Tests of path normalization. The Windows cases go through the Windows
//! rules directly, so they run on every platform.
use ferrite_core::path_utils::{
    canonicalize_and_normalize, canonicalize_or_normalize, normalize_canonical, normalize_canonical_or, normalize_path,
    normalize_path_for, normalize_path_ref, normalize_windows_path,
};

#[test]
fn test_normalize_regular_path() {
    // Regular paths should be unchanged
    let path = String::from("/home/user/project");
    assert_eq!(normalize_path(path.clone()), path);
}

#[test]
fn test_normalize_verbatim_disk_path() {
    let normalized = normalize_windows_path(r"\\?\G:\DEV\markDownNotepad");
    assert_eq!(normalized, String::from(r"G:\DEV\markDownNotepad"));
}

#[test]
fn test_normalize_verbatim_disk_root() {
    let normalized = normalize_windows_path(r"\\?\C:");
    // Should have trailing separator for root
    assert!(normalized.starts_with("C:"));
}

#[test]
fn test_normalize_regular_windows_path() {
    // Regular Windows paths should be unchanged
    let path = String::from(r"G:\DEV\project");
    assert_eq!(normalize_windows_path(&path), path);
}

#[test]
fn test_normalize_unc_path() {
    // Regular UNC paths should be unchanged
    let path = String::from(r"\\server\share\folder");
    assert_eq!(normalize_windows_path(&path), path);
}

#[test]
fn test_normalize_lowercase_drive() {
    // Should normalize drive letter to uppercase
    let normalized = normalize_windows_path(r"\\?\g:\dev\project");
    assert!(normalized.starts_with("G:"));
}

#[test]
fn test_canonicalize_and_normalize() {
    // Test with current directory (which should exist)
    if let Some(normalized) = canonicalize_and_normalize(".") {
        // Should not contain \\?\
        assert!(
            !normalized.contains(r"\\?\"),
            "Path should not contain verbatim prefix: {:?}",
            normalized
        );
    }
}

#[test]
fn test_canonicalize_or_normalize_nonexistent() {
    // Even for non-existent paths, should return something usable: with the
    // canonicalization failing, the Windows rules strip the prefix.
    let path = r"\\?\C:\nonexistent\path";
    let result = normalize_canonical_or(path, None, '\\');
    assert!(
        !result.starts_with(r"\\?\"),
        "Path should not start with verbatim prefix: {:?}",
        result
    );
}

#[test]
fn test_normalize_path_ref() {
    let path = String::from("/some/path");
    let normalized = normalize_path_ref(&path);
    assert_eq!(normalized, path);
}

#[test]
fn test_verbatim_unc_path() {
    assert_eq!(
        normalize_windows_path(r"\\?\UNC\server\share\folder"),
        String::from(r"\\server\share\folder")
    );
}

#[test]
fn test_verbatim_root_gets_separator() {
    assert_eq!(normalize_windows_path(r"\\?\C:"), String::from(r"C:\"));
}

#[test]
fn test_normalize_path_for_separators() {
    let p = String::from(r"\\?\d:\x");
    assert_eq!(normalize_path_for(p.clone(), '/'), p);
    assert_eq!(normalize_path_for(p, '\\'), String::from(r"D:\x"));
}

#[test]
fn test_normalize_canonical_none_and_some() {
    assert_eq!(normalize_canonical(None, '\\'), None);
    assert_eq!(
        normalize_canonical(Some(String::from(r"\\?\e:\y")), '\\'),
        Some(String::from(r"E:\y"))
    );
    assert_eq!(
        normalize_canonical_or("/a/b", Some(String::from("/c/d")), '/'),
        String::from("/c/d")
    );
}

#[test]
fn test_normalize_twice_is_once() {
    for p in [
        "\\\\?\\c:\\\\dev\\project\\",
        "\\\\?\\UNC\\server\\share\\dir",
        "C:\\plain",
        "/usr/local",
    ] {
        let once = normalize_windows_path(p);
        assert_eq!(normalize_windows_path(&once), once);
    }
    // the one exception: a UNC path whose server is `?`
    let odd = normalize_windows_path("\\\\?\\UNC\\?\\C:");
    assert_eq!(odd, "\\\\?\\C:");
    assert_eq!(normalize_windows_path(&odd), "C:\\");
}

#[test]
fn test_canonical_answers_are_not_empty() {
    let existing = canonicalize_and_normalize(".").expect("the working directory exists");
    assert!(!existing.is_empty());
    let missing = canonicalize_or_normalize("no/such/file/here.md");
    assert!(!missing.is_empty());
    assert_eq!(canonicalize_and_normalize("no/such/file/here.md"), None);
}

#[test]
fn test_normalize_strips_prefix_once_and_for_all() {
    for p in [r"\\?\c:\a\b", r"\\?\UNC\srv\share\x", r"\\?\D:"] {
        let once = normalize_windows_path(p);
        assert!(!once.starts_with(r"\\?\"));
        assert_eq!(normalize_windows_path(&once), once);
    }
}

#[test]
fn test_normalize_idempotent_with_question_mark_server() {
    let once = normalize_windows_path(r"\\?\UNC\?\share");
    assert_eq!(normalize_windows_path(&once), once);
    let once = normalize_windows_path(r"\\?\UNC\?\UNC\x\y");
    assert_ne!(normalize_windows_path(&once), once);
    assert!(canonicalize_or_normalize(".").starts_with('/'));
}
