use srt2lrc::path::{is_srt_extension, parse_path, plan_conversion, resolve_output_path, PathError};

#[test]
fn path_splits_into_directory_stem_extension() {
    let parts = parse_path(&b"dir/movie.srt".to_vec()).unwrap();
    assert_eq!(parts.directory, b"dir/".to_vec());
    assert_eq!(parts.stem, b"movie".to_vec());
    assert_eq!(parts.extension, b"srt".to_vec());
}

#[test]
fn bare_file_name_has_empty_directory() {
    let parts = parse_path(&b"movie.srt".to_vec()).unwrap();
    assert_eq!(parts.directory, b"".to_vec());
    assert_eq!(parts.stem, b"movie".to_vec());
    assert_eq!(parts.extension, b"srt".to_vec());
}

#[test]
fn nested_directories_are_kept() {
    let parts = parse_path(&b"a/b/c/movie.srt".to_vec()).unwrap();
    assert_eq!(parts.directory, b"a/b/c/".to_vec());
}

#[test]
fn last_dot_separates_the_extension() {
    let parts = parse_path(&b"archive.tar.gz".to_vec()).unwrap();
    assert_eq!(parts.stem, b"archive.tar".to_vec());
    assert_eq!(parts.extension, b"gz".to_vec());
}

#[test]
fn hidden_file_name_is_no_extension() {
    assert_eq!(
        parse_path(&b".bashrc".to_vec()).err(),
        Some(PathError::MissingExtension)
    );
}

#[test]
fn path_without_dot_has_no_extension() {
    assert_eq!(
        parse_path(&b"dir/noext".to_vec()).err(),
        Some(PathError::MissingExtension)
    );
}

#[test]
fn trailing_separator_has_no_name() {
    assert_eq!(parse_path(&b"dir/".to_vec()).err(), Some(PathError::MissingName));
}

#[test]
fn empty_path_has_no_name() {
    assert_eq!(parse_path(&b"".to_vec()).err(), Some(PathError::MissingName));
}

#[test]
fn extension_gate_admits_exactly_srt() {
    assert!(is_srt_extension(&b"srt".to_vec()));
    assert!(!is_srt_extension(&b"SRT".to_vec()));
    assert!(!is_srt_extension(&b"txt".to_vec()));
    assert!(!is_srt_extension(&b"srtx".to_vec()));
    assert!(!is_srt_extension(&b"".to_vec()));
}

#[test]
fn default_destination_takes_stem_and_lrc() {
    let out = plan_conversion(&b"dir/movie.srt".to_vec(), None).unwrap();
    assert_eq!(out, b"dir/movie.lrc".to_vec());
}

#[test]
fn explicit_destination_name_is_used_verbatim() {
    let name = b"out.lrc".to_vec();
    let out = plan_conversion(&b"dir/movie.srt".to_vec(), Some(&name)).unwrap();
    assert_eq!(out, b"dir/out.lrc".to_vec());
}

#[test]
fn explicit_name_is_not_forced_to_lrc() {
    let name = b"plain.txt".to_vec();
    let out = plan_conversion(&b"dir/movie.srt".to_vec(), Some(&name)).unwrap();
    assert_eq!(out, b"dir/plain.txt".to_vec());
}

#[test]
fn wrong_extension_is_rejected_before_any_destination() {
    assert_eq!(
        plan_conversion(&b"input.txt".to_vec(), None).err(),
        Some(PathError::UnsupportedFormat)
    );
}

#[test]
fn upper_case_extension_is_rejected() {
    assert_eq!(
        plan_conversion(&b"movie.SRT".to_vec(), None).err(),
        Some(PathError::UnsupportedFormat)
    );
}

#[test]
fn resolver_joins_directory_and_name() {
    let parts = parse_path(&b"a/b/movie.srt".to_vec()).unwrap();
    let explicit = b"song.lrc".to_vec();
    assert_eq!(resolve_output_path(&parts, Some(&explicit)), b"a/b/song.lrc".to_vec());
    assert_eq!(resolve_output_path(&parts, None), b"a/b/movie.lrc".to_vec());
}
