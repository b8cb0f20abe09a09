use m4a_atmos_to_mp4_vid_fuse::media::{
    is_atmos_eac3_probe_json, is_m4a_path, str_contains_atmos_marker, unique_virtual_path,
    virtual_path_for, ScanError,
};
use m4a_atmos_to_mp4_vid_fuse::path::FsPath;

fn atmos_probe() -> String {
    r#"{"streams":[{"codec_type":"audio","codec_name":"eac3","tags":{"title":"Dolby Atmos JOC"}}],"format":{"tags":{"encoder":"atmos"}}}"#.to_string()
}

#[test]
fn m4a_extension_matching_is_case_insensitive() {
    assert!(is_m4a_path(&FsPath::parse("track.m4a")));
    assert!(is_m4a_path(&FsPath::parse("track.M4A")));
    assert!(!is_m4a_path(&FsPath::parse("track.mp4")));
}

#[test]
fn probe_accepts_only_eac3_with_atmos_or_joc_marker() {
    assert!(is_atmos_eac3_probe_json(&atmos_probe()));
    assert!(is_atmos_eac3_probe_json(
        r#"{"streams":[{"codec_type":"audio","codec_name":"eac3","side_data_list":[{"side_data_type":"JOC"}]}]}"#
    ));
    assert!(!is_atmos_eac3_probe_json(
        r#"{"streams":[{"codec_type":"audio","codec_name":"aac","tags":{"title":"Atmos"}}]}"#
    ));
    assert!(!is_atmos_eac3_probe_json(
        r#"{"streams":[{"codec_type":"audio","codec_name":"eac3"}]}"#
    ));
    assert!(!is_atmos_eac3_probe_json(
        r#"{"streams":[{"codec_type":"audio","codec_name":"eac3"}],"format":{"filename":"/music/Atmos Album/Track.m4a"}}"#
    ));
}

#[test]
fn duplicate_virtual_paths_get_numeric_suffixes() {
    let requested = FsPath::parse("Album/Track.mkv");
    let existing = vec![FsPath::parse("Album/Track.mkv")];

    let unique = unique_virtual_path(&requested, &existing);

    assert_eq!(unique, FsPath::parse("Album/Track (2).mkv"));
}

#[test]
fn unique_virtual_path_keeps_a_free_path() {
    let requested = FsPath::parse("Album/Track.mkv");
    let existing = vec![FsPath::parse("Album/Other.mkv")];
    assert_eq!(unique_virtual_path(&requested, &existing), FsPath::parse("Album/Track.mkv"));
}

#[test]
fn unique_virtual_path_skips_taken_numbers() {
    let requested = FsPath::parse("Album/Track.mkv");
    let existing = vec![
        FsPath::parse("Album/Track.mkv"),
        FsPath::parse("Album/Track (2).mkv"),
        FsPath::parse("Album/Track (3).mkv"),
    ];
    let unique = unique_virtual_path(&requested, &existing);
    assert_eq!(unique, FsPath::parse("Album/Track (4).mkv"));
    assert!(!existing.contains(&unique));
}

#[test]
fn unique_virtual_path_falls_back_to_track_and_mkv() {
    let requested = FsPath::parse("");
    let existing = vec![FsPath::parse("")];
    assert_eq!(unique_virtual_path(&requested, &existing), FsPath::parse("track (2).mkv"));
}

#[test]
fn virtual_path_replaces_extension_below_root() {
    let root = FsPath::parse("/mnt/source");
    let file = FsPath::parse("/mnt/source/Album/Track One.M4A");
    let vp = virtual_path_for(&root, &file).unwrap();
    assert_eq!(vp.render(), "Album/Track One.mkv");
}

#[test]
fn virtual_path_outside_root_is_an_error() {
    let root = FsPath::parse("/mnt/source");
    let file = FsPath::parse("/elsewhere/Track.m4a");
    match virtual_path_for(&root, &file) {
        Err(ScanError::OutsideRoot { file, root }) => {
            assert_eq!(file, "/elsewhere/Track.m4a");
            assert_eq!(root, "/mnt/source");
        }
        other => panic!("unexpected result {other:?}"),
    }
}

#[test]
fn marker_tokens_are_whole_words_in_any_case() {
    assert!(str_contains_atmos_marker("Dolby Atmos"));
    assert!(str_contains_atmos_marker("e-ac-3 (JOC)"));
    assert!(str_contains_atmos_marker("ATMOS"));
    assert!(!str_contains_atmos_marker("atmosphere"));
    assert!(!str_contains_atmos_marker("jocular"));
    assert!(!str_contains_atmos_marker(""));
}

#[test]
fn probe_rejects_text_that_is_not_json() {
    assert!(!is_atmos_eac3_probe_json("not json at all"));
    assert!(!is_atmos_eac3_probe_json(""));
}

#[test]
fn probe_accepts_marker_in_profile_or_format_tags() {
    assert!(is_atmos_eac3_probe_json(
        r#"{"streams":[{"codec_type":"audio","codec_name":"eac3","profile":"Dolby Digital Plus + Dolby Atmos"}]}"#
    ));
    assert!(is_atmos_eac3_probe_json(
        r#"{"streams":[{"codec_type":"Audio","codec_name":"EAC3"}],"format":{"tags":{"comment":["x","joc"]}}}"#
    ));
}
