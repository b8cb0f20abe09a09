use std::collections::HashMap;

use m4a_atmos_to_mp4_vid_fuse::media::{FileTime, ScanError};
use m4a_atmos_to_mp4_vid_fuse::path::FsPath;
use m4a_atmos_to_mp4_vid_fuse::scan::{index_probed, scan_source, ProbeRunner, SourceEntry};

struct FakeProbe {
    responses: HashMap<String, String>,
}

impl ProbeRunner for FakeProbe {
    fn probe_json(&self, path: &FsPath) -> Result<String, String> {
        self.responses
            .get(&path.render())
            .cloned()
            .ok_or_else(|| format!("unexpected probe: {}", path.render()))
    }
}

fn atmos_probe() -> String {
    r#"{"streams":[{"codec_type":"audio","codec_name":"eac3","tags":{"title":"Dolby Atmos JOC"}}],"format":{"tags":{"encoder":"atmos"}}}"#.to_string()
}

fn stereo_probe() -> String {
    r#"{"streams":[{"codec_type":"audio","codec_name":"aac"}]}"#.to_string()
}

fn dir(path: &str) -> Result<SourceEntry, String> {
    Ok(SourceEntry {
        path: FsPath::parse(path),
        is_file: false,
        size: Ok(4096),
        mtime: Ok(FileTime { before_epoch: false, secs: 1, nanos: 0 }),
    })
}

fn file(path: &str, size: u64, secs: u64) -> Result<SourceEntry, String> {
    Ok(SourceEntry {
        path: FsPath::parse(path),
        is_file: true,
        size: Ok(size),
        mtime: Ok(FileTime { before_epoch: false, secs, nanos: 0 }),
    })
}

fn probe(pairs: &[(&str, String)]) -> FakeProbe {
    FakeProbe { responses: pairs.iter().map(|(p, j)| (p.to_string(), j.clone())).collect() }
}

#[test]
fn scanner_preserves_relative_layout_and_exposes_mkv() {
    let entries = vec![
        dir("/src"),
        dir("/src/Album"),
        file("/src/Album/Track One.M4A", 4, 7),
        file("/src/Album/notes.txt", 4, 7),
    ];
    let runner = probe(&[("/src/Album/Track One.M4A", atmos_probe())]);

    let items = scan_source(&FsPath::parse("/src"), &entries, &runner).unwrap();

    assert_eq!(items.len(), 1);
    assert_eq!(items[0].relative_m4a, FsPath::parse("Album/Track One.M4A"));
    assert_eq!(items[0].virtual_path, FsPath::parse("Album/Track One.mkv"));
    assert_eq!(items[0].source_path, FsPath::parse("/src/Album/Track One.M4A"));
    assert_eq!(items[0].size, 4);
    assert_eq!(items[0].mtime, FileTime { before_epoch: false, secs: 7, nanos: 0 });
}

#[test]
fn scan_skips_failed_and_non_atmos_probes_and_sorts() {
    let entries = vec![
        file("/src/b/z.m4a", 1, 1),
        file("/src/a/y.m4a", 2, 2),
        file("/src/a/stereo.m4a", 3, 3),
        file("/src/a/broken.m4a", 4, 4),
        dir("/src/dir.m4a"),
    ];
    let runner = probe(&[
        ("/src/b/z.m4a", atmos_probe()),
        ("/src/a/y.m4a", atmos_probe()),
        ("/src/a/stereo.m4a", stereo_probe()),
    ]);
    let items = scan_source(&FsPath::parse("/src"), &entries, &runner).unwrap();
    let paths: Vec<String> = items.iter().map(|i| i.virtual_path.render()).collect();
    assert_eq!(paths, vec!["a/y.mkv", "b/z.mkv"]);
}

#[test]
fn clashing_virtual_paths_are_numbered_in_walk_order() {
    let entries = vec![file("/src/a/t.m4a", 1, 1), file("/src/a/t.M4A", 2, 2)];
    let runner = probe(&[("/src/a/t.m4a", atmos_probe()), ("/src/a/t.M4A", atmos_probe())]);
    let items = scan_source(&FsPath::parse("/src"), &entries, &runner).unwrap();
    let found: Vec<(String, u64)> = items.iter().map(|i| (i.virtual_path.render(), i.size)).collect();
    assert_eq!(found, vec![("a/t (2).mkv".to_string(), 2), ("a/t.mkv".to_string(), 1)]);
}

#[test]
fn walk_failure_ends_the_scan() {
    let entries = vec![file("/src/a.m4a", 1, 1), Err("permission denied".to_string())];
    let runner = probe(&[("/src/a.m4a", atmos_probe())]);
    match scan_source(&FsPath::parse("/src"), &entries, &runner) {
        Err(ScanError::Walk { root, message }) => {
            assert_eq!(root, "/src");
            assert_eq!(message, "permission denied");
        }
        other => panic!("unexpected {other:?}"),
    }
}

#[test]
fn unreadable_metadata_of_an_eligible_file_fails() {
    let mut entry = file("/src/a.m4a", 1, 1).unwrap();
    entry.size = Err("gone".to_string());
    let runner = probe(&[("/src/a.m4a", atmos_probe())]);
    match scan_source(&FsPath::parse("/src"), &vec![Ok(entry)], &runner) {
        Err(ScanError::Stat { path, message }) => {
            assert_eq!(path, "/src/a.m4a");
            assert_eq!(message, "gone");
        }
        other => panic!("unexpected {other:?}"),
    }
}

#[test]
fn unreadable_mtime_of_an_eligible_file_fails() {
    let mut entry = file("/src/a.m4a", 1, 1).unwrap();
    entry.mtime = Err("no mtime".to_string());
    let runner = probe(&[("/src/a.m4a", atmos_probe())]);
    match scan_source(&FsPath::parse("/src"), &vec![Ok(entry)], &runner) {
        Err(ScanError::Mtime { path, message }) => {
            assert_eq!(path, "/src/a.m4a");
            assert_eq!(message, "no mtime");
        }
        other => panic!("unexpected {other:?}"),
    }
}

#[test]
fn ineligible_file_with_unreadable_metadata_is_skipped() {
    let mut entry = file("/src/a.m4a", 1, 1).unwrap();
    entry.size = Err("gone".to_string());
    let runner = probe(&[("/src/a.m4a", stereo_probe())]);
    let items = scan_source(&FsPath::parse("/src"), &vec![Ok(entry)], &runner).unwrap();
    assert!(items.is_empty());
}

#[test]
fn file_outside_the_root_fails() {
    let entries = vec![file("/other/a.m4a", 1, 1)];
    let runner = probe(&[("/other/a.m4a", atmos_probe())]);
    match scan_source(&FsPath::parse("/src"), &entries, &runner) {
        Err(ScanError::OutsideRoot { file, root }) => {
            assert_eq!(file, "/other/a.m4a");
            assert_eq!(root, "/src");
        }
        other => panic!("unexpected {other:?}"),
    }
}

#[test]
fn indexing_with_given_answers() {
    let entries = vec![file("/src/x.m4a", 9, 3), file("/src/y.txt", 1, 1)];
    let answers = vec![Ok(atmos_probe()), Ok(atmos_probe())];
    let items = index_probed(&FsPath::parse("/src"), &entries, &answers).unwrap();
    assert_eq!(items.len(), 1);
    assert_eq!(items[0].virtual_path.render(), "x.mkv");
    let refused = vec![Err("ffprobe failed".to_string()), Ok(atmos_probe())];
    assert!(index_probed(&FsPath::parse("/src"), &entries, &refused).unwrap().is_empty());
}

struct RecordingProbe {
    asked: std::cell::RefCell<Vec<String>>,
    inner: FakeProbe,
}

impl ProbeRunner for RecordingProbe {
    fn probe_json(&self, path: &FsPath) -> Result<String, String> {
        self.asked.borrow_mut().push(path.render());
        self.inner.probe_json(path)
    }
}

#[test]
fn only_m4a_files_are_probed_and_failed_probes_are_skipped() {
    let entries = vec![
        dir("/src"),
        dir("/src/disc.m4a"),
        file("/src/notes.txt", 1, 1),
        file("/src/bad.m4a", 1, 1),
        file("/src/good.M4A", 2, 2),
    ];
    let runner = RecordingProbe {
        asked: std::cell::RefCell::new(Vec::new()),
        inner: probe(&[("/src/good.M4A", atmos_probe())]),
    };
    let items = scan_source(&FsPath::parse("/src"), &entries, &runner).unwrap();
    assert_eq!(*runner.asked.borrow(), vec!["/src/bad.m4a".to_string(), "/src/good.M4A".to_string()]);
    assert_eq!(items.len(), 1);
    assert_eq!(items[0].source_path.render(), "/src/good.M4A");
}

#[test]
fn indexed_paths_carry_their_rendered_text() {
    let entries = vec![file("/src//a/./t.m4a", 1, 1), file("/src/a/t.M4A", 2, 2)];
    let runner = probe(&[("/src/a/t.m4a", atmos_probe()), ("/src/a/t.M4A", atmos_probe())]);
    let items = scan_source(&FsPath::parse("/src"), &entries, &runner).unwrap();
    let texts: Vec<(String, String, String)> = items
        .iter()
        .map(|i| (i.source_path.text.clone(), i.relative_m4a.text.clone(), i.virtual_path.text.clone()))
        .collect();
    assert_eq!(
        texts,
        vec![
            ("/src/a/t.M4A".to_string(), "a/t.M4A".to_string(), "a/t (2).mkv".to_string()),
            ("/src//a/./t.m4a".to_string(), "a/t.m4a".to_string(), "a/t.mkv".to_string()),
        ]
    );
}
