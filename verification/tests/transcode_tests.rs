use m4a_atmos_to_mp4_vid_fuse::media::{FileTime, MediaItem};
use m4a_atmos_to_mp4_vid_fuse::path::FsPath;
use m4a_atmos_to_mp4_vid_fuse::transcode::{
    cache_key, hex_lower, MaterializeAction, MaterializeError, MaterializeEvent, MaterializeJob,
    MaterializeState, TranscodeCache,
};

fn at(secs: u64) -> FileTime {
    FileTime { before_epoch: false, secs, nanos: 0 }
}

fn item(path: &str, size: u64, mtime: FileTime) -> MediaItem {
    MediaItem {
        source_path: FsPath::parse(path),
        relative_m4a: FsPath::parse("song.m4a"),
        virtual_path: FsPath::parse("song.mkv"),
        size,
        mtime,
    }
}

#[test]
fn cache_key_changes_with_path_size_or_mtime() {
    let mtime = at(10);
    let base = cache_key(&FsPath::parse("/media/a.m4a"), 100, mtime);
    assert_ne!(base, cache_key(&FsPath::parse("/media/b.m4a"), 100, mtime));
    assert_ne!(base, cache_key(&FsPath::parse("/media/a.m4a"), 101, mtime));
    assert_ne!(base, cache_key(&FsPath::parse("/media/a.m4a"), 100, at(11)));
    assert_eq!(base.len(), 64);
}

#[test]
fn cache_key_is_sha256_of_path_size_and_time() {
    assert_eq!(
        cache_key(&FsPath::parse("/media/a.m4a"), 100, at(10)),
        "c518da6dc389bd3829c4029706cd6564a175359ea63064192466a8a9259ed3f0"
    );
}

#[test]
fn times_before_the_epoch_count_as_the_epoch() {
    let before = FileTime { before_epoch: true, secs: 5, nanos: 7 };
    let key = cache_key(&FsPath::parse("/media/a.m4a"), 100, before);
    assert_eq!(key, cache_key(&FsPath::parse("/media/a.m4a"), 100, at(0)));
    assert_eq!(key, "c249889d7c19fc2d78488fdde4753095fdc0576fa04fa916bd115ddf62386af4");
}

#[test]
fn hex_is_lower_case_two_digits_per_byte() {
    assert_eq!(hex_lower(&[0x00, 0x0f, 0xa5, 0xff]), "000fa5ff");
    assert_eq!(hex_lower(&[]), "");
}

#[test]
fn cached_path_is_key_dot_mkv_in_cache_dir() {
    let cache = TranscodeCache::new(FsPath::parse("/var/cache/m4a"));
    let media = item("/media/a.m4a", 100, at(10));
    assert_eq!(
        cache.cached_path(&media).render(),
        "/var/cache/m4a/c518da6dc389bd3829c4029706cd6564a175359ea63064192466a8a9259ed3f0.mkv"
    );
}

fn run_command(action: &MaterializeAction) -> (String, Vec<String>) {
    match action {
        MaterializeAction::Run { program, args } => (program.clone(), args.clone()),
        _ => panic!("expected a command"),
    }
}

fn run_args(action: &MaterializeAction) -> Vec<String> {
    run_command(action).1
}

/// Drives a generation through the lock and the naming of scratch files.
fn up_to_cover(job: &MaterializeJob) -> (MaterializeState, MaterializeAction) {
    let (state, action) = job.start();
    assert!(matches!(action, MaterializeAction::CreateDir(_)));
    let (state, action) = job.step(state, MaterializeEvent::Done);
    assert!(matches!(action, MaterializeAction::CheckFile(_)));
    let (state, action) = job.step(state, MaterializeEvent::Exists(false));
    assert!(matches!(action, MaterializeAction::Lock(_)));
    let (state, action) = job.step(state, MaterializeEvent::Done);
    assert!(matches!(action, MaterializeAction::CheckFile(_)));
    let (state, action) = job.step(state, MaterializeEvent::Exists(false));
    assert!(matches!(action, MaterializeAction::ReadSuffix));
    job.step(state, MaterializeEvent::Suffix { pid: 42, nanos: 7 })
}

#[test]
fn materialize_uses_black_fallback_then_muxes_when_cover_missing() {
    let cache_dir = FsPath::parse("/tmp/cache");
    let media = item("/tmp/cache/track.m4a", 6, at(1));
    let job = MaterializeJob::new(&cache_dir, &media);
    let mut commands: Vec<(String, Vec<String>)> = Vec::new();

    let (state, action) = up_to_cover(&job);
    commands.push(run_command(&action));
    let (state, action) = job.step(state, MaterializeEvent::Failed("no cover art".to_string()));
    commands.push(run_command(&action));
    let (state, action) = job.step(state, MaterializeEvent::Done);
    commands.push(run_command(&action));
    let (state, action) = job.step(state, MaterializeEvent::Done);
    assert!(matches!(action, MaterializeAction::Rename { .. }));
    let (state, action) = job.step(state, MaterializeEvent::Done);
    assert!(matches!(action, MaterializeAction::RemoveFiles(_)));
    let (_, action) = job.step(state, MaterializeEvent::Done);
    let output = match action {
        MaterializeAction::Finish(Ok(path)) => path,
        _ => panic!("expected success"),
    };

    assert_eq!(output.extension().as_deref(), Some("mkv"));
    assert_eq!(commands.len(), 3);
    assert_eq!(commands[0].0, "ffmpeg");
    assert!(commands[0].1.iter().any(|arg| arg == "-vcodec"));
    assert!(commands[1].1.iter().any(|arg| arg.contains("color=c=black")));
    assert!(commands[2].1.iter().any(|arg| arg == "-shortest"));
    assert!(commands[2].1.iter().any(|arg| arg == "-vf"));
    assert!(commands[2].1.iter().any(|arg| arg.contains("trunc(iw/2)*2")));
}

#[test]
fn cover_art_is_muxed_when_it_was_extracted() {
    let cache_dir = FsPath::parse("/c");
    let media = item("/m/t.m4a", 1, at(1));
    let job = MaterializeJob::new(&cache_dir, &media);
    let key = cache_key(&media.source_path, 1, at(1));
    let (state, action) = up_to_cover(&job);
    let cover = format!("/c/.{key}.42.7.cover.jpg");
    assert_eq!(
        run_args(&action),
        vec!["-nostdin", "-y", "-i", "/m/t.m4a", "-an", "-vcodec", "copy", cover.as_str()]
    );
    let (_, action) = job.step(state, MaterializeEvent::Done);
    let args = run_args(&action);
    assert_eq!(args[5], cover);
    assert_eq!(args.last().unwrap(), &format!("/c/.{key}.42.7.tmp.mkv"));
}

#[test]
fn existing_cached_file_is_reused() {
    let cache_dir = FsPath::parse("/c");
    let media = item("/m/t.m4a", 1, at(1));
    let job = MaterializeJob::new(&cache_dir, &media);
    let (state, _) = job.start();
    let (state, _) = job.step(state, MaterializeEvent::Done);
    let (_, action) = job.step(state, MaterializeEvent::Exists(true));
    match action {
        MaterializeAction::Finish(Ok(path)) => {
            assert_eq!(path, TranscodeCache::new(FsPath::parse("/c")).cached_path(&media))
        }
        _ => panic!("expected the cached file"),
    }
}

#[test]
fn failed_cache_dir_ends_the_generation() {
    let job = MaterializeJob::new(&FsPath::parse("/c"), &item("/m/t.m4a", 1, at(1)));
    let (state, _) = job.start();
    let (_, action) = job.step(state, MaterializeEvent::Failed("denied".to_string()));
    match action {
        MaterializeAction::Finish(Err(MaterializeError::CacheDir { dir, message })) => {
            assert_eq!(dir, "/c");
            assert_eq!(message, "denied");
        }
        _ => panic!("expected a cache dir error"),
    }
}

#[test]
fn failed_mux_removes_scratch_files_then_fails() {
    let job = MaterializeJob::new(&FsPath::parse("/c"), &item("/m/t.m4a", 1, at(1)));
    let (state, _) = up_to_cover(&job);
    let (state, _) = job.step(state, MaterializeEvent::Done);
    let (state, action) = job.step(state, MaterializeEvent::Failed("mux failed".to_string()));
    match &action {
        MaterializeAction::RemoveFiles(files) => assert_eq!(files.len(), 3),
        _ => panic!("expected clean-up"),
    }
    let (_, action) = job.step(state, MaterializeEvent::Done);
    match action {
        MaterializeAction::Finish(Err(MaterializeError::Command { message })) => {
            assert_eq!(message, "mux failed")
        }
        _ => panic!("expected a command error"),
    }
}

#[test]
fn failed_rename_reports_both_paths() {
    let job = MaterializeJob::new(&FsPath::parse("/c"), &item("/m/t.m4a", 1, at(1)));
    let key = cache_key(&FsPath::parse("/m/t.m4a"), 1, at(1));
    let (state, _) = up_to_cover(&job);
    let (state, _) = job.step(state, MaterializeEvent::Done);
    let (state, _) = job.step(state, MaterializeEvent::Done);
    let (state, action) = job.step(state, MaterializeEvent::Failed("busy".to_string()));
    assert!(matches!(action, MaterializeAction::RemoveFiles(_)));
    let (_, action) = job.step(state, MaterializeEvent::Done);
    match action {
        MaterializeAction::Finish(Err(MaterializeError::Rename { from, to, message })) => {
            assert_eq!(from, format!("/c/.{key}.42.7.tmp.mkv"));
            assert_eq!(to, format!("/c/{key}.mkv"));
            assert_eq!(message, "busy");
        }
        _ => panic!("expected a rename error"),
    }
}

#[test]
fn failed_black_image_ends_with_command_error() {
    let job = MaterializeJob::new(&FsPath::parse("/c"), &item("/m/t.m4a", 1, at(1)));
    let (state, _) = up_to_cover(&job);
    let (state, _) = job.step(state, MaterializeEvent::Failed("no cover".to_string()));
    let (state, action) = job.step(state, MaterializeEvent::Failed("no lavfi".to_string()));
    assert!(matches!(action, MaterializeAction::RemoveFiles(_)));
    let (_, action) = job.step(state, MaterializeEvent::Done);
    assert!(matches!(
        action,
        MaterializeAction::Finish(Err(MaterializeError::Command { .. }))
    ));
}

#[test]
fn cache_key_hashes_the_path_text_as_given() {
    let plain = FsPath::parse("/media/a.m4a");
    let doubled = FsPath::parse("/media//a.m4a");
    assert_eq!(plain, doubled);
    assert_ne!(cache_key(&plain, 100, at(10)), cache_key(&doubled, 100, at(10)));
    assert_eq!(doubled.text, "/media//a.m4a");
}

#[test]
fn paths_handed_to_the_caller_carry_their_text() {
    let media = item("/m/t.m4a", 1, at(1));
    let key = cache_key(&media.source_path, 1, at(1));
    let output = format!("/c/{key}.mkv");
    let tmp = format!("/c/.{key}.42.7.tmp.mkv");
    let cover = format!("/c/.{key}.42.7.cover.jpg");
    assert_eq!(TranscodeCache::new(FsPath::parse("/c")).cached_path(&media).text, output);

    let job = MaterializeJob::new(&FsPath::parse("/c"), &media);
    let (state, action) = job.start();
    match &action {
        MaterializeAction::CreateDir(dir) => assert_eq!(dir.text, "/c"),
        _ => panic!("expected the cache directory"),
    }
    let (_, action) = job.step(state, MaterializeEvent::Done);
    match &action {
        MaterializeAction::CheckFile(path) => assert_eq!(path.text, output),
        _ => panic!("expected a check of the cached file"),
    }

    let (state, _) = up_to_cover(&job);
    let (state, _) = job.step(state, MaterializeEvent::Done);
    let (state, action) = job.step(state, MaterializeEvent::Done);
    match &action {
        MaterializeAction::Rename { from, to } => {
            assert_eq!(from.text, tmp);
            assert_eq!(to.text, output);
        }
        _ => panic!("expected the rename"),
    }
    let (state, action) = job.step(state, MaterializeEvent::Done);
    match &action {
        MaterializeAction::RemoveFiles(files) => assert!(files.iter().any(|f| f.text == cover)),
        _ => panic!("expected the removal of scratch files"),
    }
    let (_, action) = job.step(state, MaterializeEvent::Done);
    match action {
        MaterializeAction::Finish(Ok(path)) => assert_eq!(path.text, output),
        _ => panic!("expected success"),
    }
}

#[test]
fn second_generation_under_the_lock_reuses_the_first_ones_file() {
    let media = item("/m/t.m4a", 1, at(1));
    let first = MaterializeJob::new(&FsPath::parse("/c"), &media);
    let second = MaterializeJob::new(&FsPath::parse("/c"), &media);
    let mut runs: Vec<Vec<String>> = Vec::new();

    // Both find no cached file and ask for the lock.
    let (a, _) = first.start();
    let (a, _) = first.step(a, MaterializeEvent::Done);
    let (a, lock_a) = first.step(a, MaterializeEvent::Exists(false));
    let (b, _) = second.start();
    let (b, _) = second.step(b, MaterializeEvent::Done);
    let (b, lock_b) = second.step(b, MaterializeEvent::Exists(false));
    assert!(matches!(lock_a, MaterializeAction::Lock(_)));
    assert!(matches!(lock_b, MaterializeAction::Lock(_)));

    // The first takes the lock and generates the file.
    let (a, _) = first.step(a, MaterializeEvent::Done);
    let (a, _) = first.step(a, MaterializeEvent::Exists(false));
    let (mut a, mut action) = first.step(a, MaterializeEvent::Suffix { pid: 1, nanos: 2 });
    loop {
        match action {
            MaterializeAction::Finish(result) => {
                assert_eq!(result, Ok(first.output.duplicate()));
                break;
            }
            MaterializeAction::Run { args, .. } => runs.push(args),
            _ => {}
        }
        let (next, next_action) = first.step(a, MaterializeEvent::Done);
        a = next;
        action = next_action;
    }

    // The second takes the lock after it, finds the file and runs nothing.
    let (b, recheck) = second.step(b, MaterializeEvent::Done);
    assert!(matches!(recheck, MaterializeAction::CheckFile(_)));
    let (_, action) = second.step(b, MaterializeEvent::Exists(true));
    match action {
        MaterializeAction::Finish(Ok(path)) => assert_eq!(path.text, first.output.text),
        _ => panic!("expected the cached file"),
    }
    assert_eq!(runs.iter().filter(|args| args.iter().any(|arg| arg == "-shortest")).count(), 1);
}
