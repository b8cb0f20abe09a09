use m4a_atmos_to_mp4_vid_fuse::order::path_less;
use m4a_atmos_to_mp4_vid_fuse::path::{FsPath, PathComponent};

#[test]
fn parsing_drops_empty_and_current_pieces() {
    let p = FsPath::parse("/a//b/./c/");
    assert_eq!(
        p.components,
        vec![
            PathComponent::RootDir,
            PathComponent::Normal("a".to_string()),
            PathComponent::Normal("b".to_string()),
            PathComponent::Normal("c".to_string()),
        ]
    );
    assert_eq!(p.render(), "/a/b/c");
    assert_eq!(FsPath::parse("./x").components, vec![PathComponent::CurDir, PathComponent::Normal("x".to_string())]);
    assert_eq!(FsPath::parse("x/../y").components[1], PathComponent::ParentDir);
}

#[test]
fn rendering_a_relative_path_of_names_parses_back() {
    for text in ["Album/Track One.mkv", "a", ".hidden/x.y.z", "a b/c (2).mkv"] {
        let p = FsPath::parse(text);
        assert_eq!(p.render(), text);
        assert_eq!(FsPath::parse(&p.render()), p);
    }
}

#[test]
fn stems_and_extensions_follow_the_last_dot() {
    let p = FsPath::parse("dir/archive.tar.gz");
    assert_eq!(p.file_name().as_deref(), Some("archive.tar.gz"));
    assert_eq!(p.file_stem().as_deref(), Some("archive.tar"));
    assert_eq!(p.extension().as_deref(), Some("gz"));
    let hidden = FsPath::parse(".profile");
    assert_eq!(hidden.file_stem().as_deref(), Some(".profile"));
    assert_eq!(hidden.extension(), None);
    let trailing = FsPath::parse("name.");
    assert_eq!(trailing.file_stem().as_deref(), Some("name"));
    assert_eq!(trailing.extension().as_deref(), Some(""));
    assert_eq!(FsPath::parse("a/..").file_name(), None);
}

#[test]
fn with_extension_replaces_or_adds() {
    assert_eq!(FsPath::parse("a/b.m4a").with_extension("mkv").render(), "a/b.mkv");
    assert_eq!(FsPath::parse("a/b").with_extension("mkv").render(), "a/b.mkv");
    assert_eq!(FsPath::parse("a/b.m4a").with_extension("").render(), "a/b");
    assert_eq!(FsPath::parse("/").with_extension("mkv").render(), "/");
}

#[test]
fn prefixes_and_parents_work_by_component() {
    let p = FsPath::parse("/src/album/t.m4a");
    assert_eq!(p.strip_prefix(&FsPath::parse("/src")).unwrap().render(), "album/t.m4a");
    assert!(p.strip_prefix(&FsPath::parse("/sr")).is_none());
    assert_eq!(p.parent().unwrap().render(), "/src/album");
    assert!(FsPath::parse("/").parent().is_none());
    assert!(FsPath::parse("").parent().is_none());
    assert_eq!(FsPath::parse("x").parent().unwrap().render(), "");
}

#[test]
fn paths_order_by_components() {
    assert!(path_less(&FsPath::parse("a/y.mkv"), &FsPath::parse("b/a.mkv")));
    assert!(path_less(&FsPath::parse("a"), &FsPath::parse("a/b")));
    assert!(path_less(&FsPath::parse("a/t (2).mkv"), &FsPath::parse("a/t.mkv")));
    assert!(path_less(&FsPath::parse("a/b"), &FsPath::parse("a-b")));
    assert!(!path_less(&FsPath::parse("a/b"), &FsPath::parse("a/b")));
    assert!(path_less(&FsPath::parse("/z"), &FsPath::parse("a")));
}
