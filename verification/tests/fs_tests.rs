use m4a_atmos_to_mp4_vid_fuse::fs::{blocks_for_size, AtmosFs, AttrView, FsError};
use m4a_atmos_to_mp4_vid_fuse::media::{FileTime, MediaItem};
use m4a_atmos_to_mp4_vid_fuse::path::FsPath;

fn media(path: &str, virtual_path: &str) -> MediaItem {
    MediaItem {
        source_path: FsPath::parse(path),
        relative_m4a: FsPath::parse(path),
        virtual_path: FsPath::parse(virtual_path),
        size: 1,
        mtime: FileTime { before_epoch: false, secs: 0, nanos: 0 },
    }
}

fn sample_fs() -> AtmosFs {
    AtmosFs::new(vec![
        media("/src/album/song.m4a", "album/song.mkv"),
        media("/src/album/disc2/other.m4a", "album/disc2/other.mkv"),
    ])
}

#[test]
fn inode_tree_contains_root_directories_and_files() {
    let fs = sample_fs();

    assert_eq!(fs.nodes()[0].ino, 1);
    assert!(fs.node_by_path("album").unwrap().is_dir);
    assert!(fs.node_by_path("album/disc2").unwrap().is_dir);
    assert!(!fs.node_by_path("album/song.mkv").unwrap().is_dir);
}

#[test]
fn inodes_follow_creation_order() {
    let fs = sample_fs();
    let nodes = fs.nodes();
    let names: Vec<(u64, u64, String, bool)> =
        nodes.iter().map(|n| (n.ino, n.parent, n.name.clone(), n.is_dir)).collect();
    assert_eq!(
        names,
        vec![
            (1, 1, String::new(), true),
            (2, 1, "album".to_string(), true),
            (3, 2, "song.mkv".to_string(), false),
            (4, 2, "disc2".to_string(), true),
            (5, 4, "other.mkv".to_string(), false),
        ]
    );
}

#[test]
fn each_item_is_served_at_its_virtual_path() {
    let fs = sample_fs();
    let song = fs.node_by_path("album/song.mkv").unwrap();
    assert_eq!(fs.file_item_index(song.ino), Ok(0));
    let other = fs.node_by_path("album/disc2/other.mkv").unwrap();
    assert_eq!(fs.file_item_index(other.ino), Ok(1));
    assert_eq!(fs.item(1).virtual_path.render(), "album/disc2/other.mkv");
    assert_eq!(fs.item_count(), 2);
    assert!(fs.node_by_path("album/missing.mkv").is_none());
}

#[test]
fn duplicate_virtual_path_keeps_first_item() {
    let fs = AtmosFs::new(vec![
        media("/src/a.m4a", "album/song.mkv"),
        media("/src/b.m4a", "album/song.mkv"),
    ]);
    assert_eq!(fs.nodes().len(), 3);
    let song = fs.node_by_path("album/song.mkv").unwrap();
    assert_eq!(fs.file_item_index(song.ino), Ok(0));
}

#[test]
fn lookup_child_follows_names() {
    let fs = sample_fs();
    let album = fs.lookup_child(1, "album").unwrap();
    assert!(album.is_dir);
    let disc = fs.lookup_child(album.ino, "disc2").unwrap();
    assert_eq!(disc.parent, album.ino);
    assert_eq!(disc.name, "disc2");
    assert!(fs.lookup_child(album.ino, "nothing").is_none());
    let song = fs.lookup_child(album.ino, "song.mkv").unwrap();
    assert!(fs.lookup_child(song.ino, "x").is_none());
    assert!(fs.lookup_child(99, "album").is_none());
}

#[test]
fn directory_listing_has_dots_then_children_in_name_order() {
    let fs = sample_fs();
    let album = fs.node_by_path("album").unwrap();
    let entries = fs.dir_entries(album.ino, 0).unwrap();
    let listed: Vec<(u64, bool, String, u64)> =
        entries.iter().map(|e| (e.ino, e.is_dir, e.name.clone(), e.next_offset)).collect();
    assert_eq!(
        listed,
        vec![
            (2, true, ".".to_string(), 1),
            (1, true, "..".to_string(), 2),
            (4, true, "disc2".to_string(), 3),
            (3, false, "song.mkv".to_string(), 4),
        ]
    );
    let rest = fs.dir_entries(album.ino, 3).unwrap();
    assert_eq!(rest.len(), 1);
    assert_eq!(rest[0].name, "song.mkv");
    assert!(fs.dir_entries(album.ino, 10).unwrap().is_empty());
}

#[test]
fn listing_errors_name_the_problem() {
    let fs = sample_fs();
    let song = fs.node_by_path("album/song.mkv").unwrap();
    assert_eq!(fs.dir_entries(song.ino, 0).unwrap_err(), FsError::NotADirectory);
    assert_eq!(fs.dir_entries(42, 0).unwrap_err(), FsError::NotFound);
    assert_eq!(fs.file_item_index(1), Err(FsError::NotAFile));
    assert_eq!(fs.file_item_index(0), Err(FsError::NotFound));
}

#[test]
fn only_read_only_opens_of_files_succeed() {
    let fs = sample_fs();
    let song = fs.node_by_path("album/song.mkv").unwrap();
    assert_eq!(fs.open_file(song.ino, true), Ok(0));
    assert_eq!(fs.open_file(song.ino, false), Err(FsError::AccessDenied));
    assert_eq!(fs.open_file(1, true), Err(FsError::NotAFile));
    assert_eq!(fs.open_file(77, true), Err(FsError::NotFound));
}

#[test]
fn attribute_templates_follow_node_kind() {
    let fs = sample_fs();
    let root = fs.attr_template(1).unwrap();
    assert!(root.is_dir);
    assert_eq!(root.perm, 0o555);
    assert_eq!(root.nlink, 2);
    assert_eq!(root.item_index, None);
    let song = fs.node_by_path("album/song.mkv").unwrap();
    let file = fs.attr_template(song.ino).unwrap();
    assert!(!file.is_dir);
    assert_eq!(file.perm, 0o444);
    assert_eq!(file.nlink, 1);
    assert_eq!(file.item_index, Some(0));
    assert!(fs.attr_template(0).is_none());
}

#[test]
fn blocks_round_up_to_512_bytes() {
    assert_eq!(blocks_for_size(0), 0);
    assert_eq!(blocks_for_size(1), 1);
    assert_eq!(blocks_for_size(512), 1);
    assert_eq!(blocks_for_size(513), 2);
    assert_eq!(blocks_for_size(u64::MAX), u64::MAX / 512 + 1);
}

#[test]
fn node_info_by_inode() {
    let fs = sample_fs();
    let info = fs.node_info(4).unwrap();
    assert_eq!(info.name, "disc2");
    assert!(fs.node_info(6).is_none());
}

#[test]
fn root_is_the_node_of_the_empty_path() {
    let fs = sample_fs();
    let root = fs.node_by_path("").unwrap();
    assert_eq!((root.ino, root.parent, root.name.as_str(), root.is_dir), (1, 1, "", true));
    let empty = AtmosFs::new(Vec::new());
    assert_eq!(empty.nodes().len(), 1);
    assert!(empty.node_by_path("").unwrap().is_dir);
}

#[test]
fn directory_attributes_are_fixed() {
    let fs = sample_fs();
    let attr = fs.attr_for_node(2, 12345).unwrap();
    assert_eq!(
        attr,
        AttrView {
            ino: 2,
            is_dir: true,
            size: 0,
            blocks: 0,
            perm: 0o555,
            nlink: 2,
            mtime: None,
            blksize: 4096,
            rdev: 0,
            flags: 0,
        }
    );
    assert!(fs.attr_for_node(9, 0).is_none());
}

#[test]
fn file_attributes_take_size_and_item_time() {
    let mut item = media("/src/album/song.m4a", "album/song.mkv");
    item.mtime = FileTime { before_epoch: false, secs: 77, nanos: 5 };
    let fs = AtmosFs::new(vec![item]);
    let song = fs.node_by_path("album/song.mkv").unwrap();
    let attr = fs.attr_for_node(song.ino, 1025).unwrap();
    assert_eq!(
        attr,
        AttrView {
            ino: song.ino,
            is_dir: false,
            size: 1025,
            blocks: 3,
            perm: 0o444,
            nlink: 1,
            mtime: Some(FileTime { before_epoch: false, secs: 77, nanos: 5 }),
            blksize: 4096,
            rdev: 0,
            flags: 0,
        }
    );
}

#[test]
fn first_of_equal_virtual_paths_is_served_and_prefixes_are_directories() {
    let fs = AtmosFs::new(vec![
        media("/src/a.m4a", "x/y/song.mkv"),
        media("/src/b.m4a", "x/y/song.mkv"),
        media("/src/c.m4a", "x/z.mkv"),
    ]);
    let song = fs.node_by_path("x/y/song.mkv").unwrap();
    assert_eq!(fs.file_item_index(song.ino), Ok(0));
    let x = fs.node_by_path("x").unwrap();
    let y = fs.node_by_path("x/y").unwrap();
    assert!(x.is_dir && y.is_dir);
    assert_eq!((y.parent, y.name.as_str()), (x.ino, "y"));
    assert_eq!((song.parent, song.name.as_str()), (y.ino, "song.mkv"));
}
