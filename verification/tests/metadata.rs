use bitraster::catalog::{DirectoryEntry, Mp4};
use bitraster::file::FileInfo;
use bitraster::parse::parse_frame_count;

#[test]
fn file_info_splits_name_and_extension() {
    let f = FileInfo::new("videos/archive/report.tar.gz", 1234, 0);
    assert_eq!(f.name(), "report.tar.gz");
    assert_eq!(f.datatype(), "gz");
    assert_eq!(f.path(), "videos/archive/report.tar.gz");
    assert_eq!(f.size(), 1234);
}

#[test]
fn file_info_without_separator_or_extension() {
    let f = FileInfo::new("payload", 7, 0);
    assert_eq!(f.name(), "payload");
    assert_eq!(f.datatype(), "");

    let hidden = FileInfo::new("/home/user/.config", 1, 0);
    assert_eq!(hidden.name(), ".config");
    assert_eq!(hidden.datatype(), "");

    let trailing_dot = FileInfo::new("odd.", 1, 0);
    assert_eq!(trailing_dot.name(), "odd.");
    assert_eq!(trailing_dot.datatype(), "");
}

#[test]
fn file_info_renders_modification_time() {
    let epoch = FileInfo::new("a.txt", 0, 0);
    assert_eq!(epoch.date(), "1970-01-01 00:00:00");

    let later = FileInfo::new("a.txt", 0, 86400 + 3661);
    assert_eq!(later.date(), "1970-01-02 01:01:01");

    let y2k = FileInfo::new("a.txt", 0, 946684800);
    assert_eq!(y2k.date(), "2000-01-01 00:00:00");
    assert_eq!(y2k.date().len(), 19);
}

#[test]
fn file_info_clones_every_field() {
    let f = FileInfo::new("dir/data.bin", 42, 946684800);
    let c = f.clone();
    assert_eq!(c.name(), f.name());
    assert_eq!(c.datatype(), f.datatype());
    assert_eq!(c.path(), f.path());
    assert_eq!(c.size(), f.size());
    assert_eq!(c.date(), f.date());
}

#[test]
fn mp4_record_keeps_its_fields() {
    let m = Mp4::new("out/video.mp4", "video.txt", "txt", 99);
    assert_eq!(m.path, "out/video.mp4");
    assert_eq!(m.title, "video.txt");
    assert_eq!(m.datatype, "txt");
    assert_eq!(m.size, 99);
}

#[test]
fn directory_entries_hold_videos_and_playlists() {
    let video = DirectoryEntry::Video(String::from("abc123"));
    match video {
        DirectoryEntry::Video(id) => assert_eq!(id, "abc123"),
        DirectoryEntry::Playlist { .. } => panic!("expected a video entry"),
    }

    let mut videos = std::collections::HashMap::new();
    videos.insert(String::from("part one"), String::from("v1"));
    videos.insert(String::from("part two"), String::from("v2"));
    let playlist = DirectoryEntry::Playlist { id: String::from("pl9"), videos };
    match playlist {
        DirectoryEntry::Playlist { id, videos } => {
            assert_eq!(id, "pl9");
            assert_eq!(videos.len(), 2);
            assert_eq!(videos.get("part one").map(String::as_str), Some("v1"));
        },
        DirectoryEntry::Video(_) => panic!("expected a playlist entry"),
    }
}

#[test]
fn frame_count_parses_trimmed_digits() {
    assert_eq!(parse_frame_count(b"123"), Some(123));
    assert_eq!(parse_frame_count(b"  480\n"), Some(480));
    assert_eq!(parse_frame_count(b"\t0\r\n"), Some(0));
    assert_eq!(parse_frame_count(b"0000000123"), Some(123));
}

#[test]
fn frame_count_rejects_everything_else() {
    assert_eq!(parse_frame_count(b""), None);
    assert_eq!(parse_frame_count(b"   \n"), None);
    assert_eq!(parse_frame_count(b"12a3"), None);
    assert_eq!(parse_frame_count(b"-5"), None);
    assert_eq!(parse_frame_count(b"1 2"), None);
    // Twenty digits never fit the nineteen-digit bound.
    assert_eq!(parse_frame_count(b"99999999999999999999"), None);
    assert_eq!(parse_frame_count(b"9999999999999999999"), Some(9_999_999_999_999_999_999));
}
