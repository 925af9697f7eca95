use bowl::bowlfile::{BowlFile, MALFORMED_BUNDLE};
use bowl::config::{default_readme, Config, Options};
use bowl::escape::{escape_content, unescape_content};
use bowl::files::FileContent;
use bowl::select::CONFIG_FILE;
use bowl::symbols::{BOWL_CHAR, CONTENT_CHAR, CURRENT_VERSION, ESC_CHAR, FILE_CHAR, VERSION_CHAR};

fn file(path: &str, content: &[u8]) -> FileContent {
    FileContent { file_path: path.to_string(), content: content.to_vec() }
}

fn assert_same_files(a: &[FileContent], b: &[FileContent]) {
    assert_eq!(a.len(), b.len());
    for i in 0..a.len() {
        assert_eq!(a[i].file_path, b[i].file_path);
        assert_eq!(a[i].content, b[i].content);
    }
}

#[test]
fn round_trip_with_every_reserved_byte() {
    let all = vec![ESC_CHAR, BOWL_CHAR, FILE_CHAR, CONTENT_CHAR, VERSION_CHAR, b'x'];
    let files = vec![
        file("a.bin", &all),
        file("b.txt", &[FILE_CHAR, ESC_CHAR, ESC_CHAR, 1]),
        file("last", &[]),
    ];
    let bf = BowlFile::new(files.clone());
    let back = BowlFile::decode(bf.encode()).unwrap();
    assert_eq!(back.version, CURRENT_VERSION);
    assert_same_files(&files, &back.files);
}

#[test]
fn round_trip_last_file_ending_in_escape_byte() {
    let files = vec![file("x", b"one"), file("y", &[b'a', ESC_CHAR])];
    let bf = BowlFile::new(files.clone());
    let back = BowlFile::decode(bf.encode()).unwrap();
    assert_same_files(&files, &back.files);
}

#[test]
fn encode_writes_the_bundle_version() {
    let bf = BowlFile { version: "2.10.7".to_string(), files: vec![file("p", b"q")] };
    let bytes = bf.encode();
    assert_eq!(
        bytes,
        vec![BOWL_CHAR, VERSION_CHAR, b'2', b'.', b'1', b'0', b'.', b'7', FILE_CHAR, b'p', CONTENT_CHAR, b'q']
    );
    let back = BowlFile::decode(bytes).unwrap();
    assert_eq!(back.version, "2.10.7");
}

#[test]
fn escape_emits_pairs_only() {
    let escaped = escape_content(vec![b'a', ESC_CHAR]);
    assert_eq!(escaped, vec![b'a', ESC_CHAR, ESC_CHAR]);
    assert_eq!(unescape_content(escaped), vec![b'a', ESC_CHAR]);
}

#[test]
fn unescape_keeps_trailing_lone_escape() {
    assert_eq!(unescape_content(vec![b'a', ESC_CHAR]), vec![b'a', ESC_CHAR]);
    assert_eq!(unescape_content(vec![ESC_CHAR]), vec![ESC_CHAR]);
    assert_eq!(unescape_content(vec![ESC_CHAR, b'z', ESC_CHAR]), vec![b'z', ESC_CHAR]);
}

#[test]
fn truncated_header_is_malformed() {
    let bytes = BowlFile::new(vec![file("a", b"b")]).encode();
    for k in 0..=7 {
        let cut = bytes[..k].to_vec();
        assert_eq!(BowlFile::decode(cut).unwrap_err(), MALFORMED_BUNDLE);
    }
}

#[test]
fn truncated_path_is_malformed() {
    let bytes = BowlFile::new(vec![file("one", b"1"), file("two", b"2")]).encode();
    // header is 7 bytes; first record: FILE o n e CONTENT 1
    for k in 8..=11 {
        assert!(BowlFile::decode(bytes[..k].to_vec()).is_err());
    }
    // second record's path: FILE t w o
    for k in 15..=17 {
        assert!(BowlFile::decode(bytes[..k].to_vec()).is_err());
    }
}

#[test]
fn cut_after_content_finalizes_last_file() {
    let bytes = BowlFile::new(vec![file("one", b"11"), file("two", b"2")]).encode();
    let first = BowlFile::decode(bytes[..14].to_vec()).unwrap();
    assert_same_files(&first.files, &[file("one", b"11")]);
    let short = BowlFile::decode(bytes[..13].to_vec()).unwrap();
    assert_same_files(&short.files, &[file("one", b"1")]);
    let empty = BowlFile::decode(bytes[..12].to_vec()).unwrap();
    assert_same_files(&empty.files, &[file("one", b"")]);
}

#[test]
fn empty_bundle_encodes_to_header() {
    let bytes = BowlFile::new(vec![]).encode();
    assert_eq!(bytes, vec![BOWL_CHAR, VERSION_CHAR, b'0', b'.', b'0', b'.', b'1']);
    // the stream ends while the version is being read
    assert_eq!(BowlFile::decode(bytes).unwrap_err(), MALFORMED_BUNDLE);
}

#[test]
fn content_of_one_file_marker_byte() {
    let bf = BowlFile::new(vec![file("f", &[FILE_CHAR])]);
    let bytes = bf.encode();
    assert_eq!(
        bytes,
        vec![BOWL_CHAR, VERSION_CHAR, b'0', b'.', b'0', b'.', b'1', FILE_CHAR, b'f', CONTENT_CHAR, ESC_CHAR, FILE_CHAR]
    );
    let back = BowlFile::decode(bytes).unwrap();
    assert_same_files(&back.files, &[file("f", &[FILE_CHAR])]);
}

#[test]
fn three_files_keep_their_order() {
    let files = vec![file("a", b"1"), file("b", b"2"), file("c", b"3")];
    let back = BowlFile::decode(BowlFile::new(files.clone()).encode()).unwrap();
    let names: Vec<&str> = back.files.iter().map(|f| f.file_path.as_str()).collect();
    assert_eq!(names, vec!["a", "b", "c"]);
    assert_same_files(&files, &back.files);
}

#[test]
fn empty_content_before_another_file_runs_into_it() {
    let bytes = BowlFile::new(vec![file("a", b""), file("b", b"x")]).encode();
    let back = BowlFile::decode(bytes).unwrap();
    assert_eq!(back.files.len(), 1);
    assert_eq!(back.files[0].file_path, "a");
    assert_eq!(back.files[0].content, vec![FILE_CHAR, b'b', CONTENT_CHAR, b'x']);
}

#[test]
fn headerless_stream_is_accepted() {
    let raw = vec![b'z', FILE_CHAR, b'p', CONTENT_CHAR, b'c'];
    let back = BowlFile::decode(raw).unwrap();
    assert_eq!(back.version, "");
    assert_same_files(&back.files, &[file("p", b"c")]);
}

#[test]
fn path_bytes_become_chars_of_that_code_point() {
    let raw = vec![BOWL_CHAR, VERSION_CHAR, b'1', b'.', b'2', b'.', b'3', FILE_CHAR, 0xE9, CONTENT_CHAR, b'c'];
    let back = BowlFile::decode(raw).unwrap();
    assert_eq!(back.files[0].file_path, "\u{e9}");
}

#[test]
fn garbage_is_malformed() {
    assert_eq!(BowlFile::decode(vec![]).unwrap_err(), "Invalid bowl file provided");
    assert!(BowlFile::decode(vec![1, 2, 3]).is_err());
    assert!(BowlFile::decode(vec![ESC_CHAR, FILE_CHAR, b'a', CONTENT_CHAR]).is_err());
}

#[test]
fn version_with_one_dot_never_ends() {
    let raw = vec![BOWL_CHAR, VERSION_CHAR, b'1', b'.', b'2', FILE_CHAR, b'p', CONTENT_CHAR, b'c'];
    assert!(BowlFile::decode(raw).is_err());
}

#[test]
fn new_default_config() {
    let c = Config::new_default("demo".to_string());
    assert_eq!(c.template.name, "demo");
    assert_eq!(c.template.version, "0.0.1");
    assert!(c.template.source.is_none());
    assert!(c.template.description.is_none());
    assert!(c.options.ignore.is_none());
    assert_eq!(c.options.readme, "./bowl.md");
    assert_eq!(default_readme(), "./bowl.md");
}

#[test]
fn ignore_list_filters_paths() {
    let o = Options { ignore: Some(vec!["./target".to_string(), "./.git".to_string()]), readme: default_readme() };
    assert!(o.ignores(&"./.git".to_string()));
    assert!(!o.ignores(&"./src".to_string()));
    let kept = o.retain_unignored(vec![
        "./src".to_string(),
        "./target".to_string(),
        "./bowl.md".to_string(),
        "./.git".to_string(),
    ]);
    assert_eq!(kept, vec!["./src".to_string(), "./bowl.md".to_string()]);
    let none = Options { ignore: None, readme: default_readme() };
    assert_eq!(none.retain_unignored(vec!["./target".to_string()]), vec!["./target".to_string()]);
}

#[test]
fn readme_and_config_are_not_written() {
    let bf = BowlFile::new(vec![
        file(CONFIG_FILE, b"[template]"),
        file("./src/lib.rs", b""),
        file("./bowl.md", b"# hi"),
        file("./Cargo.toml", b""),
    ]);
    assert_eq!(bf.files_to_write(&"./bowl.md".to_string()), vec![1, 3]);
    assert_eq!(bf.position_of(&CONFIG_FILE.to_string()), Some(0));
    assert_eq!(bf.position_of(&"./Cargo.toml".to_string()), Some(3));
    assert_eq!(bf.position_of(&"./nope".to_string()), None);
}
