use bowl::bowlfile::BowlFile;
use bowl::escape::{escape_content, unescape_content};
use bowl::files::FileContent;
use bowl::symbols::{BOWL_CHAR, CONTENT_CHAR, CURRENT_VERSION, ESC_CHAR, FILE_CHAR, VERSION_CHAR};

#[test]
fn templates_test_encode_decode_content() {
    // ensures some level of bijectivity between these two functions
    let bf = BowlFile {
        version: CURRENT_VERSION.to_owned(),
        files: vec![
            FileContent {
                file_path: "README.md".into(),
                content: "# My epic readme\nGamer".into(),
            },
            FileContent {
                file_path: "src/main.rs".into(),
                content: "pub fn main() {println!(\"Hello, world\")}".into(),
            },
        ],
    };

    let expected: Vec<u8> = vec![
        BOWL_CHAR,
        VERSION_CHAR,
        48, 46, 48, 46, 49,
        FILE_CHAR,
        82, 69, 65, 68, 77, 69, 46, 109, 100,
        CONTENT_CHAR,
        35, 32, 77, 121, 32, 101, 112, 105, 99, 32, 114, 101, 97, 100, 109, 101, 10, 71, 97,
        109, 101, 114,
        FILE_CHAR,
        115, 114, 99, 47, 109, 97, 105, 110, 46, 114, 115,
        CONTENT_CHAR,
        112, 117, 98, 32, 102, 110, 32, 109, 97, 105, 110, 40, 41, 32, 123, 112, 114, 105, 110,
        116, 108, 110, 33, 40, 34, 72, 101, 108, 108, 111, 44, 32, 119, 111, 114, 108, 100, 34,
        41, 125,
    ];

    assert_eq!(bf.encode(), expected);
    let nbf = BowlFile::decode(expected).unwrap();

    assert_eq!(bf.files.len(), nbf.files.len());
    for i in 0..bf.files.len() {
        assert_eq!(bf.files[i].file_path, nbf.files[i].file_path);
        assert_eq!(bf.files[i].content, nbf.files[i].content);
    }
}

#[test]
fn templates_test_escape_unescape_content() {
    let test_cases: Vec<(Vec<u8>, Vec<u8>)> = vec![
        (vec![], vec![]),                       // Empty input
        (b"hello".to_vec(), b"hello".to_vec()), // No special characters
        (
            vec![b'h', b'e', b'l', b'l', b'o', b' ', ESC_CHAR, b' ', b'w', b'o', b'r', b'l', b'd'],
            vec![
                b'h', b'e', b'l', b'l', b'o', b' ', ESC_CHAR, ESC_CHAR, b' ', b'w', b'o', b'r',
                b'l', b'd',
            ],
        ), // Contains ESC_CHAR
        (
            vec![b'b', b'o', b'w', b'l', b' ', BOWL_CHAR, b' ', b'c', b'h', b'a', b'r'],
            vec![b'b', b'o', b'w', b'l', b' ', ESC_CHAR, BOWL_CHAR, b' ', b'c', b'h', b'a', b'r'],
        ), // Contains BOWL_CHAR
        (
            vec![b'f', b'i', b'l', b'e', b' ', FILE_CHAR, b' ', b'c', b'h', b'a', b'r'],
            vec![b'f', b'i', b'l', b'e', b' ', ESC_CHAR, FILE_CHAR, b' ', b'c', b'h', b'a', b'r'],
        ), // Contains FILE_CHAR
        (
            vec![b'c', b'o', b'n', b't', b'e', b'n', b't', b' ', CONTENT_CHAR, b' ', b'c', b'h', b'a', b'r'],
            vec![
                b'c', b'o', b'n', b't', b'e', b'n', b't', b' ', ESC_CHAR, CONTENT_CHAR, b' ', b'c',
                b'h', b'a', b'r',
            ],
        ), // Contains CONTENT_CHAR
        (
            vec![b'v', b'e', b'r', b's', b'i', b'o', b'n', b' ', VERSION_CHAR, b' ', b'c', b'h', b'a', b'r'],
            vec![
                b'v', b'e', b'r', b's', b'i', b'o', b'n', b' ', ESC_CHAR, VERSION_CHAR, b' ', b'c',
                b'h', b'a', b'r',
            ],
        ), // Contains VERSION_CHAR
    ];

    for (input, expected_escape) in test_cases {
        let escaped = escape_content(input.clone());
        assert_eq!(
            escaped, expected_escape,
            "Escaping failed for input: {:?}",
            input
        );

        let unescaped = unescape_content(escaped);
        assert_eq!(unescaped, input, "Unescaping failed for input: {:?}", input);
    }
}
