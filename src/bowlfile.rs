//! Bundles: encoding to the wire format and decoding from it.
//!
//! Wire format: `BOWL_CHAR VERSION_CHAR <version>` followed, for each file,
//! by `FILE_CHAR <path> CONTENT_CHAR <escaped content>`. Paths and the
//! version are written as their raw bytes; only content is escaped.
use vstd::prelude::*;
use vstd::utf8::encode_utf8;
use crate::escape::{escape_content, escape_spec, unescape_content, unescape_spec};
use crate::files::{FileContent, FileRecord};
use crate::symbols::{
    BOWL_CHAR, CONTENT_CHAR, CURRENT_VERSION, ESC_CHAR, FILE_CHAR, VERSION_CHAR,
    VERSION_SEPARATOR,
};

verus! {

/// A packaged template: a version string and its files, in order.
#[derive(Debug, Clone)]
pub struct BowlFile {
    pub version: String,
    pub files: Vec<FileContent>,
}

/// What a [`BowlFile`] holds, as mathematical values.
pub struct BundleView {
    pub version: Seq<char>,
    pub files: Seq<FileRecord>,
}

/// The records of a list of files, in order.
pub open spec fn records_of(files: Seq<FileContent>) -> Seq<FileRecord> {
    files.map_values(|f: FileContent| f@)
}

impl View for BowlFile {
    type V = BundleView;

    open spec fn view(&self) -> BundleView {
        BundleView { version: self.version@, files: records_of(self.files@) }
    }
}

// ---------------------------------------------------------------------------
// Encoding
// ---------------------------------------------------------------------------

/// The bytes that open a bundle of the given version.
pub open spec fn header_bytes(version: Seq<char>) -> Seq<u8> {
    seq![BOWL_CHAR, VERSION_CHAR] + encode_utf8(version)
}

/// The bytes of one file record.
pub open spec fn record_bytes(f: FileRecord) -> Seq<u8> {
    seq![FILE_CHAR] + encode_utf8(f.path) + seq![CONTENT_CHAR] + escape_spec(f.content)
}

/// The bytes of a list of file records, one after the other.
pub open spec fn records_bytes(files: Seq<FileRecord>) -> Seq<u8>
    decreases files.len(),
{
    if files.len() == 0 {
        Seq::empty()
    } else {
        records_bytes(files.drop_last()) + record_bytes(files.last())
    }
}

/// The wire form of a bundle.
pub open spec fn encode_spec(b: BundleView) -> Seq<u8> {
    header_bytes(b.version) + records_bytes(b.files)
}

// ---------------------------------------------------------------------------
// Decoding: the state machine
// ---------------------------------------------------------------------------

/// Where the decoder stands in the stream.
pub enum Phase {
    /// Before the header.
    Start,
    /// Inside the version, with the number of dots read so far.
    Version(nat),
    /// Inside a file's path.
    Path,
    /// Inside a file's content.
    Content,
}

/// The decoder's state: its phase and the buffers it has filled.
pub struct Decoder {
    pub phase: Phase,
    pub version: Seq<char>,
    pub files: Seq<FileRecord>,
    pub path: Seq<char>,
    pub content: Seq<u8>,
}

/// What one step of the decoder does.
pub enum Step {
    /// No transition applies: the bundle is malformed.
    Fail,
    /// The stream ended inside a file's content: decoding succeeds.
    Finish,
    /// Consume this many bytes and go on in the given state.
    Advance(Decoder, nat),
}

/// A byte read into the version or a path stands for the char of that code point.
pub open spec fn byte_char(b: u8) -> char {
    b as char
}

/// The decoder before the first byte.
pub open spec fn decoder_start() -> Decoder {
    Decoder {
        phase: Phase::Start,
        version: Seq::empty(),
        files: Seq::empty(),
        path: Seq::empty(),
        content: Seq::empty(),
    }
}

/// Whether `s` begins with a byte other than `ESC_CHAR` followed by `marker`.
pub open spec fn closes_with(s: Seq<u8>, marker: u8) -> bool {
    s.len() >= 2 && s[0] != ESC_CHAR && s[1] == marker
}

/// The file record that the buffers of `d` make.
pub open spec fn finished_record(d: Decoder) -> FileRecord {
    FileRecord { path: d.path, content: unescape_spec(d.content) }
}

/// The single dispatch of the decoder: from its state and the bytes that are
/// left, what it does next.
pub open spec fn step(d: Decoder, s: Seq<u8>) -> Step {
    match d.phase {
        Phase::Start => {
            if s.len() >= 2 && s[0] == BOWL_CHAR && s[1] == VERSION_CHAR {
                Step::Advance(Decoder { phase: Phase::Version(0), ..d }, 2)
            } else if closes_with(s, FILE_CHAR) {
                Step::Advance(Decoder { phase: Phase::Path, ..d }, 2)
            } else {
                Step::Fail
            }
        },
        Phase::Version(n) => {
            if s.len() == 0 {
                Step::Fail
            } else if s[0] == VERSION_SEPARATOR {
                Step::Advance(
                    Decoder { phase: Phase::Version(n + 1), version: d.version.push(byte_char(s[0])), ..d },
                    1,
                )
            } else if n == 2 && closes_with(s, FILE_CHAR) {
                Step::Advance(
                    Decoder { phase: Phase::Path, version: d.version.push(byte_char(s[0])), ..d },
                    2,
                )
            } else {
                Step::Advance(Decoder { version: d.version.push(byte_char(s[0])), ..d }, 1)
            }
        },
        Phase::Path => {
            if s.len() == 0 {
                Step::Fail
            } else if closes_with(s, CONTENT_CHAR) {
                Step::Advance(
                    Decoder {
                        phase: Phase::Content,
                        path: d.path.push(byte_char(s[0])),
                        content: Seq::empty(),
                        ..d
                    },
                    2,
                )
            } else {
                Step::Advance(Decoder { path: d.path.push(byte_char(s[0])), ..d }, 1)
            }
        },
        Phase::Content => {
            if closes_with(s, FILE_CHAR) {
                let closed = Decoder { content: d.content.push(s[0]), ..d };
                Step::Advance(
                    Decoder {
                        phase: Phase::Path,
                        files: d.files.push(finished_record(closed)),
                        path: Seq::empty(),
                        content: Seq::empty(),
                        ..d
                    },
                    2,
                )
            } else if s.len() == 0 {
                Step::Finish
            } else {
                Step::Advance(Decoder { content: d.content.push(s[0]), ..d }, 1)
            }
        },
    }
}

/// The bundle that the decoder in state `d` ends with on the bytes `s`, or
/// `None` where it meets a malformed stream.
pub open spec fn run(d: Decoder, s: Seq<u8>) -> Option<BundleView>
    decreases s.len(),
{
    match step(d, s) {
        Step::Fail => None,
        Step::Finish => Some(
            BundleView { version: d.version, files: d.files.push(finished_record(d)) },
        ),
        Step::Advance(next, k) => if 0 < k <= s.len() {
            run(next, s.skip(k as int))
        } else {
            None
        },
    }
}

/// The bundle that a byte stream decodes to, or `None` if it is malformed.
pub open spec fn decode_spec(raw: Seq<u8>) -> Option<BundleView> {
    run(decoder_start(), raw)
}

/// The message of the error that [`BowlFile::decode`] returns on a malformed stream.
pub const MALFORMED_BUNDLE: &'static str = "Invalid bowl file provided";

/// The executable form of [`Phase`].
#[derive(Clone, Copy)]
enum DecodeState {
    Reading,
    ReadingVersionNum(usize),
    ReadingFileName,
    ReadingFileContent,
}

impl DecodeState {
    spec fn phase(self) -> Phase {
        match self {
            DecodeState::Reading => Phase::Start,
            DecodeState::ReadingVersionNum(k) => Phase::Version(k as nat),
            DecodeState::ReadingFileName => Phase::Path,
            DecodeState::ReadingFileContent => Phase::Content,
        }
    }

    /// The dot count never exceeds the number of bytes read.
    spec fn count_within(self, pos: usize) -> bool {
        match self {
            DecodeState::ReadingVersionNum(k) => k <= pos,
            _ => true,
        }
    }
}

/// Relies on `String::push`: appends one char at the end.
#[verifier::external_body]
fn push_char(s: &mut String, c: char)
    ensures
        final(s)@ == old(s)@.push(c),
{
    s.push(c)
}

/// Append the bytes of `src` to `dst`.
fn push_all(dst: &mut Vec<u8>, src: &[u8])
    ensures
        final(dst)@ == old(dst)@ + src@,
{
    let mut i: usize = 0;
    while i < src.len()
        invariant
            i <= src@.len(),
            dst@ == old(dst)@ + src@.take(i as int),
        decreases src@.len() - i,
    {
        dst.push(src[i]);
        i = i + 1;
        assert(dst@ =~= old(dst)@ + src@.take(i as int));
    }
    assert(src@.take(i as int) =~= src@);
}

impl BowlFile {
    /// A bundle of the given files, at the current format version.
    pub fn new(files: Vec<FileContent>) -> (r: Self)
        ensures
            r.version@ == CURRENT_VERSION@,
            r.files@ == files@,
    {
        BowlFile { version: CURRENT_VERSION.to_owned(), files }
    }

    /// Decode a bundle from its wire form, or fail with [`MALFORMED_BUNDLE`]
    /// where no transition of the decoder applies. Each byte of the version
    /// and of a path becomes the char of that code point; content is
    /// unescaped.
    pub fn decode(raw: Vec<u8>) -> (r: Result<Self, &'static str>)
        ensures
            match decode_spec(raw@) {
                Some(b) => r matches Ok(bf) && bf@ == b,
                None => r == Err::<BowlFile, &'static str>(MALFORMED_BUNDLE),
            },
    {
        let mut version = String::new();
        let mut files: Vec<FileContent> = Vec::new();
        let mut state = DecodeState::Reading;
        let mut file_path = String::new();
        let mut file_content: Vec<u8> = Vec::new();
        let n = raw.len();
        let mut pos: usize = 0;
        assert(raw@.skip(0) =~= raw@);
        assert(records_of(files@) =~= Seq::<FileRecord>::empty());
        loop
            invariant
                pos <= n,
                n == raw@.len(),
                state.count_within(pos),
                run(
                    Decoder {
                        phase: state.phase(),
                        version: version@,
                        files: records_of(files@),
                        path: file_path@,
                        content: file_content@,
                    },
                    raw@.skip(pos as int),
                ) == decode_spec(raw@),
            decreases n - pos,
        {
            let ghost d = Decoder {
                phase: state.phase(),
                version: version@,
                files: records_of(files@),
                path: file_path@,
                content: file_content@,
            };
            let ghost s = raw@.skip(pos as int);
            let ghost old_pos = pos;
            let has_two = n - pos >= 2;
            match state {
                DecodeState::Reading => {
                    if has_two && raw[pos] == BOWL_CHAR && raw[pos + 1] == VERSION_CHAR {
                        state = DecodeState::ReadingVersionNum(0);
                        pos = pos + 2;
                    } else if has_two && raw[pos] != ESC_CHAR && raw[pos + 1] == FILE_CHAR {
                        state = DecodeState::ReadingFileName;
                        pos = pos + 2;
                    } else {
                        return Err(MALFORMED_BUNDLE);
                    }
                },
                DecodeState::ReadingVersionNum(k) => {
                    if pos == n {
                        return Err(MALFORMED_BUNDLE);
                    }
                    let x = raw[pos];
                    if x == VERSION_SEPARATOR {
                        push_char(&mut version, x as char);
                        state = DecodeState::ReadingVersionNum(k + 1);
                        pos = pos + 1;
                    } else if k == 2 && has_two && x != ESC_CHAR && raw[pos + 1] == FILE_CHAR {
                        push_char(&mut version, x as char);
                        state = DecodeState::ReadingFileName;
                        pos = pos + 2;
                    } else {
                        push_char(&mut version, x as char);
                        pos = pos + 1;
                    }
                },
                DecodeState::ReadingFileName => {
                    if pos == n {
                        return Err(MALFORMED_BUNDLE);
                    }
                    let x = raw[pos];
                    push_char(&mut file_path, x as char);
                    if has_two && x != ESC_CHAR && raw[pos + 1] == CONTENT_CHAR {
                        file_content = Vec::new();
                        state = DecodeState::ReadingFileContent;
                        pos = pos + 2;
                    } else {
                        pos = pos + 1;
                    }
                },
                DecodeState::ReadingFileContent => {
                    if has_two && raw[pos] != ESC_CHAR && raw[pos + 1] == FILE_CHAR {
                        file_content.push(raw[pos]);
                        let ghost closed = Decoder { content: file_content@, ..d };
                        let record = FileContent {
                            file_path,
                            content: unescape_content(file_content),
                        };
                        assert(record@ == finished_record(closed));
                        files.push(record);
                        assert(records_of(files@) =~= d.files.push(finished_record(closed)));
                        file_path = String::new();
                        file_content = Vec::new();
                        state = DecodeState::ReadingFileName;
                        pos = pos + 2;
                    } else if pos == n {
                        let record = FileContent {
                            file_path,
                            content: unescape_content(file_content),
                        };
                        files.push(record);
                        assert(records_of(files@) =~= d.files.push(finished_record(d)));
                        return Ok(BowlFile { version, files });
                    } else {
                        file_content.push(raw[pos]);
                        pos = pos + 1;
                    }
                },
            }
            assert(s.skip(pos - old_pos) =~= raw@.skip(pos as int));
        }
    }

    /// Encode the bundle in the wire format.
    pub fn encode(&self) -> (r: Vec<u8>)
        ensures
            r@ == encode_spec(self@),
    {
        let mut result: Vec<u8> = Vec::new();
        result.push(BOWL_CHAR);
        result.push(VERSION_CHAR);
        push_all(&mut result, self.version.as_str().as_bytes());
        assert(result@ =~= header_bytes(self.version@) + records_bytes(
            records_of(self.files@.take(0)),
        ));
        let mut i: usize = 0;
        while i < self.files.len()
            invariant
                i <= self.files@.len(),
                result@ == header_bytes(self.version@) + records_bytes(
                    records_of(self.files@.take(i as int)),
                ),
            decreases self.files@.len() - i,
        {
            let f = &self.files[i];
            let ghost before = result@;
            result.push(FILE_CHAR);
            push_all(&mut result, f.file_path.as_str().as_bytes());
            result.push(CONTENT_CHAR);
            let mut escaped = escape_content(f.content.clone());
            result.append(&mut escaped);
            proof {
                let prev = records_of(self.files@.take(i as int));
                let next = records_of(self.files@.take(i + 1));
                assert(next.drop_last() =~= prev);
                assert(next.last() == f@);
                assert(result@ =~= before + record_bytes(f@));
            }
            i = i + 1;
        }
        assert(self.files@.take(i as int) =~= self.files@);
        result
    }
}

} // verus!
