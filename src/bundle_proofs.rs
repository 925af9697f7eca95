//! What the codec guarantees across calls: decoding what was encoded gives
//! the bundle back, and a stream cut inside its header or a path is refused.
use vstd::prelude::*;
use vstd::utf8::{encode_utf8, is_ascii_chars, is_ascii_chars_encode_utf8};
use crate::escape::{escape_byte, escape_spec, lemma_unescape_escape, unescape_spec};
use crate::files::FileRecord;
use crate::bowlfile::{
    byte_char, decoder_start, decode_spec, encode_spec, header_bytes, record_bytes,
    records_bytes, run, step, BundleView, Step, Decoder, Phase,
};
use crate::symbols::{
    is_sentinel, BOWL_CHAR, CURRENT_VERSION, CONTENT_CHAR, ESC_CHAR, FILE_CHAR, VERSION_CHAR, VERSION_SEPARATOR,
};

verus! {

/// The chars that the decoder makes of raw bytes, one char per byte.
pub open spec fn byte_chars(bs: Seq<u8>) -> Seq<char> {
    bs.map_values(|b: u8| byte_char(b))
}

/// How many dots a version string holds.
pub open spec fn dot_count(v: Seq<char>) -> nat
    decreases v.len(),
{
    if v.len() == 0 {
        0
    } else {
        (if v[0] == '.' { 1nat } else { 0nat }) + dot_count(v.skip(1))
    }
}

/// A version that the decoder reads back as written: ASCII, exactly two
/// dots, and not ending in a dot.
pub open spec fn version_round_trips(v: Seq<char>) -> bool {
    is_ascii_chars(v) && v.len() > 0 && dot_count(v) == 2 && v.last() != '.'
}

/// A path that the decoder reads back as written: ASCII and not empty.
pub open spec fn path_round_trips(p: Seq<char>) -> bool {
    is_ascii_chars(p) && p.len() > 0
}

/// Content that ends where it should when another file follows it: not
/// empty, and not ending in the escape byte.
pub open spec fn content_closes(c: Seq<u8>) -> bool {
    c.len() > 0 && c.last() != ESC_CHAR
}

/// A bundle that encoding and decoding carry through unchanged: at least
/// one file, a version and paths as above, and every file but the last with
/// content as above.
pub open spec fn bundle_round_trips(b: BundleView) -> bool {
    &&& version_round_trips(b.version)
    &&& b.files.len() > 0
    &&& forall|i: int| 0 <= i < b.files.len() ==> path_round_trips(#[trigger] b.files[i].path)
    &&& forall|i: int|
        0 <= i < b.files.len() - 1 ==> content_closes(#[trigger] b.files[i].content)
}

/// Every `marker` byte in `e` past the first position follows an escape byte.
pub open spec fn marker_escaped(e: Seq<u8>, marker: u8) -> bool {
    forall|j: int| 0 < j < e.len() && #[trigger] e[j] == marker ==> e[j - 1] == ESC_CHAR
}

/// No byte of `s` equals `marker`.
pub open spec fn lacks(s: Seq<u8>, marker: u8) -> bool {
    forall|j: int| 0 <= j < s.len() ==> #[trigger] s[j] != marker
}

/// The bytes of an ASCII string, each read back as a char, give the string.
proof fn lemma_ascii_bytes(v: Seq<char>)
    requires
        is_ascii_chars(v),
    ensures
        byte_chars(encode_utf8(v)) == v,
        forall|j: int| 0 <= j < encode_utf8(v).len() ==> #[trigger] encode_utf8(v)[j] < 128,
        encode_utf8(v).len() == v.len(),
{
    is_ascii_chars_encode_utf8(v);
    let bs = encode_utf8(v);
    assert forall|j: int| 0 <= j < v.len() implies byte_char(bs[j]) == v[j] && bs[j] < 128 by {
        assert('\0' <= v[j] <= '\u{7f}');
    }
    assert(byte_chars(bs) =~= v);
}

/// Escaped content keeps its last byte, and every reserved byte in it past
/// the first position follows an escape byte.
proof fn lemma_escape_shape(c: Seq<u8>, marker: u8)
    requires
        is_sentinel(marker),
        marker != ESC_CHAR,
    ensures
        marker_escaped(escape_spec(c), marker),
        c.len() > 0 ==> escape_spec(c).len() > 0 && escape_spec(c).last() == c.last(),
    decreases c.len(),
{
    if c.len() > 0 {
        let e = escape_spec(c);
        let front = escape_spec(c.drop_last());
        lemma_escape_shape(c.drop_last(), marker);
        assert(e == front + escape_byte(c.last()));
        assert forall|j: int| 0 < j < e.len() && #[trigger] e[j] == marker implies e[j
            - 1] == ESC_CHAR by {
            let eb = escape_byte(c.last());
            if j < front.len() {
                assert(e[j] == front[j] && e[j - 1] == front[j - 1]);
            } else if j == front.len() {
                assert(e[j] == eb[0]);
            } else {
                assert(e[j] == eb[1] && e[j - 1] == eb[0]);
            }
        }
    }
}

/// How many dot bytes a byte sequence holds.
pub open spec fn dot_bytes(v: Seq<u8>) -> nat
    decreases v.len(),
{
    if v.len() == 0 {
        0
    } else {
        (if v[0] == VERSION_SEPARATOR { 1nat } else { 0nat }) + dot_bytes(v.skip(1))
    }
}

/// Reading the version: with `n` dots already read, ASCII bytes holding the
/// remaining dots and not ending in a dot, then `FILE_CHAR`, bring the
/// decoder to the first path with the bytes added to the version.
proof fn lemma_read_version(d: Decoder, n: nat, v: Seq<u8>, rest: Seq<u8>)
    requires
        d.phase == Phase::Version(n),
        v.len() > 0,
        forall|j: int| 0 <= j < v.len() ==> #[trigger] v[j] < 128,
        n + dot_bytes(v) == 2,
        v.last() != VERSION_SEPARATOR,
    ensures
        run(d, v + seq![FILE_CHAR] + rest) == run(
            Decoder { phase: Phase::Path, version: d.version + byte_chars(v), ..d },
            rest,
        ),
    decreases v.len(),
{
    let s = v + seq![FILE_CHAR] + rest;
    let x = v[0];
    assert(s[0] == x);
    let version2 = d.version.push(byte_char(x));
    if v.len() == 1 {
        assert(s[1] == FILE_CHAR);
        assert(x != VERSION_SEPARATOR);
        assert(v.skip(1) =~= Seq::<u8>::empty());
        assert(s.skip(2) =~= rest);
        assert(byte_chars(v) =~= seq![byte_char(x)]);
        assert(version2 =~= d.version + byte_chars(v));
        assert(dot_bytes(v.skip(1)) == 0);
        assert(n == 2);
        assert(x < 128);
        let next = Decoder { phase: Phase::Path, version: version2, ..d };
        assert(step(d, s) == Step::Advance(next, 2));
        assert(run(d, s) == run(next, s.skip(2)));
    } else {
        assert(s[1] == v[1]);
        assert(s.skip(1) =~= v.skip(1) + seq![FILE_CHAR] + rest);
        assert(v.skip(1).last() == v.last());
        assert(byte_chars(v) =~= seq![byte_char(x)] + byte_chars(v.skip(1)));
        assert(version2 + byte_chars(v.skip(1)) =~= d.version + byte_chars(v));
        if x == VERSION_SEPARATOR {
            lemma_read_version(
                Decoder { phase: Phase::Version(n + 1), version: version2, ..d },
                n + 1,
                v.skip(1),
                rest,
            );
        } else {
            lemma_read_version(Decoder { version: version2, ..d }, n, v.skip(1), rest);
        }
    }
}

/// Reading a path: ASCII bytes then `CONTENT_CHAR` bring the decoder to the
/// file's content with the bytes added to the path.
proof fn lemma_read_path(d: Decoder, p: Seq<u8>, rest: Seq<u8>)
    requires
        d.phase == Phase::Path,
        p.len() > 0,
        forall|j: int| 0 <= j < p.len() ==> #[trigger] p[j] < 128,
    ensures
        run(d, p + seq![CONTENT_CHAR] + rest) == run(
            Decoder {
                phase: Phase::Content,
                path: d.path + byte_chars(p),
                content: Seq::empty(),
                ..d
            },
            rest,
        ),
    decreases p.len(),
{
    let s = p + seq![CONTENT_CHAR] + rest;
    let x = p[0];
    assert(s[0] == x);
    let path2 = d.path.push(byte_char(x));
    if p.len() == 1 {
        assert(s[1] == CONTENT_CHAR);
        assert(s.skip(2) =~= rest);
        assert(byte_chars(p) =~= seq![byte_char(x)]);
        assert(path2 =~= d.path + byte_chars(p));
    } else {
        assert(s[1] == p[1]);
        assert(s.skip(1) =~= p.skip(1) + seq![CONTENT_CHAR] + rest);
        assert(byte_chars(p) =~= seq![byte_char(x)] + byte_chars(p.skip(1)));
        assert(path2 + byte_chars(p.skip(1)) =~= d.path + byte_chars(p));
        lemma_read_path(Decoder { path: path2, ..d }, p.skip(1), rest);
    }
}

/// Reading content that another file follows: the content's bytes and
/// `FILE_CHAR` close the file and bring the decoder to the next path.
proof fn lemma_read_content_closed(d: Decoder, e: Seq<u8>, rest: Seq<u8>)
    requires
        d.phase == Phase::Content,
        e.len() > 0,
        e.last() != ESC_CHAR,
        marker_escaped(e, FILE_CHAR),
    ensures
        run(d, e + seq![FILE_CHAR] + rest) == run(
            Decoder {
                phase: Phase::Path,
                files: d.files.push(
                    FileRecord { path: d.path, content: unescape_spec(d.content + e) },
                ),
                path: Seq::empty(),
                content: Seq::empty(),
                ..d
            },
            rest,
        ),
    decreases e.len(),
{
    let s = e + seq![FILE_CHAR] + rest;
    let x = e[0];
    assert(s[0] == x);
    let content2 = d.content.push(x);
    if e.len() == 1 {
        assert(s[1] == FILE_CHAR);
        assert(s.skip(2) =~= rest);
        assert(content2 =~= d.content + e);
    } else {
        assert(s[1] == e[1]);
        assert(s.skip(1) =~= e.skip(1) + seq![FILE_CHAR] + rest);
        assert(e.skip(1).last() == e.last());
        assert(content2 + e.skip(1) =~= d.content + e);
        assert forall|j: int|
            0 < j < e.skip(1).len() && #[trigger] e.skip(1)[j] == FILE_CHAR implies e.skip(1)[j
            - 1] == ESC_CHAR by {
            assert(e.skip(1)[j] == e[j + 1]);
        }
        lemma_read_content_closed(Decoder { content: content2, ..d }, e.skip(1), rest);
    }
}

/// Reading content up to the end of the stream: decoding succeeds and the
/// last file holds the unescaped content.
proof fn lemma_read_content_end(d: Decoder, e: Seq<u8>)
    requires
        d.phase == Phase::Content,
        marker_escaped(e, FILE_CHAR),
    ensures
        run(d, e) == Some(
            BundleView {
                version: d.version,
                files: d.files.push(
                    FileRecord { path: d.path, content: unescape_spec(d.content + e) },
                ),
            },
        ),
    decreases e.len(),
{
    if e.len() == 0 {
        assert(d.content + e =~= d.content);
    } else {
        let content2 = d.content.push(e[0]);
        if e.len() >= 2 {
            assert(e[1] == FILE_CHAR ==> e[0] == ESC_CHAR);
        }
        assert(content2 + e.skip(1) =~= d.content + e);
        assert forall|j: int|
            0 < j < e.skip(1).len() && #[trigger] e.skip(1)[j] == FILE_CHAR implies e.skip(1)[j
            - 1] == ESC_CHAR by {
            assert(e.skip(1)[j] == e[j + 1]);
        }
        lemma_read_content_end(Decoder { content: content2, ..d }, e.skip(1));
    }
}

/// A stream that ends inside the version, before any `FILE_CHAR`, is malformed.
proof fn lemma_version_unterminated(d: Decoder, s: Seq<u8>)
    requires
        d.phase is Version,
        lacks(s, FILE_CHAR),
    ensures
        run(d, s) == None::<BundleView>,
    decreases s.len(),
{
    if s.len() > 0 {
        let n = d.phase->Version_0;
        let version2 = d.version.push(byte_char(s[0]));
        assert(lacks(s.skip(1), FILE_CHAR)) by {
            assert forall|j: int| 0 <= j < s.skip(1).len() implies #[trigger] s.skip(1)[j]
                != FILE_CHAR by {
                assert(s.skip(1)[j] == s[j + 1]);
            }
        }
        if s.len() >= 2 {
            assert(s[1] != FILE_CHAR);
        }
        if s[0] == VERSION_SEPARATOR {
            lemma_version_unterminated(
                Decoder { phase: Phase::Version(n + 1), version: version2, ..d },
                s.skip(1),
            );
        } else {
            lemma_version_unterminated(Decoder { version: version2, ..d }, s.skip(1));
        }
    }
}

/// A stream that ends inside a path, before any `CONTENT_CHAR`, is malformed.
proof fn lemma_path_unterminated(d: Decoder, s: Seq<u8>)
    requires
        d.phase == Phase::Path,
        lacks(s, CONTENT_CHAR),
    ensures
        run(d, s) == None::<BundleView>,
    decreases s.len(),
{
    if s.len() > 0 {
        assert(lacks(s.skip(1), CONTENT_CHAR)) by {
            assert forall|j: int| 0 <= j < s.skip(1).len() implies #[trigger] s.skip(1)[j]
                != CONTENT_CHAR by {
                assert(s.skip(1)[j] == s[j + 1]);
            }
        }
        if s.len() >= 2 {
            assert(s[1] != CONTENT_CHAR);
        }
        lemma_path_unterminated(Decoder { path: d.path.push(byte_char(s[0])), ..d }, s.skip(1));
    }
}

/// The bytes of an ASCII version string, as the decoder checks them.
proof fn lemma_version_bytes(v: Seq<char>)
    requires
        version_round_trips(v),
    ensures
        encode_utf8(v).len() > 0,
        dot_bytes(encode_utf8(v)) == 2,
        encode_utf8(v).last() != VERSION_SEPARATOR,
        forall|j: int| 0 <= j < encode_utf8(v).len() ==> #[trigger] encode_utf8(v)[j] < 128,
        byte_chars(encode_utf8(v)) == v,
{
    lemma_ascii_bytes(v);
    is_ascii_chars_encode_utf8(v);
    lemma_dots_match(v, encode_utf8(v));
    assert('\0' <= v[v.len() - 1] <= '\u{7f}');
}

/// Counting dots among ASCII chars and among their bytes agree.
proof fn lemma_dots_match(v: Seq<char>, bs: Seq<u8>)
    requires
        bs.len() == v.len(),
        forall|j: int| 0 <= j < v.len() ==> '\0' <= #[trigger] v[j] <= '\u{7f}',
        forall|j: int| 0 <= j < v.len() ==> #[trigger] bs[j] == v[j] as u8,
    ensures
        dot_bytes(bs) == dot_count(v),
    decreases v.len(),
{
    if v.len() > 0 {
        assert('\0' <= v[0] <= '\u{7f}');
        assert(bs[0] == v[0] as u8);
        assert forall|j: int| 0 <= j < v.skip(1).len() implies #[trigger] bs.skip(1)[j]
            == v.skip(1)[j] as u8 && '\0' <= v.skip(1)[j] <= '\u{7f}' by {
            assert(bs.skip(1)[j] == bs[j + 1] && v.skip(1)[j] == v[j + 1]);
        }
        lemma_dots_match(v.skip(1), bs.skip(1));
    }
}

/// The bytes of a list of records split where the list is split.
pub proof fn lemma_records_bytes_split(files: Seq<FileRecord>, i: int)
    requires
        0 <= i <= files.len(),
    ensures
        records_bytes(files) == records_bytes(files.take(i)) + records_bytes(files.skip(i)),
    decreases files.len(),
{
    if i == files.len() {
        assert(files.take(i) =~= files);
        assert(files.skip(i) =~= Seq::<FileRecord>::empty());
        assert(records_bytes(files) + Seq::<u8>::empty() =~= records_bytes(files));
    } else {
        lemma_records_bytes_split(files.drop_last(), i);
        assert(files.drop_last().take(i) =~= files.take(i));
        assert(files.skip(i).drop_last() =~= files.drop_last().skip(i));
        assert(files.skip(i).last() == files.last());
        assert(records_bytes(files) =~= records_bytes(files.take(i)) + records_bytes(
            files.skip(i),
        ));
    }
}

/// Reading a header and whole records, each followed by `FILE_CHAR`, leaves
/// the decoder at the start of the next path with the version and records read.
proof fn lemma_read_records(v: Seq<char>, files: Seq<FileRecord>, rest: Seq<u8>)
    requires
        version_round_trips(v),
        forall|i: int| 0 <= i < files.len() ==> path_round_trips(#[trigger] files[i].path),
        forall|i: int| 0 <= i < files.len() ==> content_closes(#[trigger] files[i].content),
    ensures
        run(decoder_start(), header_bytes(v) + records_bytes(files) + seq![FILE_CHAR] + rest)
            == run(
            Decoder {
                phase: Phase::Path,
                version: v,
                files: files,
                path: Seq::empty(),
                content: Seq::empty(),
            },
            rest,
        ),
    decreases files.len(),
{
    let s = header_bytes(v) + records_bytes(files) + seq![FILE_CHAR] + rest;
    if files.len() == 0 {
        let vb = encode_utf8(v);
        lemma_version_bytes(v);
        assert(s[0] == BOWL_CHAR && s[1] == VERSION_CHAR);
        assert(s.skip(2) =~= vb + seq![FILE_CHAR] + rest);
        let d1 = Decoder { phase: Phase::Version(0), ..decoder_start() };
        lemma_read_version(d1, 0, vb, rest);
        assert(d1.version + byte_chars(vb) =~= v);
        assert(step(decoder_start(), s) == Step::Advance(d1, 2));
        assert(files =~= Seq::<FileRecord>::empty());
    } else {
        let front = files.drop_last();
        let f = files.last();
        let pb = encode_utf8(f.path);
        let e = escape_spec(f.content);
        let rest1 = pb + seq![CONTENT_CHAR] + e + seq![FILE_CHAR] + rest;
        assert(s =~= header_bytes(v) + records_bytes(front) + seq![FILE_CHAR] + rest1);
        assert(forall|i: int| 0 <= i < front.len() ==> front[i] == files[i]);
        lemma_read_records(v, front, rest1);
        let d1 = Decoder {
            phase: Phase::Path,
            version: v,
            files: front,
            path: Seq::empty(),
            content: Seq::empty(),
        };
        assert(path_round_trips(files[files.len() - 1].path));
        assert(content_closes(files[files.len() - 1].content));
        lemma_ascii_bytes(f.path);
        assert(pb.len() > 0);
        assert(rest1 =~= pb + seq![CONTENT_CHAR] + (e + seq![FILE_CHAR] + rest));
        lemma_read_path(d1, pb, e + seq![FILE_CHAR] + rest);
        let d2 = Decoder {
            phase: Phase::Content,
            path: d1.path + byte_chars(pb),
            content: Seq::empty(),
            ..d1
        };
        assert(d1.path + byte_chars(pb) =~= f.path);
        lemma_escape_shape(f.content, FILE_CHAR);
        lemma_read_content_closed(d2, e, rest);
        lemma_unescape_escape(f.content);
        assert(d2.content + e =~= e);
        assert(FileRecord { path: f.path, content: f.content } == f);
        assert(front.push(f) =~= files);
    }
}

/// Decoding what encoding wrote gives the bundle back: the version, and the
/// files with their paths and contents, in order. This holds of every bundle
/// with at least one file whose version is ASCII with exactly two dots and
/// does not end in a dot, whose paths are ASCII and not empty, and in which
/// no file but the last has empty content or content that ends in the
/// escape byte.
pub proof fn lemma_round_trip(b: BundleView)
    requires
        bundle_round_trips(b),
    ensures
        decode_spec(encode_spec(b)) == Some(b),
{
    let files = b.files;
    let front = files.drop_last();
    let f = files.last();
    let pb = encode_utf8(f.path);
    let e = escape_spec(f.content);
    let rest = pb + seq![CONTENT_CHAR] + e;
    assert(encode_spec(b) =~= header_bytes(b.version) + records_bytes(front) + seq![FILE_CHAR]
        + rest);
    assert forall|i: int| 0 <= i < front.len() implies path_round_trips(
        #[trigger] front[i].path,
    ) && content_closes(front[i].content) by {
        assert(front[i] == files[i]);
    }
    lemma_read_records(b.version, front, rest);
    let d1 = Decoder {
        phase: Phase::Path,
        version: b.version,
        files: front,
        path: Seq::empty(),
        content: Seq::empty(),
    };
    assert(path_round_trips(files[files.len() - 1].path));
    lemma_ascii_bytes(f.path);
    lemma_read_path(d1, pb, e);
    let d2 = Decoder {
        phase: Phase::Content,
        path: d1.path + byte_chars(pb),
        content: Seq::empty(),
        ..d1
    };
    assert(d1.path + byte_chars(pb) =~= f.path);
    lemma_escape_shape(f.content, FILE_CHAR);
    lemma_read_content_end(d2, e);
    lemma_unescape_escape(f.content);
    assert(d2.content + e =~= e);
    assert(front.push(f) =~= files);
}

/// Where the `i` first files of a bundle end in its wire form.
pub open spec fn records_end(b: BundleView, i: int) -> int {
    (header_bytes(b.version).len() + records_bytes(b.files.take(i)).len()) as int
}

/// A stream that stops inside its header, after `BOWL_CHAR` and
/// `VERSION_CHAR` and part of the version, is malformed.
proof fn lemma_header_part_malformed(v: Seq<char>, j: int)
    requires
        is_ascii_chars(v),
        0 <= j <= encode_utf8(v).len(),
    ensures
        decode_spec(seq![BOWL_CHAR, VERSION_CHAR] + encode_utf8(v).take(j)) == None::<BundleView>,
{
    let s = seq![BOWL_CHAR, VERSION_CHAR] + encode_utf8(v).take(j);
    lemma_ascii_bytes(v);
    let d1 = Decoder { phase: Phase::Version(0), ..decoder_start() };
    assert(s.skip(2) =~= encode_utf8(v).take(j));
    assert(lacks(encode_utf8(v).take(j), FILE_CHAR)) by {
        assert forall|i: int| 0 <= i < encode_utf8(v).take(j).len() implies #[trigger] encode_utf8(
            v,
        ).take(j)[i] != FILE_CHAR by {
            assert(encode_utf8(v).take(j)[i] == encode_utf8(v)[i]);
        }
    }
    lemma_version_unterminated(d1, s.skip(2));
    assert(step(decoder_start(), s) == Step::Advance(d1, 2));
}

/// A bundle without files encodes to its header alone: `BOWL_CHAR`,
/// `VERSION_CHAR`, then the version's bytes. The decoder refuses exactly
/// that stream, as it ends while the version is still being read.
pub proof fn lemma_empty_bundle(v: Seq<char>)
    requires
        is_ascii_chars(v),
    ensures
        encode_spec(BundleView { version: v, files: Seq::empty() }) == seq![
            BOWL_CHAR,
            VERSION_CHAR,
        ] + encode_utf8(v),
        decode_spec(encode_spec(BundleView { version: v, files: Seq::empty() })) == None::<
            BundleView,
        >,
{
    let e = encode_spec(BundleView { version: v, files: Seq::empty() });
    assert(e =~= seq![BOWL_CHAR, VERSION_CHAR] + encode_utf8(v));
    lemma_header_part_malformed(v, encode_utf8(v).len() as int);
    assert(encode_utf8(v).take(encode_utf8(v).len() as int) =~= encode_utf8(v));
}

/// A stream cut anywhere inside its header is malformed.
pub proof fn lemma_cut_in_header(b: BundleView, k: int)
    requires
        bundle_round_trips(b),
        0 <= k <= header_bytes(b.version).len(),
    ensures
        decode_spec(encode_spec(b).take(k)) == None::<BundleView>,
{
    let s = encode_spec(b).take(k);
    let h = header_bytes(b.version);
    assert(s =~= h.take(k));
    if k < 2 {
        assert(step(decoder_start(), s) == Step::Fail);
    } else {
        assert(h.take(k) =~= seq![BOWL_CHAR, VERSION_CHAR] + encode_utf8(b.version).take(k - 2));
        lemma_header_part_malformed(b.version, k - 2);
    }
}

/// A stream cut inside the path of one of its files, after that file's
/// `FILE_CHAR` and before its `CONTENT_CHAR`, is malformed.
pub proof fn lemma_cut_in_path(b: BundleView, i: int, j: int)
    requires
        bundle_round_trips(b),
        0 <= i < b.files.len(),
        0 <= j <= encode_utf8(b.files[i].path).len(),
    ensures
        decode_spec(
            encode_spec(b).take(records_end(b, i) + 1 + j),
        ) == None::<BundleView>,
{
    let files = b.files;
    let h = header_bytes(b.version);
    let pb = encode_utf8(files[i].path);
    let k = records_end(b, i) + 1 + j;
    lemma_records_bytes_split(files, i);
    lemma_records_bytes_split(files.skip(i), 1);
    let later = files.skip(i);
    assert(later.take(1).drop_last() =~= Seq::<FileRecord>::empty());
    assert(later.take(1).last() == files[i]);
    assert(records_bytes(Seq::<FileRecord>::empty()) =~= Seq::<u8>::empty());
    assert(records_bytes(later.take(1)) =~= record_bytes(files[i]));
    let prefix = h + records_bytes(files.take(i)) + seq![FILE_CHAR] + pb.take(j);
    assert(encode_spec(b).take(k) =~= prefix);
    assert forall|m: int| 0 <= m < files.take(i).len() implies path_round_trips(
        #[trigger] files.take(i)[m].path,
    ) && content_closes(files.take(i)[m].content) by {
        assert(files.take(i)[m] == files[m]);
    }
    lemma_read_records(b.version, files.take(i), pb.take(j));
    assert(path_round_trips(files[i].path));
    lemma_ascii_bytes(files[i].path);
    assert(lacks(pb.take(j), CONTENT_CHAR)) by {
        assert forall|m: int| 0 <= m < pb.take(j).len() implies #[trigger] pb.take(j)[m]
            != CONTENT_CHAR by {
            assert(pb.take(j)[m] == pb[m]);
        }
    }
    lemma_path_unterminated(
        Decoder {
            phase: Phase::Path,
            version: b.version,
            files: files.take(i),
            path: Seq::empty(),
            content: Seq::empty(),
        },
        pb.take(j),
    );
}

/// A stream cut right after the content of one of its files decodes: to the
/// version and the files up to and including that one.
pub proof fn lemma_cut_after_content(b: BundleView, i: int)
    requires
        bundle_round_trips(b),
        1 <= i <= b.files.len(),
    ensures
        decode_spec(
            encode_spec(b).take(records_end(b, i)),
        ) == Some(BundleView { version: b.version, files: b.files.take(i) }),
{
    let part = BundleView { version: b.version, files: b.files.take(i) };
    lemma_records_bytes_split(b.files, i);
    assert(encode_spec(b).take(records_end(b, i)) =~= encode_spec(part));
    assert forall|m: int| 0 <= m < part.files.len() implies path_round_trips(
        #[trigger] part.files[m].path,
    ) by {
        assert(part.files[m] == b.files[m]);
    }
    assert forall|m: int| 0 <= m < part.files.len() - 1 implies content_closes(
        #[trigger] part.files[m].content,
    ) by {
        assert(part.files[m] == b.files[m]);
    }
    lemma_round_trip(part);
}

/// The current format version is one that round-trips.
pub proof fn lemma_current_version_round_trips()
    ensures
        version_round_trips(CURRENT_VERSION@),
{
    reveal_strlit("0.0.1");
    let v = CURRENT_VERSION@;
    assert(v =~= seq!['0', '.', '0', '.', '1']);
    assert(v.skip(1) =~= seq!['.', '0', '.', '1']);
    assert(v.skip(1).skip(1) =~= seq!['0', '.', '1']);
    assert(v.skip(1).skip(1).skip(1) =~= seq!['.', '1']);
    assert(v.skip(1).skip(1).skip(1).skip(1) =~= seq!['1']);
    assert(v.skip(1).skip(1).skip(1).skip(1).skip(1) =~= Seq::<char>::empty());
    reveal_with_fuel(dot_count, 6);
}

} // verus!
