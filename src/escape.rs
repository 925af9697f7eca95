//! Escaping of file content, so that payload bytes equal to a reserved byte
//! cannot be mistaken for framing.
use vstd::prelude::*;
use crate::symbols::{is_sentinel, ESC_CHAR, BOWL_CHAR, FILE_CHAR, CONTENT_CHAR, VERSION_CHAR};

verus! {

/// The bytes that stand for one content byte once escaped.
pub open spec fn escape_byte(b: u8) -> Seq<u8> {
    if is_sentinel(b) {
        seq![ESC_CHAR, b]
    } else {
        seq![b]
    }
}

/// Each reserved byte becomes `ESC_CHAR` followed by itself; other bytes stay.
pub open spec fn escape_spec(c: Seq<u8>) -> Seq<u8>
    decreases c.len(),
{
    if c.len() == 0 {
        Seq::empty()
    } else {
        escape_spec(c.drop_last()) + escape_byte(c.last())
    }
}

/// Left-to-right scan: `ESC_CHAR` with a byte after it stands for that byte;
/// a final lone `ESC_CHAR`, like any other byte, stands for itself.
pub open spec fn unescape_spec(c: Seq<u8>) -> Seq<u8>
    decreases c.len(),
{
    if c.len() == 0 {
        Seq::empty()
    } else if c[0] == ESC_CHAR && c.len() >= 2 {
        seq![c[1]] + unescape_spec(c.skip(2))
    } else {
        seq![c[0]] + unescape_spec(c.skip(1))
    }
}

/// Whether the left-to-right scan of [`unescape_spec`] meets an `ESC_CHAR`
/// as the very last byte, with nothing after it to pair with.
pub open spec fn ends_in_lone_escape(c: Seq<u8>) -> bool
    decreases c.len(),
{
    if c.len() == 0 {
        false
    } else if c[0] == ESC_CHAR && c.len() >= 2 {
        ends_in_lone_escape(c.skip(2))
    } else if c.len() == 1 {
        c[0] == ESC_CHAR
    } else {
        ends_in_lone_escape(c.skip(1))
    }
}

/// Escaping distributes over concatenation.
pub proof fn lemma_escape_concat(a: Seq<u8>, b: Seq<u8>)
    ensures
        escape_spec(a + b) == escape_spec(a) + escape_spec(b),
    decreases b.len(),
{
    if b.len() == 0 {
        assert(a + b =~= a);
        assert(escape_spec(a) + escape_spec(b) =~= escape_spec(a));
    } else {
        assert((a + b).drop_last() =~= a + b.drop_last());
        assert((a + b).last() == b.last());
        lemma_escape_concat(a, b.drop_last());
        assert(escape_spec(a + b) =~= escape_spec(a) + escape_spec(b));
    }
}

/// Escaping read from the front: the first byte's escape, then the rest's.
pub proof fn lemma_escape_first(c: Seq<u8>)
    requires
        c.len() > 0,
    ensures
        escape_spec(c) == escape_byte(c[0]) + escape_spec(c.skip(1)),
{
    assert(c =~= seq![c[0]] + c.skip(1));
    lemma_escape_concat(seq![c[0]], c.skip(1));
    assert(seq![c[0]].drop_last() =~= Seq::<u8>::empty());
    assert(escape_spec(Seq::<u8>::empty()) =~= Seq::<u8>::empty());
    assert(escape_spec(seq![c[0]]) =~= escape_byte(c[0]));
}

/// Unescaping undoes escaping, for every byte sequence; and escaped bytes
/// never end in an escape byte left without a partner.
pub proof fn lemma_unescape_escape(c: Seq<u8>)
    ensures
        unescape_spec(escape_spec(c)) == c,
        !ends_in_lone_escape(escape_spec(c)),
    decreases c.len(),
{
    if c.len() == 0 {
        assert(escape_spec(c) =~= Seq::<u8>::empty());
    } else {
        let e = escape_spec(c);
        let tail = escape_spec(c.skip(1));
        lemma_escape_first(c);
        lemma_unescape_escape(c.skip(1));
        if is_sentinel(c[0]) {
            assert(e.skip(2) =~= tail);
        } else {
            assert(e.skip(1) =~= tail);
        }
        assert(c =~= seq![c[0]] + c.skip(1));
    }
}

/// Replace each reserved byte of `content` by the escape byte and itself.
pub fn escape_content(content: Vec<u8>) -> (r: Vec<u8>)
    ensures
        r@ == escape_spec(content@),
{
    let mut result: Vec<u8> = Vec::new();
    let mut i: usize = 0;
    while i < content.len()
        invariant
            i <= content@.len(),
            result@ == escape_spec(content@.take(i as int)),
        decreases content@.len() - i,
    {
        let byte = content[i];
        proof {
            assert(content@.take(i + 1).drop_last() =~= content@.take(i as int));
        }
        if byte == ESC_CHAR || byte == BOWL_CHAR || byte == FILE_CHAR || byte == CONTENT_CHAR
            || byte == VERSION_CHAR {
            result.push(ESC_CHAR);
            result.push(byte);
        } else {
            result.push(byte);
        }
        i = i + 1;
        assert(result@ =~= escape_spec(content@.take(i as int)));
    }
    assert(content@.take(i as int) =~= content@);
    result
}

/// Undo [`escape_content`]; a trailing lone escape byte is kept as it is.
pub fn unescape_content(content: Vec<u8>) -> (r: Vec<u8>)
    ensures
        r@ == unescape_spec(content@),
{
    let mut result: Vec<u8> = Vec::new();
    let mut i: usize = 0;
    assert(content@.skip(0) =~= content@);
    assert(result@ + unescape_spec(content@) =~= unescape_spec(content@));
    while i < content.len()
        invariant
            i <= content@.len(),
            result@ + unescape_spec(content@.skip(i as int)) == unescape_spec(content@),
        decreases content@.len() - i,
    {
        let ghost rest = content@.skip(i as int);
        if content[i] == ESC_CHAR && i + 1 < content.len() {
            result.push(content[i + 1]);
            i = i + 2;
            assert(rest.skip(2) =~= content@.skip(i as int));
            assert(result@ + unescape_spec(content@.skip(i as int)) =~= unescape_spec(content@));
        } else {
            result.push(content[i]);
            i = i + 1;
            assert(rest.skip(1) =~= content@.skip(i as int));
            assert(result@ + unescape_spec(content@.skip(i as int)) =~= unescape_spec(content@));
        }
    }
    assert(result@ =~= result@ + unescape_spec(content@.skip(i as int)));
    result
}

} // verus!
