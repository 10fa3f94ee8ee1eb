//! The patch applied to generated Python bindings: the loader definition is
//! replaced by one that finds the native library by a glob search.

use vstd::prelude::*;
use vstd::string::StringExecFns;
use vstd::utf8::*;
use crate::error::Error;
use crate::text::contains;
use crate::text::find_first;
use crate::text::first_occurrence;
use crate::text::lemma_encoding_concat;
use crate::text::lemma_encoding_injective;
use crate::text::lemma_occurrence_byte;
use crate::text::lemma_occurrence_in_part;
use crate::text::lemma_window_on_boundaries;
use crate::text::occurs_at;

verus! {

/// The name of the generated Python bindings file.
pub const BINDINGS_FILE: &'static str = "bdk.py";

/// The text that introduces the generated loader and anchors the patch.
pub const LOAD_INDIRECT_DEF: &'static str = "def loadIndirect():";

/// What the replacement block holds before the library's base name. The
/// loader keeps its name; its header is spaced so that the block holds no
/// copy of the anchor.
pub const BLOCK_HEAD: &'static str =
    "\ndef loadIndirect( ):\n    import glob\n    return getattr(ctypes.cdll, glob.glob(os.path.join(os.path.dirname(os.path.abspath(__file__)), '";

/// What the replacement block holds after the library's base name. It ends
/// with the header under which the previous loader body lives on.
pub const BLOCK_TAIL: &'static str = ".*'))[0])\n\ndef _loadIndirectOld():";

/// The anchor as bytes.
pub open spec fn marker() -> Seq<u8> {
    encode_utf8(LOAD_INDIRECT_DEF@)
}

/// The text holds the anchor somewhere.
pub open spec fn has_anchor(data: Seq<char>) -> bool {
    contains(encode_utf8(data), marker())
}

/// `data` is `before`, then the anchor, then `after`, and no anchor begins
/// at an earlier byte of `data`.
pub open spec fn splits_at_anchor(data: Seq<char>, before: Seq<char>, after: Seq<char>) -> bool {
    &&& data == before + LOAD_INDIRECT_DEF@ + after
    &&& first_occurrence(encode_utf8(data), marker(), encode_utf8(before).len() as int)
}

/// The block written in place of the anchor for a library base name: a
/// loader that globs, beside the bindings file, for any file name that
/// begins with the base name and a dot, then the renamed header of the
/// previous loader.
pub open spec fn loader_block(lib_name: Seq<char>) -> Seq<char> {
    BLOCK_HEAD@ + lib_name + BLOCK_TAIL@
}

/// The patched text: what stood before the anchor, the block for the
/// library base name, and what stood after the anchor.
pub open spec fn patched_text(before: Seq<char>, lib_name: Seq<char>, after: Seq<char>) -> Seq<
    char,
> {
    before + loader_block(lib_name) + after
}

/// The byte range that the anchor covers in a text.
#[derive(Debug, PartialEq, Eq, Structural, Clone, Copy)]
pub struct AnchorSpan {
    pub start: usize,
    pub end: usize,
}

impl AnchorSpan {
    /// The span covers the first occurrence of the anchor in `text`, and
    /// nothing more.
    pub open spec fn anchors(self, text: Seq<u8>) -> bool {
        &&& first_occurrence(text, marker(), self.start as int)
        &&& self.end == self.start + marker().len()
    }
}

/// Locates the anchor: the span of its first occurrence, or nothing where
/// the text holds no anchor.
pub fn find_anchor(data: &str) -> (r: Option<AnchorSpan>)
    ensures
        match r {
            Some(span) => span.anchors(encode_utf8(data@)),
            None => !has_anchor(data@),
        },
{
    let hay = data.as_bytes();
    let needle = LOAD_INDIRECT_DEF.as_bytes();
    match find_first(hay, needle) {
        Some(start) => {
            assert(start + needle@.len() <= hay.len());
            Some(AnchorSpan { start, end: start + needle.len() })
        },
        None => None,
    }
}

/// Builds the replacement block for a library base name. Any name is
/// accepted and copied as it is.
pub fn replacement(lib_name: &str) -> (block: String)
    ensures
        block@ == loader_block(lib_name@),
{
    let mut block = BLOCK_HEAD.to_owned();
    block.append(lib_name);
    block.append(BLOCK_TAIL);
    block
}

/// Patches the text of a bindings file: the first occurrence of the anchor
/// gives way to the replacement block for `lib_name`, and all that stood
/// before and after it stays. A text without the anchor is an error that
/// names `bindings_file`, and nothing is produced.
pub fn fixup_python_lib_path(bindings_file: &str, data: &str, lib_name: &str) -> (r: Result<
    String,
    Error,
>)
    ensures
        match r {
            Ok(patched) => exists|before: Seq<char>, after: Seq<char>|
                {
                    &&& #[trigger] splits_at_anchor(data@, before, after)
                    &&& patched@ == patched_text(before, lib_name@, after)
                },
            Err(Error::AnchorNotFound { file }) => !has_anchor(data@) && file@ == bindings_file@,
            Err(_) => false,
        },
{
    match find_anchor(data) {
        None => Err(Error::AnchorNotFound { file: bindings_file.to_owned() }),
        Some(span) => {
            proof {
                lemma_marker_shape();
                encode_utf8_valid_utf8(data@);
                lemma_window_on_boundaries(encode_utf8(data@), marker(), span.start as int);
            }
            let (before, _) = data.split_at(span.start);
            let (_, after) = data.split_at(span.end);
            let block = replacement(lib_name);
            let mut patched = before.to_owned();
            patched.append(block.as_str());
            patched.append(after);
            proof {
                lemma_encoding_concat(before@ + LOAD_INDIRECT_DEF@, after@);
                lemma_encoding_concat(before@, LOAD_INDIRECT_DEF@);
                assert(encode_utf8(before@ + LOAD_INDIRECT_DEF@ + after@) =~= encode_utf8(data@));
                lemma_encoding_injective(before@ + LOAD_INDIRECT_DEF@ + after@, data@);
                assert(splits_at_anchor(data@, before@, after@));
            }
            Ok(patched)
        },
    }
}

/// The anchor, byte by byte.
pub proof fn lemma_marker_bytes()
    ensures
        marker() =~= seq![
            100u8, 101, 102, 32, 108, 111, 97, 100, 73, 110, 100, 105, 114, 101, 99, 116, 40, 41, 58,
        ],
{
    reveal_strlit("def loadIndirect():");
    assert(is_ascii_chars(LOAD_INDIRECT_DEF@));
    is_ascii_chars_encode_utf8(LOAD_INDIRECT_DEF@);
}

/// What the proofs use of the anchor: its length, its first byte, its
/// capital `I`, its closing bracket, that its colon is its last byte, and
/// that it holds no line feed, quote or dot.
spec fn anchor_shaped(m: Seq<u8>) -> bool {
    &&& m.len() == 19
    &&& m[0] == 100
    &&& m[8] == 73
    &&& m[17] == 41
    &&& m[18] == 58
    &&& forall|k: int| 0 <= k < 18 ==> m[k] != 58
    &&& forall|k: int| 0 <= k < 19 ==> m[k] != 10 && m[k] != 39 && m[k] != 46
}

/// What the proofs use of the head of the block: its ends, the space
/// inside the loader's header, and that its one capital `I` is that of the
/// loader's name.
spec fn head_shaped(head: Seq<u8>) -> bool {
    &&& head.len() == 138
    &&& head[0] == 10
    &&& head[18] == 32
    &&& head[137] == 39
    &&& forall|i: int| 0 <= i < 138 && head[i] == 73 ==> i == 9
}

/// What the proofs use of the tail of the block: its ends, the `e` of
/// `def`, and that its one capital `I` is that of the renamed loader.
spec fn tail_shaped(tail: Seq<u8>) -> bool {
    &&& tail.len() == 34
    &&& tail[0] == 46
    &&& tail[12] == 101
    &&& tail[33] == 58
    &&& forall|i: int| 0 <= i < 34 && tail[i] == 73 ==> i == 20
}

/// The anchor has the shape that the proofs rest on.
proof fn lemma_marker_shape()
    ensures
        anchor_shaped(marker()),
{
    lemma_marker_bytes();
}

/// The head of the block has the shape that the proofs rest on.
#[verifier::rlimit(40)]
proof fn lemma_head_shape()
    ensures
        head_shaped(encode_utf8(BLOCK_HEAD@)),
{
    reveal_strlit(
        "\ndef loadIndirect( ):\n    import glob\n    return getattr(ctypes.cdll, glob.glob(os.path.join(os.path.dirname(os.path.abspath(__file__)), '",
    );
    assert(is_ascii_chars(BLOCK_HEAD@));
    is_ascii_chars_encode_utf8(BLOCK_HEAD@);
}

/// The tail of the block has the shape that the proofs rest on.
proof fn lemma_tail_shape()
    ensures
        tail_shaped(encode_utf8(BLOCK_TAIL@)),
{
    reveal_strlit(".*'))[0])\n\ndef _loadIndirectOld():");
    assert(is_ascii_chars(BLOCK_TAIL@));
    is_ascii_chars_encode_utf8(BLOCK_TAIL@);
}

/// An anchor in a block lies in the base name: it can cover neither the
/// quote that ends the head nor the dot that begins the tail, and neither
/// head nor tail holds one.
proof fn lemma_window_in_name(head: Seq<u8>, name: Seq<u8>, tail: Seq<u8>, m: Seq<u8>, at: int)
    requires
        anchor_shaped(m),
        head_shaped(head),
        tail_shaped(tail),
        occurs_at(head + name + tail, m, at),
    ensures
        occurs_at(name, m, at - 138),
{
    let block = head + name + tail;
    let dot = 138 + name.len() as int;
    assert forall|k: int| 0 <= k < 138 implies block[k] == head[k] by {}
    assert forall|k: int| 0 <= k < 34 implies block[dot + k] == tail[k] by {}
    if at <= 137 {
        if 137 < at + 19 {
            lemma_occurrence_byte(block, m, at, 137 - at);
            assert(block[137] == head[137]);
        } else {
            lemma_occurrence_byte(block, m, at, 8);
            assert(block[at + 8] == head[at + 8]);
            assert(at == 1);
            lemma_occurrence_byte(block, m, at, 17);
            assert(block[18] == head[18]);
        }
        assert(false);
    } else if dot < at + 19 {
        if at <= dot {
            lemma_occurrence_byte(block, m, at, dot - at);
            assert(block[dot] == tail[0]);
        } else {
            let shifted = at - dot;
            lemma_occurrence_byte(block, m, at, 8);
            assert(block[dot + (shifted + 8)] == tail[shifted + 8]);
            assert(shifted == 12);
            lemma_occurrence_byte(block, m, at, 0);
            assert(block[dot + 12] == tail[12]);
        }
        assert(false);
    } else {
        lemma_occurrence_in_part(head, name, tail, m, at);
    }
}

/// An anchor in a patched text lies in the block or behind it: none
/// stands before the block, and none can cover the line feed that begins
/// the block or reach beyond the colon that ends it.
proof fn lemma_window_in_patched(
    head: Seq<u8>,
    block: Seq<u8>,
    rest: Seq<u8>,
    m: Seq<u8>,
    at: int,
)
    requires
        anchor_shaped(m),
        block.len() > 0,
        block.first() == 10,
        block.last() == 58,
        first_occurrence(head + m + rest, m, head.len() as int),
        occurs_at(head + block + rest, m, at),
    ensures
        head.len() <= at,
        at + 19 <= head.len() + block.len() || head.len() + block.len() <= at,
        at + 19 <= head.len() + block.len() ==> occurs_at(block, m, at - head.len()),
        head.len() + block.len() <= at ==> occurs_at(rest, m, at - head.len() - block.len()),
{
    let text = head + m + rest;
    let out = head + block + rest;
    let start = head.len() as int;
    let end = start + block.len();
    if at < start {
        if at + 19 <= start {
            assert(text.subrange(at, at + 19) =~= out.subrange(at, at + 19));
            assert(occurs_at(text, m, at));
        } else {
            lemma_occurrence_byte(out, m, at, start - at);
            assert(out[start] == block[0]);
        }
        assert(false);
    } else if at + 19 <= end {
        lemma_occurrence_in_part(head, block, rest, m, at);
    } else if at < end {
        lemma_occurrence_byte(out, m, at, end - 1 - at);
        assert(out[end - 1] == block[block.len() - 1]);
        assert(false);
    } else {
        assert(rest.subrange(at - end, at - end + 19) =~= out.subrange(at, at + 19));
    }
}

/// The block as bytes: head, base name and tail, each encoded by itself.
pub proof fn lemma_block_bytes(lib_name: Seq<char>)
    ensures
        encode_utf8(loader_block(lib_name)) == encode_utf8(BLOCK_HEAD@) + encode_utf8(lib_name)
            + encode_utf8(BLOCK_TAIL@),
{
    lemma_encoding_concat(BLOCK_HEAD@ + lib_name, BLOCK_TAIL@);
    lemma_encoding_concat(BLOCK_HEAD@, lib_name);
}

/// The patched text as bytes: the bytes before the anchor, the block, and
/// the bytes after the anchor.
pub proof fn lemma_patched_bytes(
    data: Seq<char>,
    before: Seq<char>,
    lib_name: Seq<char>,
    after: Seq<char>,
)
    requires
        splits_at_anchor(data, before, after),
    ensures
        encode_utf8(data) == encode_utf8(before) + marker() + encode_utf8(after),
        encode_utf8(patched_text(before, lib_name, after)) == encode_utf8(before) + encode_utf8(
            loader_block(lib_name),
        ) + encode_utf8(after),
{
    lemma_encoding_concat(before + LOAD_INDIRECT_DEF@, after);
    lemma_encoding_concat(before, LOAD_INDIRECT_DEF@);
    lemma_encoding_concat(before + loader_block(lib_name), after);
    lemma_encoding_concat(before, loader_block(lib_name));
}

/// A text splits at its anchor in one way only, so the patched text is
/// one text.
pub proof fn lemma_split_unique(
    data: Seq<char>,
    before: Seq<char>,
    after: Seq<char>,
    before2: Seq<char>,
    after2: Seq<char>,
)
    requires
        splits_at_anchor(data, before, after),
        splits_at_anchor(data, before2, after2),
    ensures
        before == before2,
        after == after2,
{
    lemma_encoding_concat(before + LOAD_INDIRECT_DEF@, after);
    lemma_encoding_concat(before, LOAD_INDIRECT_DEF@);
    lemma_encoding_concat(before2 + LOAD_INDIRECT_DEF@, after2);
    lemma_encoding_concat(before2, LOAD_INDIRECT_DEF@);
    let text = encode_utf8(data);
    let at = encode_utf8(before).len() as int;
    let end = at + marker().len();
    assert(at == encode_utf8(before2).len());
    assert(encode_utf8(before) =~= text.subrange(0, at));
    assert(encode_utf8(before2) =~= text.subrange(0, at));
    assert(encode_utf8(after) =~= text.subrange(end, text.len() as int));
    assert(encode_utf8(after2) =~= text.subrange(end, text.len() as int));
    lemma_encoding_injective(before, before2);
    lemma_encoding_injective(after, after2);
}

/// The first anchor of a text is the one before which none stands whole:
/// an anchor cannot begin inside another.
pub proof fn lemma_split_where_none_before(before: Seq<char>, after: Seq<char>)
    ensures
        splits_at_anchor(before + LOAD_INDIRECT_DEF@ + after, before, after) <==> !has_anchor(
            before,
        ),
{
    lemma_marker_shape();
    lemma_encoding_concat(before + LOAD_INDIRECT_DEF@, after);
    lemma_encoding_concat(before, LOAD_INDIRECT_DEF@);
    let m = marker();
    let head = encode_utf8(before);
    let rest = encode_utf8(after);
    let text = head + m + rest;
    let at = head.len() as int;
    assert(text.subrange(at, at + 19) =~= m);
    if has_anchor(before) {
        let j = choose|j: int| occurs_at(head, m, j);
        assert(text.subrange(j, j + 19) =~= head.subrange(j, j + 19));
        assert(occurs_at(text, m, j));
    } else {
        assert forall|j: int| 0 <= j < at implies !occurs_at(text, m, j) by {
            if occurs_at(text, m, j) {
                if j + 19 <= at {
                    assert(text.subrange(j, j + 19) =~= head.subrange(j, j + 19));
                    assert(occurs_at(head, m, j));
                } else {
                    // the colon of the earlier anchor would fall inside the
                    // later one
                    lemma_occurrence_byte(text, m, j, 18);
                    lemma_occurrence_byte(text, m, at, j + 18 - at);
                }
            }
        }
    }
}

/// The fixed text of the block holds no anchor: the block holds one
/// exactly when the library base name does. It begins with a line feed and
/// ends with the colon of the renamed header.
pub proof fn lemma_block_anchor_free(lib_name: Seq<char>)
    ensures
        has_anchor(loader_block(lib_name)) <==> has_anchor(lib_name),
        encode_utf8(loader_block(lib_name)).len() == 172 + encode_utf8(lib_name).len(),
        encode_utf8(loader_block(lib_name)).first() == 10,
        encode_utf8(loader_block(lib_name)).last() == 58,
{
    lemma_marker_shape();
    lemma_head_shape();
    lemma_tail_shape();
    lemma_block_bytes(lib_name);
    let head = encode_utf8(BLOCK_HEAD@);
    let name = encode_utf8(lib_name);
    let tail = encode_utf8(BLOCK_TAIL@);
    let block = head + name + tail;
    let m = marker();
    assert(block[0] == head[0]);
    assert(block[block.len() - 1] == tail[33]);
    if contains(block, m) {
        let at = choose|at: int| occurs_at(block, m, at);
        lemma_window_in_name(head, name, tail, m, at);
    }
    if contains(name, m) {
        let at = choose|at: int| occurs_at(name, m, at);
        assert(block.subrange(138 + at, 138 + at + 19) =~= name.subrange(at, at + 19));
        assert(occurs_at(block, m, 138 + at));
    }
}

/// A patch touches the first anchor only: an anchor stands in what
/// followed the first one exactly where, moved by the difference in length
/// between block and anchor, one stands behind the block in the patched
/// text.
pub proof fn lemma_later_anchors_stay(
    data: Seq<char>,
    before: Seq<char>,
    lib_name: Seq<char>,
    after: Seq<char>,
    at: int,
)
    requires
        splits_at_anchor(data, before, after),
        0 <= at,
    ensures
        occurs_at(encode_utf8(after), marker(), at) <==> occurs_at(
            encode_utf8(data),
            marker(),
            encode_utf8(before).len() + marker().len() + at,
        ),
        occurs_at(encode_utf8(after), marker(), at) <==> occurs_at(
            encode_utf8(patched_text(before, lib_name, after)),
            marker(),
            encode_utf8(before).len() + encode_utf8(loader_block(lib_name)).len() + at,
        ),
{
    lemma_patched_bytes(data, before, lib_name, after);
    let m = marker();
    let text = encode_utf8(data);
    let rest = encode_utf8(after);
    let out = encode_utf8(patched_text(before, lib_name, after));
    let in_text = encode_utf8(before).len() + m.len() + at;
    let in_out = encode_utf8(before).len() + encode_utf8(loader_block(lib_name)).len() + at;
    if at + m.len() <= rest.len() {
        assert(rest.subrange(at, at + m.len()) =~= text.subrange(in_text, in_text + m.len()));
        assert(rest.subrange(at, at + m.len()) =~= out.subrange(in_out, in_out + m.len()));
    }
}

/// A patch is applied once. The patched text holds an anchor exactly when
/// one stood behind the first or stands in the library base name: when the
/// text held the anchor once and the base name holds none, the patched
/// text holds none, and patching it again fails.
pub proof fn lemma_patched_anchor(
    data: Seq<char>,
    before: Seq<char>,
    lib_name: Seq<char>,
    after: Seq<char>,
)
    requires
        splits_at_anchor(data, before, after),
    ensures
        has_anchor(patched_text(before, lib_name, after)) <==> has_anchor(after) || has_anchor(
            lib_name,
        ),
{
    lemma_marker_shape();
    lemma_block_anchor_free(lib_name);
    lemma_patched_bytes(data, before, lib_name, after);
    let m = marker();
    let head = encode_utf8(before);
    let block = encode_utf8(loader_block(lib_name));
    let rest = encode_utf8(after);
    let out = head + block + rest;
    let start = head.len() as int;
    if contains(out, m) {
        let at = choose|at: int| occurs_at(out, m, at);
        lemma_window_in_patched(head, block, rest, m, at);
    }
    if contains(rest, m) {
        let at = choose|at: int| occurs_at(rest, m, at);
        lemma_later_anchors_stay(data, before, lib_name, after, at);
    }
    if contains(block, m) {
        let at = choose|at: int| occurs_at(block, m, at);
        assert(out.subrange(start + at, start + at + 19) =~= block.subrange(at, at + 19));
        assert(occurs_at(out, m, start + at));
    }
}

} // verus!
