//! Vector ids out of equality predicates, one predicate file line for each query.
//!
//! A line is not parsed as JSON: it is searched for the key `"$eq":`, and the quoted number
//! after each key is an id.

use bit_set::BitSet;
use vstd::prelude::*;
use vstd::string::StringExecFns;
use vstd::utf8::encode_utf8;

use crate::bitmap::{bitmap_ids, bitmap_insert, bitmap_new};
use crate::decimal::{
    decimal_text, digit_bytes, is_digit, law_decimal_round_trip, lemma_decimal_text, parse_usize,
    law_decimal_digits, parsed, push_decimal,
};

verus! {

/// The byte of a quotation mark.
pub const QUOTE: u8 = 0x22;

/// The byte of a space.
pub const SPACE: u8 = 0x20;

/// The byte of a closing brace.
pub const BRACE: u8 = 0x7d;

/// How many bytes the key has.
pub const EQ_KEY_LEN: usize = 6;

/// The bytes of the key: a quotation mark, a dollar sign, the letters e and q, a quotation mark
/// and a colon.
pub open spec fn eq_key() -> Seq<u8> {
    seq![0x22u8, 0x24u8, 0x65u8, 0x71u8, 0x22u8, 0x3au8]
}

/// Whether the key stands at `pos`.
pub open spec fn is_key_at(bytes: Seq<u8>, pos: int) -> bool {
    0 <= pos && pos + EQ_KEY_LEN <= bytes.len() && bytes.subrange(pos, pos + EQ_KEY_LEN)
        == eq_key()
}

/// The first position from `pos` on that holds no space.
pub open spec fn after_spaces(bytes: Seq<u8>, pos: int) -> int
    decreases bytes.len() - pos,
{
    if 0 <= pos < bytes.len() && bytes[pos] == SPACE {
        after_spaces(bytes, pos + 1)
    } else {
        pos
    }
}

/// The first position from `pos` on that holds a quotation mark, or the end.
pub open spec fn next_quote(bytes: Seq<u8>, pos: int) -> int
    decreases bytes.len() - pos,
{
    if 0 <= pos < bytes.len() && bytes[pos] != QUOTE {
        next_quote(bytes, pos + 1)
    } else {
        pos
    }
}

/// Where the value of the key at `pos` opens, if it is quoted.
pub open spec fn value_open(bytes: Seq<u8>, pos: int) -> int {
    after_spaces(bytes, pos + EQ_KEY_LEN)
}

/// Whether the value of the key at `pos` begins with a quotation mark.
pub open spec fn is_value_opened(bytes: Seq<u8>, pos: int) -> bool {
    let open = value_open(bytes, pos);
    open < bytes.len() && bytes[open] == QUOTE
}

/// Where the quoted value of the key at `pos` ends: at the next quotation mark, or at the end
/// where there is none.
pub open spec fn value_close(bytes: Seq<u8>, pos: int) -> int {
    next_quote(bytes, value_open(bytes, pos) + 1)
}

/// Whether the value of the key at `pos` stands between two quotation marks.
pub open spec fn is_value_quoted(bytes: Seq<u8>, pos: int) -> bool {
    is_value_opened(bytes, pos) && value_close(bytes, pos) < bytes.len()
}

/// The id that the value of the key at `pos` stands for: a number between two quotation marks.
pub open spec fn id_at(bytes: Seq<u8>, pos: int) -> Option<usize> {
    if is_value_quoted(bytes, pos) {
        parsed(bytes.subrange(value_open(bytes, pos) + 1, value_close(bytes, pos)))
    } else {
        None
    }
}

/// Skipping goes forward and stays within the text.
pub proof fn lemma_after_spaces(bytes: Seq<u8>, pos: int)
    requires
        0 <= pos <= bytes.len(),
    ensures
        pos <= after_spaces(bytes, pos) <= bytes.len(),
        forall|i: int| pos <= i < after_spaces(bytes, pos) ==> bytes[i] == SPACE,
        after_spaces(bytes, pos) < bytes.len() ==> bytes[after_spaces(bytes, pos)] != SPACE,
    decreases bytes.len() - pos,
{
    if pos < bytes.len() && bytes[pos] == SPACE {
        lemma_after_spaces(bytes, pos + 1);
    }
}

/// Looking for a quotation mark goes forward and stays within the text.
pub proof fn lemma_next_quote(bytes: Seq<u8>, pos: int)
    requires
        0 <= pos <= bytes.len(),
    ensures
        pos <= next_quote(bytes, pos) <= bytes.len(),
        forall|i: int| pos <= i < next_quote(bytes, pos) ==> bytes[i] != QUOTE,
        next_quote(bytes, pos) < bytes.len() ==> bytes[next_quote(bytes, pos)] == QUOTE,
    decreases bytes.len() - pos,
{
    if pos < bytes.len() && bytes[pos] != QUOTE {
        lemma_next_quote(bytes, pos + 1);
    }
}

/// The ids in the text from `pos` on, in the order of their keys.
pub open spec fn eq_ids_from(bytes: Seq<u8>, pos: int) -> Seq<usize>
    decreases bytes.len() - pos,
{
    if pos < 0 || pos >= bytes.len() {
        Seq::empty()
    } else if !is_key_at(bytes, pos) {
        eq_ids_from(bytes, pos + 1)
    } else {
        proof {
            lemma_after_spaces(bytes, pos + EQ_KEY_LEN);
        }
        let rest = eq_ids_from(bytes, value_open(bytes, pos));
        match id_at(bytes, pos) {
            Some(id) => seq![id] + rest,
            None => rest,
        }
    }
}

/// The ids in a line.
pub open spec fn eq_ids(line: Seq<char>) -> Seq<usize> {
    eq_ids_from(encode_utf8(line), 0)
}

/// Whether a bitmap can hold the ids of a line: it has one bit for each id up to the largest,
/// and their count must fit in a `usize`.
pub open spec fn is_storable(line: Seq<char>) -> bool {
    !eq_ids(line).contains(usize::MAX)
}

/// Returns whether the key stands at `pos`.
fn key_at(bytes: &[u8], pos: usize) -> (found: bool)
    requires
        pos + EQ_KEY_LEN <= bytes@.len(),
    ensures
        found == is_key_at(bytes@, pos as int),
{
    let found = bytes[pos] == 0x22 && bytes[pos + 1] == 0x24 && bytes[pos + 2] == 0x65 && bytes[pos
        + 3] == 0x71 && bytes[pos + 4] == 0x22 && bytes[pos + 5] == 0x3a;
    proof {
        let window = bytes@.subrange(pos as int, pos + EQ_KEY_LEN);
        if found {
            assert(window =~= eq_key());
        } else if window == eq_key() {
            assert(window[0] == 0x22 && window[1] == 0x24 && window[2] == 0x65 && window[3] == 0x71
                && window[4] == 0x22 && window[5] == 0x3a);
        }
    }
    found
}

/// No key begins so close to the end that its value could not begin before it.
proof fn lemma_no_ids_at_end(bytes: Seq<u8>, pos: int)
    requires
        0 <= pos,
        pos + EQ_KEY_LEN >= bytes.len(),
    ensures
        eq_ids_from(bytes, pos) == Seq::<usize>::empty(),
    decreases bytes.len() - pos,
{
    if pos < bytes.len() {
        if is_key_at(bytes, pos) {
            assert(value_open(bytes, pos) == bytes.len());
            assert(eq_ids_from(bytes, bytes.len() as int) == Seq::<usize>::empty());
        } else {
            lemma_no_ids_at_end(bytes, pos + 1);
        }
    }
}

/// Finds the ids in a text, in the order of their keys.
pub fn scan_eq_ids(bytes: &[u8]) -> (ids: Vec<usize>)
    ensures
        ids@ == eq_ids_from(bytes@, 0),
{
    let mut ids: Vec<usize> = Vec::new();
    let len: usize = bytes.len();
    let mut pos: usize = 0;
    if len <= EQ_KEY_LEN {
        proof {
            lemma_no_ids_at_end(bytes@, 0);
        }
        return ids;
    }
    let last: usize = len - EQ_KEY_LEN;
    while pos < last
        invariant
            len == bytes@.len(),
            last + EQ_KEY_LEN == len,
            pos <= len,
            eq_ids_from(bytes@, 0) =~= ids@ + eq_ids_from(bytes@, pos as int),
        decreases len - pos,
    {
        if !key_at(bytes, pos) {
            pos = pos + 1;
            continue ;
        }
        let ghost key = pos as int;
        pos = pos + EQ_KEY_LEN;
        proof {
            lemma_after_spaces(bytes@, pos as int);
        }
        while pos < len && bytes[pos] == SPACE
            invariant
                len == bytes@.len(),
                pos <= len,
                after_spaces(bytes@, pos as int) == value_open(bytes@, key),
            decreases len - pos,
        {
            pos = pos + 1;
        }
        if pos >= len || bytes[pos] != QUOTE {
            continue ;
        }
        // The opening quotation mark may begin the next key, so the search goes on there.
        let start: usize = pos + 1;
        let mut end: usize = start;
        while end < len && bytes[end] != QUOTE
            invariant
                len == bytes@.len(),
                start <= end <= len,
                next_quote(bytes@, end as int) == value_close(bytes@, key),
            decreases len - end,
        {
            end = end + 1;
        }
        if end < len {
            if let Some(id) = parse_usize(bytes, start, end) {
                ids.push(id);
            }
        }
    }
    proof {
        lemma_no_ids_at_end(bytes@, pos as int);
    }
    ids
}

/// Finds the ids in a line, in the order of their keys.
pub fn eq_ids_of_line(line: &str) -> (ids: Vec<usize>)
    ensures
        ids@ == eq_ids(line@),
{
    scan_eq_ids(line.as_bytes())
}

/// Returns whether a bitmap can hold the ids of a line.
pub fn is_line_storable(line: &str) -> (storable: bool)
    ensures
        storable == is_storable(line@),
        storable == !eq_ids(line@).contains(usize::MAX),
{
    let ids = eq_ids_of_line(line);
    let mut i: usize = 0;
    while i < ids.len()
        invariant
            i <= ids.len(),
            ids@ == eq_ids(line@),
            forall|j: int| 0 <= j < i ==> ids[j] != usize::MAX,
        decreases ids.len() - i,
    {
        if ids[i] == usize::MAX {
            assert(ids@.contains(usize::MAX));
            return false;
        }
        i = i + 1;
    }
    true
}

/// Finds the ids in a line and collects them in a bitmap.
///
/// The whole JSON is not parsed: the key `"$eq"` is found literally, and the number in the
/// string that follows is read. A string that is not closed does not count.
pub fn extract_eq_ids_from_line(line: &str) -> (bitmap: BitSet)
    requires
        is_storable(line@),
    ensures
        bitmap_ids(bitmap) == eq_ids(line@).to_set(),
{
    let ids = eq_ids_of_line(line);
    let mut bitmap = bitmap_new();
    let mut i: usize = 0;
    assert(bitmap_ids(bitmap) =~= ids@.subrange(0, 0).to_set());
    while i < ids.len()
        invariant
            i <= ids.len(),
            ids@ == eq_ids(line@),
            is_storable(line@),
            bitmap_ids(bitmap) == ids@.subrange(0, i as int).to_set(),
        decreases ids.len() - i,
    {
        let id: usize = ids[i];
        assert(ids@.contains(id));
        bitmap_insert(&mut bitmap, id);
        proof {
            let shorter = ids@.subrange(0, i as int);
            let longer = ids@.subrange(0, i + 1);
            assert(longer =~= shorter.push(id));
            assert forall|x: usize| longer.to_set().contains(x) == shorter.to_set().insert(id).contains(x) by {
                if shorter.contains(x) {
                    let j = choose|j: int| 0 <= j < shorter.len() && shorter[j] == x;
                    assert(longer[j] == x);
                }
                if x == id {
                    assert(longer[i as int] == x);
                }
            }
            assert(longer.to_set() =~= shorter.to_set().insert(id));
        }
        i = i + 1;
    }
    assert(ids@.subrange(0, i as int) =~= ids@);
    bitmap
}

/// What went wrong while a predicate file was read.
#[derive(Debug)]
pub enum PredicateFileError {
    /// The file could not be opened.
    Open {
        /// The path of the file.
        path: String,
        /// What the system said.
        cause: String,
    },
    /// A line could not be read.
    Line {
        /// The index of the line.
        line: usize,
        /// What the system said.
        cause: String,
    },
}

impl PredicateFileError {
    /// The text of the error.
    pub open spec fn text(&self) -> Seq<char> {
        match self {
            PredicateFileError::Open { path, cause } => "cannot open "@ + path@ + ": "@ + cause@,
            PredicateFileError::Line { line, cause } => "line "@ + decimal_text(*line as nat) + ": "@
                + cause@,
        }
    }

    /// Returns the text of the error.
    pub fn message(&self) -> (message: String)
        ensures
            message@ == self.text(),
            self matches PredicateFileError::Open { path, cause } ==> message@ == "cannot open "@
                + path@ + ": "@ + cause@,
            self matches PredicateFileError::Line { line, cause } ==> message@ == "line "@
                + decimal_text(*line as nat) + ": "@ + cause@,
    {
        let mut message = String::new();
        match self {
            PredicateFileError::Open { path, cause } => {
                message.append("cannot open ");
                message.append(path.as_str());
                message.append(": ");
                message.append(cause.as_str());
                assert(message@ =~= self.text());
            },
            PredicateFileError::Line { line, cause } => {
                message.append("line ");
                push_decimal(&mut message, *line);
                message.append(": ");
                message.append(cause.as_str());
                assert(message@ =~= self.text());
            },
        }
        message
    }
}

/// The number of lines before the first one that could not be read.
pub open spec fn readable_lines(lines: Seq<Result<String, String>>) -> nat
    decreases lines.len(),
{
    if lines.len() == 0 {
        0
    } else if readable_lines(lines.drop_last()) < lines.len() - 1 || lines.last() is Err {
        readable_lines(lines.drop_last())
    } else {
        lines.len()
    }
}

/// All lines before the first one that could not be read could be read, and no more.
pub(crate) proof fn lemma_readable_lines(lines: Seq<Result<String, String>>)
    ensures
        readable_lines(lines) <= lines.len(),
        forall|i: int| 0 <= i < readable_lines(lines) ==> (#[trigger] lines[i]) is Ok,
        readable_lines(lines) < lines.len() ==> lines[readable_lines(lines) as int] is Err,
    decreases lines.len(),
{
    if lines.len() > 0 {
        let shorter = lines.drop_last();
        lemma_readable_lines(shorter);
        assert forall|i: int| 0 <= i < readable_lines(lines) implies (
        #[trigger] lines[i]) is Ok by {
            if i < shorter.len() {
                assert(lines[i] == shorter[i]);
            }
        }
        if readable_lines(shorter) < shorter.len() {
            let k = readable_lines(shorter) as int;
            assert(lines[k] == shorter[k]);
        }
    }
}

/// Collects the ids of each line of a predicate file in a bitmap.
///
/// The lines come as the file system gave them. The first one that could not be read ends the
/// work with an error that names it.
pub fn generate_bitmaps_from_eq_predicates(lines: &Vec<Result<String, String>>) -> (bitmaps: Result<
    Vec<BitSet>,
    PredicateFileError,
>)
    requires
        forall|i: int|
            0 <= i < readable_lines(lines@) ==> is_storable((#[trigger] lines[i])->Ok_0@),
    ensures
        bitmaps is Ok <==> readable_lines(lines@) == lines.len(),
        bitmaps is Ok <==> forall|i: int| 0 <= i < lines.len() ==> (#[trigger] lines[i]) is Ok,
        bitmaps matches Err(PredicateFileError::Line { line, cause }) ==> {
            &&& line < lines.len()
            &&& lines[line as int] matches Err(said) && cause@ == said@
            &&& forall|i: int| 0 <= i < line ==> (#[trigger] lines[i]) is Ok
        },
        bitmaps matches Ok(found) ==> {
            &&& found.len() == lines.len()
            &&& forall|i: int|
                0 <= i < lines.len() ==> bitmap_ids(#[trigger] found[i]) == eq_ids(
                    lines[i]->Ok_0@,
                ).to_set()
        },
        bitmaps matches Err(error) ==> {
            let first = readable_lines(lines@) as int;
            &&& error matches PredicateFileError::Line { line, cause }
            &&& line == first
            &&& cause@ == lines[first]->Err_0@
        },
{
    let mut found: Vec<BitSet> = Vec::new();
    let mut i: usize = 0;
    proof {
        lemma_readable_lines(lines@);
    }
    while i < lines.len()
        invariant
            i <= readable_lines(lines@) <= lines.len(),
            forall|j: int| 0 <= j < readable_lines(lines@) ==> (#[trigger] lines[j]) is Ok,
            readable_lines(lines@) < lines.len() ==> lines[readable_lines(lines@) as int] is Err,
            forall|j: int|
                0 <= j < readable_lines(lines@) ==> is_storable((#[trigger] lines[j])->Ok_0@),
            found.len() == i,
            forall|j: int|
                0 <= j < i ==> bitmap_ids(#[trigger] found[j]) == eq_ids(
                    lines[j]->Ok_0@,
                ).to_set(),
        decreases lines.len() - i,
    {
        match &lines[i] {
            Ok(line) => {
                assert(lines[i as int] is Ok);
                found.push(extract_eq_ids_from_line(line.as_str()));
            },
            Err(cause) => {
                assert(lines[i as int] is Err);
                return Err(PredicateFileError::Line { line: i, cause: cause.clone() });
            },
        }
        i = i + 1;
    }
    Ok(found)
}

/// Two keys do not overlap, and no key begins within the spaces after a key.
proof fn lemma_keys_apart(bytes: Seq<u8>, first: int, second: int)
    requires
        is_key_at(bytes, first),
        is_key_at(bytes, second),
        first < second,
    ensures
        value_open(bytes, first) <= second,
{
    let one = bytes.subrange(first, first + EQ_KEY_LEN);
    let two = bytes.subrange(second, second + EQ_KEY_LEN);
    assert(two[0] == bytes[second] && two[1] == bytes[second + 1]);
    assert(bytes[second] == QUOTE);
    if second < first + EQ_KEY_LEN {
        let d = second - first;
        assert(one[d] == bytes[second]);
        if d < 5 {
            assert(one[d + 1] == bytes[second + 1]);
        }
        assert(false);
    }
    lemma_after_spaces(bytes, first + EQ_KEY_LEN);
}

/// Every id that the search finds stands behind a key, between two quotation marks.
pub proof fn law_scan_sound(bytes: Seq<u8>, id: usize)
    requires
        eq_ids_from(bytes, 0).contains(id),
    ensures
        exists|pos: int|
            {
                &&& #[trigger] is_key_at(bytes, pos)
                &&& is_value_opened(bytes, pos)
                &&& value_close(bytes, pos) < bytes.len()
                &&& id_at(bytes, pos) == Some(id)
            },
{
    lemma_scan_sound(bytes, 0, id);
}

proof fn lemma_scan_sound(bytes: Seq<u8>, from: int, id: usize)
    requires
        eq_ids_from(bytes, from).contains(id),
    ensures
        exists|pos: int| #[trigger] is_key_at(bytes, pos) && id_at(bytes, pos) == Some(id),
    decreases bytes.len() - from,
{
    if 0 <= from < bytes.len() {
        if !is_key_at(bytes, from) {
            lemma_scan_sound(bytes, from + 1, id);
        } else if id_at(bytes, from) != Some(id) {
            lemma_after_spaces(bytes, from + EQ_KEY_LEN);
            let all = eq_ids_from(bytes, from);
            let rest = eq_ids_from(bytes, value_open(bytes, from));
            let k = choose|k: int| 0 <= k < all.len() && all[k] == id;
            if id_at(bytes, from) is Some {
                assert(rest[k - 1] == id);
            }
            assert(rest.contains(id));
            lemma_scan_sound(bytes, value_open(bytes, from), id);
        }
    }
}

/// The search finds the id behind every key.
pub proof fn law_scan_complete(bytes: Seq<u8>, pos: int, id: usize)
    requires
        is_key_at(bytes, pos),
        id_at(bytes, pos) == Some(id),
    ensures
        eq_ids_from(bytes, 0).contains(id),
{
    lemma_scan_complete(bytes, 0, pos, id);
}

proof fn lemma_scan_complete(bytes: Seq<u8>, from: int, pos: int, id: usize)
    requires
        0 <= from <= pos,
        is_key_at(bytes, pos),
        id_at(bytes, pos) == Some(id),
    ensures
        eq_ids_from(bytes, from).contains(id),
    decreases bytes.len() - from,
{
    if from == pos {
        assert(eq_ids_from(bytes, from)[0] == id);
    } else if !is_key_at(bytes, from) {
        lemma_scan_complete(bytes, from + 1, pos, id);
    } else {
        lemma_keys_apart(bytes, from, pos);
        lemma_after_spaces(bytes, from + EQ_KEY_LEN);
        lemma_scan_complete(bytes, value_open(bytes, from), pos, id);
        let rest = eq_ids_from(bytes, value_open(bytes, from));
        let k = choose|k: int| 0 <= k < rest.len() && rest[k] == id;
        let all = eq_ids_from(bytes, from);
        if id_at(bytes, from) is Some {
            assert(all[k + 1] == id);
        }
    }
}

/// The bytes of an equality predicate on `n`, with `spaces` spaces after the colon, up to the
/// quotation mark that closes the number.
pub open spec fn eq_predicate(n: usize, spaces: nat) -> Seq<u8> {
    eq_key() + Seq::new(spaces, |i: int| SPACE) + seq![QUOTE] + digit_bytes(decimal_text(n as nat))
}

proof fn lemma_scan_skips(bytes: Seq<u8>, from: int, to: int)
    requires
        0 <= from <= to <= bytes.len(),
        forall|i: int| from <= i < to ==> !#[trigger] is_key_at(bytes, i),
    ensures
        eq_ids_from(bytes, from) == eq_ids_from(bytes, to),
    decreases to - from,
{
    if from < to {
        lemma_scan_skips(bytes, from + 1, to);
    }
}

/// Reading starts anew at every position: what stands before does not matter.
proof fn lemma_scan_suffix(before: Seq<u8>, bytes: Seq<u8>, pos: int)
    requires
        0 <= pos <= bytes.len(),
    ensures
        eq_ids_from(before + bytes, before.len() + pos) == eq_ids_from(bytes, pos),
    decreases bytes.len() - pos,
{
    let all = before + bytes;
    let n = before.len() as int;
    if pos < bytes.len() {
        assert(is_key_at(all, n + pos) == is_key_at(bytes, pos)) by {
            if pos + EQ_KEY_LEN <= bytes.len() {
                assert(all.subrange(n + pos, n + pos + EQ_KEY_LEN) =~= bytes.subrange(
                    pos,
                    pos + EQ_KEY_LEN,
                ));
            }
        }
        if !is_key_at(bytes, pos) {
            lemma_scan_suffix(before, bytes, pos + 1);
        } else {
            lemma_after_spaces_suffix(before, bytes, pos + EQ_KEY_LEN);
            lemma_after_spaces(bytes, pos + EQ_KEY_LEN);
            let open = value_open(bytes, pos);
            assert(value_open(all, n + pos) == n + open);
            if is_value_opened(bytes, pos) {
                lemma_next_quote_suffix(before, bytes, open + 1);
                lemma_next_quote(bytes, open + 1);
                let close = value_close(bytes, pos);
                assert(all.subrange(n + open + 1, n + close) =~= bytes.subrange(open + 1, close));
            }
            assert(id_at(all, n + pos) == id_at(bytes, pos));
            lemma_scan_suffix(before, bytes, open);
        }
    }
}

proof fn lemma_after_spaces_suffix(before: Seq<u8>, bytes: Seq<u8>, pos: int)
    requires
        0 <= pos <= bytes.len(),
    ensures
        after_spaces(before + bytes, before.len() + pos) == before.len() + after_spaces(bytes, pos),
    decreases bytes.len() - pos,
{
    if pos < bytes.len() {
        assert((before + bytes)[before.len() + pos] == bytes[pos]);
        if bytes[pos] == SPACE {
            lemma_after_spaces_suffix(before, bytes, pos + 1);
        }
    }
}

proof fn lemma_next_quote_suffix(before: Seq<u8>, bytes: Seq<u8>, pos: int)
    requires
        0 <= pos <= bytes.len(),
    ensures
        next_quote(before + bytes, before.len() + pos) == before.len() + next_quote(bytes, pos),
    decreases bytes.len() - pos,
{
    if pos < bytes.len() {
        assert((before + bytes)[before.len() + pos] == bytes[pos]);
        if bytes[pos] != QUOTE {
            lemma_next_quote_suffix(before, bytes, pos + 1);
        }
    }
}

/// A run of spaces that ends is skipped.
proof fn lemma_spaces_end(bytes: Seq<u8>, pos: int, end: int)
    requires
        0 <= pos <= end < bytes.len(),
        forall|i: int| pos <= i < end ==> bytes[i] == SPACE,
        bytes[end] != SPACE,
    ensures
        after_spaces(bytes, pos) == end,
    decreases end - pos,
{
    if pos < end {
        lemma_spaces_end(bytes, pos + 1, end);
    }
}

/// A run without quotation marks ends at the first one.
proof fn lemma_quote_end(bytes: Seq<u8>, pos: int, end: int)
    requires
        0 <= pos <= end < bytes.len(),
        forall|i: int| pos <= i < end ==> bytes[i] != QUOTE,
        bytes[end] == QUOTE,
    ensures
        next_quote(bytes, pos) == end,
    decreases end - pos,
{
    if pos < end {
        lemma_quote_end(bytes, pos + 1, end);
    }
}

/// A predicate on `n` is read as the id `n`, with or without spaces after the colon, and
/// whatever follows is read as if it stood alone. Before it there is a text in which no key
/// begins.
pub proof fn law_predicate_read(before: Seq<u8>, n: usize, spaces: nat, after: Seq<u8>)
    requires
        forall|i: int|
            0 <= i < before.len() ==> !#[trigger] is_key_at(
                before + eq_predicate(n, spaces) + seq![QUOTE] + after,
                i,
            ),
    ensures
        eq_ids_from(before + eq_predicate(n, spaces) + seq![QUOTE] + after, 0) == seq![n]
            + eq_ids_from(seq![QUOTE] + after, 0),
{
    let number = digit_bytes(decimal_text(n as nat));
    let tail = seq![QUOTE] + after;
    let bytes = before + eq_predicate(n, spaces) + seq![QUOTE] + after;
    let key = before.len() as int;
    lemma_scan_skips(bytes, 0, key);
    assert(bytes.subrange(key, key + EQ_KEY_LEN) =~= eq_key());
    assert(is_key_at(bytes, key));
    let open = key + EQ_KEY_LEN + spaces;
    let close = open + 1 + number.len();
    lemma_decimal_text(n as nat);
    assert(bytes[open] == QUOTE);
    assert forall|i: int| key + EQ_KEY_LEN <= i < open implies bytes[i] == SPACE by {}
    lemma_spaces_end(bytes, key + EQ_KEY_LEN, open);
    assert forall|i: int| open < i < close implies bytes[i] != QUOTE by {
        assert(bytes[i] == number[i - open - 1]);
        assert(is_digit(number[i - open - 1]));
    }
    assert(bytes[close] == QUOTE);
    lemma_quote_end(bytes, open + 1, close);
    assert(bytes.subrange(open + 1, close) =~= number);
    law_decimal_round_trip(n);
    assert(id_at(bytes, key) == Some(n));
    assert forall|i: int| open <= i < close implies !#[trigger] is_key_at(bytes, i) by {
        if is_key_at(bytes, i) {
            let window = bytes.subrange(i, i + EQ_KEY_LEN);
            assert(window[0] == bytes[i] && window[1] == bytes[i + 1]);
            assert(bytes[open + 1] == number[0] && is_digit(number[0]));
        }
    }
    lemma_scan_skips(bytes, open, close);
    let front = before + eq_predicate(n, spaces);
    assert(bytes =~= front + tail);
    lemma_scan_suffix(front, tail, 0);
}

/// Whether every value in a text that begins with a quotation mark ends with one too.
pub open spec fn values_closed(bytes: Seq<u8>) -> bool {
    forall|pos: int| #[trigger]
        is_key_at(bytes, pos) && is_value_opened(bytes, pos) ==> is_value_quoted(bytes, pos)
}

/// Text behind a closing brace does not change what is read before it.
proof fn lemma_scan_prefix(bytes: Seq<u8>, after: Seq<u8>, pos: int)
    requires
        bytes.len() > 0,
        bytes.last() == BRACE,
        values_closed(bytes),
        0 <= pos <= bytes.len(),
    ensures
        eq_ids_from(bytes + after, pos) == eq_ids_from(bytes, pos) + eq_ids_from(after, 0),
    decreases bytes.len() - pos,
{
    let all = bytes + after;
    let n = bytes.len() as int;
    if pos == n {
        lemma_scan_suffix(bytes, after, 0);
        assert(eq_ids_from(bytes, n) =~= Seq::<usize>::empty());
        assert(eq_ids_from(all, n) =~= eq_ids_from(bytes, n) + eq_ids_from(after, 0));
    } else {
        assert(is_key_at(all, pos) == is_key_at(bytes, pos)) by {
            let window = all.subrange(pos, pos + EQ_KEY_LEN);
            if pos + EQ_KEY_LEN <= n {
                assert(window =~= bytes.subrange(pos, pos + EQ_KEY_LEN));
            } else if is_key_at(all, pos) {
                assert(window[n - 1 - pos] == BRACE);
            }
        }
        if !is_key_at(bytes, pos) {
            lemma_scan_prefix(bytes, after, pos + 1);
        } else {
            let from = pos + EQ_KEY_LEN;
            lemma_after_spaces(bytes, from);
            assert(bytes.subrange(pos, from)[5] == bytes[from - 1]);
            let open = value_open(bytes, pos);
            assert(open < n) by {
                if open == n {
                    assert(bytes[n - 1] == SPACE || from == n);
                }
            }
            lemma_spaces_end(all, from, open);
            if is_value_opened(bytes, pos) {
                let close = value_close(bytes, pos);
                lemma_next_quote(bytes, open + 1);
                lemma_quote_end(all, open + 1, close);
                assert(all.subrange(open + 1, close) =~= bytes.subrange(open + 1, close));
            }
            assert(id_at(all, pos) == id_at(bytes, pos));
            lemma_scan_prefix(bytes, after, open);
            assert(eq_ids_from(all, pos) =~= eq_ids_from(bytes, pos) + eq_ids_from(after, 0));
        }
    }
}

/// The encoding of two texts is the encodings of both.
proof fn lemma_encode_concat(a: Seq<char>, b: Seq<char>)
    ensures
        encode_utf8(a + b) == encode_utf8(a) + encode_utf8(b),
    decreases a.len(),
{
    if a.len() == 0 {
        assert(a + b =~= b);
        assert(encode_utf8(a) =~= Seq::<u8>::empty());
        assert(encode_utf8(a) + encode_utf8(b) =~= encode_utf8(b));
    } else {
        lemma_encode_concat(a.drop_first(), b);
        assert((a + b).drop_first() =~= a.drop_first() + b);
        assert(encode_utf8(a + b) =~= encode_utf8(a) + encode_utf8(b));
    }
}

/// The encoding of one ASCII character is its byte.
proof fn lemma_encode_ascii(c: char)
    requires
        c <= '\x7f',
    ensures
        encode_utf8(seq![c]) == seq![c as u8],
{
    let text = seq![c];
    vstd::utf8::is_ascii_chars_encode_utf8(text);
    assert(encode_utf8(text) =~= seq![c as u8]);
}

/// The ids of two objects on one line, with nothing or a comma between them, are those of the
/// first and then those of the second. The first ends with a brace, and every value in it that
/// begins with a quotation mark ends with one.
pub proof fn law_objects_on_one_line(a: Seq<char>, sep: Seq<char>, b: Seq<char>)
    requires
        a.len() > 0,
        a.last() == '}',
        values_closed(encode_utf8(a)),
        sep == Seq::<char>::empty() || sep == seq![','],
    ensures
        eq_ids(a + sep + b) == eq_ids(a) + eq_ids(b),
{
    let first = encode_utf8(a);
    let second = encode_utf8(b);
    let tail = encode_utf8(sep + b);
    assert(a + sep + b =~= a + (sep + b));
    lemma_encode_concat(a, sep + b);
    assert(a =~= a.drop_last() + seq!['}']);
    lemma_encode_concat(a.drop_last(), seq!['}']);
    lemma_encode_ascii('}');
    assert(first.last() == BRACE);
    lemma_scan_prefix(first, tail, 0);
    if sep.len() == 0 {
        assert(sep + b =~= b);
    } else {
        lemma_encode_concat(sep, b);
        lemma_encode_ascii(',');
        let comma = seq![',' as u8];
        assert(tail == comma + second);
        assert(!is_key_at(tail, 0)) by {
            if is_key_at(tail, 0) {
                assert(tail.subrange(0, EQ_KEY_LEN as int)[0] == tail[0]);
            }
        }
        lemma_scan_suffix(comma, second, 0);
    }
}

/// Whether a predicate on `id` stands in a text, with its key at `pos` and its value between
/// the quotation marks at `open` and `close`.
spec fn is_read(bytes: Seq<u8>, pos: int, open: int, close: int, id: usize) -> bool {
    &&& 0 <= pos
    &&& pos + 6 <= open < close < bytes.len()
    &&& bytes[pos] == 0x22
    &&& bytes[pos + 1] == 0x24
    &&& bytes[pos + 2] == 0x65
    &&& bytes[pos + 3] == 0x71
    &&& bytes[pos + 4] == 0x22
    &&& bytes[pos + 5] == 0x3a
    &&& forall|i: int| pos + 6 <= i < open ==> bytes[i] == 0x20
    &&& bytes[open] == 0x22
    &&& forall|i: int| open < i < close ==> bytes[i] != 0x22
    &&& bytes[close] == 0x22
    &&& parsed(bytes.subrange(open + 1, close)) == Some(id)
}

/// A predicate stands in a text exactly where a key stands whose value is its id.
proof fn lemma_is_read(bytes: Seq<u8>, pos: int, open: int, close: int, id: usize)
    ensures
        is_read(bytes, pos, open, close, id) <==> {
            &&& is_key_at(bytes, pos)
            &&& open == value_open(bytes, pos)
            &&& close == value_close(bytes, pos)
            &&& id_at(bytes, pos) == Some(id)
        },
{
    let from = pos + EQ_KEY_LEN;
    if is_read(bytes, pos, open, close, id) {
        assert(bytes.subrange(pos, from) =~= eq_key());
        lemma_spaces_end(bytes, from, open);
        lemma_quote_end(bytes, open + 1, close);
    }
    if is_key_at(bytes, pos) && open == value_open(bytes, pos) && close == value_close(bytes, pos)
        && id_at(bytes, pos) == Some(id) {
        let window = bytes.subrange(pos, from);
        assert(window[0] == bytes[pos] && window[1] == bytes[pos + 1] && window[2] == bytes[pos + 2]
            && window[3] == bytes[pos + 3] && window[4] == bytes[pos + 4] && window[5]
            == bytes[pos + 5]);
        lemma_after_spaces(bytes, from);
        lemma_next_quote(bytes, open + 1);
    }
}

/// Whether `at` is where the predicates of a text stand from `from` on, in their order.
spec fn are_read(bytes: Seq<u8>, from: int, at: Seq<(int, int, int)>) -> bool {
    let ids = eq_ids_from(bytes, from);
    &&& at.len() == ids.len()
    &&& forall|k: int|
        0 <= k < at.len() ==> from <= (#[trigger] at[k]).0 && is_read(
            bytes,
            at[k].0,
            at[k].1,
            at[k].2,
            ids[k],
        )
    &&& forall|k: int, l: int|
        0 <= k < l < at.len() ==> (#[trigger] at[k]).0 < (#[trigger] at[l]).0
    &&& forall|pos: int, open: int, close: int, id: usize|
        from <= pos && #[trigger] is_read(bytes, pos, open, close, id) ==> at.contains(
            (pos, open, close),
        )
}

/// The search from `from` on reads all predicates that stand there, in their order.
#[verifier::rlimit(40)]
proof fn lemma_all_read(bytes: Seq<u8>, from: int)
    requires
        0 <= from,
    ensures
        exists|at: Seq<(int, int, int)>| are_read(bytes, from, at),
    decreases bytes.len() - from,
{
    let ids = eq_ids_from(bytes, from);
    if from >= bytes.len() {
        assert(are_read(bytes, from, Seq::<(int, int, int)>::empty()));
    } else if !is_key_at(bytes, from) {
        let next = from + 1;
        lemma_all_read(bytes, next);
        let at = choose|at: Seq<(int, int, int)>| are_read(bytes, next, at);
        assert forall|pos: int, open: int, close: int, id: usize|
            from <= pos && #[trigger] is_read(bytes, pos, open, close, id) implies at.contains(
            (pos, open, close),
        ) by {
            lemma_is_read(bytes, pos, open, close, id);
        }
        assert(are_read(bytes, from, at));
    } else {
        let start = value_open(bytes, from);
        lemma_after_spaces(bytes, from + EQ_KEY_LEN);
        lemma_all_read(bytes, start);
        let rest = choose|at: Seq<(int, int, int)>| are_read(bytes, start, at);
        let rest_ids = eq_ids_from(bytes, start);
        let first = (from, start, value_close(bytes, from));
        let at = match id_at(bytes, from) {
            Some(_) => seq![first] + rest,
            None => rest,
        };
        let skipped = at.len() - rest.len();
        assert forall|k: int| 0 <= k < at.len() implies from <= (#[trigger] at[k]).0 && is_read(
            bytes,
            at[k].0,
            at[k].1,
            at[k].2,
            ids[k],
        ) by {
            if k < skipped {
                lemma_is_read(bytes, from, start, value_close(bytes, from), ids[0]);
            } else {
                assert(at[k] == rest[k - skipped]);
                assert(ids[k] == rest_ids[k - skipped]);
            }
        }
        assert forall|k: int, l: int| 0 <= k < l < at.len() implies (#[trigger] at[k]).0 < (
        #[trigger] at[l]).0 by {
            assert(at[l] == rest[l - skipped]);
            if k >= skipped {
                assert(at[k] == rest[k - skipped]);
            }
        }
        assert forall|pos: int, open: int, close: int, id: usize|
            from <= pos && #[trigger] is_read(bytes, pos, open, close, id) implies at.contains(
            (pos, open, close),
        ) by {
            lemma_is_read(bytes, pos, open, close, id);
            if pos == from {
                assert(at[0] == first);
            } else {
                lemma_keys_apart(bytes, from, pos);
                let k = choose|k: int| 0 <= k < rest.len() && rest[k] == (pos, open, close);
                assert(at[k + skipped] == rest[k]);
            }
        }
        assert(are_read(bytes, from, at));
    }
}

/// The ids of a text are those of all predicates that stand in it, in their order, and of
/// nothing else. A predicate is the bytes `"$eq":`, any number of spaces, and a number between
/// two quotation marks with none in between.
pub proof fn law_scan_reads_the_predicates(bytes: Seq<u8>)
    ensures
        ({
            let ids = eq_ids_from(bytes, 0);
            exists|at: Seq<(int, int, int)>|
                {
                    &&& #[trigger] at.len() == ids.len()
                    &&& forall|k: int|
                        0 <= k < at.len() ==> {
                                &&& 0 <= (#[trigger] at[k]).0
                                &&& at[k].0 + 6 <= at[k].1 < at[k].2 < bytes.len()
                                &&& bytes[at[k].0] == 0x22
                                &&& bytes[at[k].0 + 1] == 0x24
                                &&& bytes[at[k].0 + 2] == 0x65
                                &&& bytes[at[k].0 + 3] == 0x71
                                &&& bytes[at[k].0 + 4] == 0x22
                                &&& bytes[at[k].0 + 5] == 0x3a
                                &&& forall|i: int| at[k].0 + 6 <= i < at[k].1 ==> bytes[i] == 0x20
                                &&& bytes[at[k].1] == 0x22
                                &&& forall|i: int| at[k].1 < i < at[k].2 ==> bytes[i] != 0x22
                                &&& bytes[at[k].2] == 0x22
                                &&& parsed(bytes.subrange(at[k].1 + 1, at[k].2)) == Some(ids[k])
                        }
                    &&& forall|k: int, l: int|
                            0 <= k < l < at.len() ==> (#[trigger] at[k]).0 < (#[trigger] at[l]).0
                    &&& forall|pos: int, open: int, close: int|
                        {
                                &&& 0 <= pos
                                &&& pos + 6 <= open < close < bytes.len()
                                &&& #[trigger] bytes[pos] == 0x22
                                &&& bytes[pos + 1] == 0x24
                                &&& bytes[pos + 2] == 0x65
                                &&& bytes[pos + 3] == 0x71
                                &&& bytes[pos + 4] == 0x22
                                &&& bytes[pos + 5] == 0x3a
                                &&& forall|i: int| pos + 6 <= i < open ==> bytes[i] == 0x20
                                &&& #[trigger] bytes[open] == 0x22
                                &&& forall|i: int| open < i < close ==> bytes[i] != 0x22
                                &&& #[trigger] bytes[close] == 0x22
                                &&& parsed(bytes.subrange(open + 1, close)) is Some
                        } ==> at.contains((pos, open, close))
                }
        }),
{
    lemma_all_read(bytes, 0);
    let at = choose|at: Seq<(int, int, int)>| are_read(bytes, 0, at);
    let ids = eq_ids_from(bytes, 0);
    assert(at.len() == ids.len());
    assert forall|pos: int, open: int, close: int|
        {
            &&& 0 <= pos
            &&& pos + 6 <= open < close < bytes.len()
            &&& #[trigger] bytes[pos] == 0x22
            &&& bytes[pos + 1] == 0x24
            &&& bytes[pos + 2] == 0x65
            &&& bytes[pos + 3] == 0x71
            &&& bytes[pos + 4] == 0x22
            &&& bytes[pos + 5] == 0x3a
            &&& forall|i: int| pos + 6 <= i < open ==> bytes[i] == 0x20
            &&& #[trigger] bytes[open] == 0x22
            &&& forall|i: int| open < i < close ==> bytes[i] != 0x22
            &&& #[trigger] bytes[close] == 0x22
            &&& parsed(bytes.subrange(open + 1, close)) is Some
        } implies at.contains((pos, open, close)) by {
        let id = parsed(bytes.subrange(open + 1, close))->Some_0;
        assert(is_read(bytes, pos, open, close, id));
    }
    assert forall|k: int| 0 <= k < at.len() implies is_read(
        bytes,
        (#[trigger] at[k]).0,
        at[k].1,
        at[k].2,
        ids[k],
    ) by {}
}

/// The ids of a line are those of all predicates that stand in its bytes, in their order, and
/// of nothing else.
pub proof fn law_line_reads_the_predicates(line: Seq<char>)
    ensures
        ({
            let bytes = encode_utf8(line);
            let ids = eq_ids(line);
            exists|at: Seq<(int, int, int)>|
                {
                    &&& #[trigger] at.len() == ids.len()
                    &&& forall|k: int|
                        0 <= k < at.len() ==> {
                                &&& 0 <= (#[trigger] at[k]).0
                                &&& at[k].0 + 6 <= at[k].1 < at[k].2 < bytes.len()
                                &&& bytes[at[k].0] == 0x22
                                &&& bytes[at[k].0 + 1] == 0x24
                                &&& bytes[at[k].0 + 2] == 0x65
                                &&& bytes[at[k].0 + 3] == 0x71
                                &&& bytes[at[k].0 + 4] == 0x22
                                &&& bytes[at[k].0 + 5] == 0x3a
                                &&& forall|i: int| at[k].0 + 6 <= i < at[k].1 ==> bytes[i] == 0x20
                                &&& bytes[at[k].1] == 0x22
                                &&& forall|i: int| at[k].1 < i < at[k].2 ==> bytes[i] != 0x22
                                &&& bytes[at[k].2] == 0x22
                                &&& parsed(bytes.subrange(at[k].1 + 1, at[k].2)) == Some(ids[k])
                        }
                    &&& forall|k: int, l: int|
                            0 <= k < l < at.len() ==> (#[trigger] at[k]).0 < (#[trigger] at[l]).0
                    &&& forall|pos: int, open: int, close: int|
                        {
                                &&& 0 <= pos
                                &&& pos + 6 <= open < close < bytes.len()
                                &&& #[trigger] bytes[pos] == 0x22
                                &&& bytes[pos + 1] == 0x24
                                &&& bytes[pos + 2] == 0x65
                                &&& bytes[pos + 3] == 0x71
                                &&& bytes[pos + 4] == 0x22
                                &&& bytes[pos + 5] == 0x3a
                                &&& forall|i: int| pos + 6 <= i < open ==> bytes[i] == 0x20
                                &&& #[trigger] bytes[open] == 0x22
                                &&& forall|i: int| open < i < close ==> bytes[i] != 0x22
                                &&& #[trigger] bytes[close] == 0x22
                                &&& parsed(bytes.subrange(open + 1, close)) is Some
                        } ==> at.contains((pos, open, close))
                }
        }),
{
    law_scan_reads_the_predicates(encode_utf8(line));
}

/// A line names an id exactly where a predicate on it stands somewhere in the bytes of the line.
pub proof fn law_line_names_an_id(line: Seq<char>, id: usize)
    ensures
        eq_ids(line).contains(id) <==> {
            let bytes = encode_utf8(line);
            exists|pos: int, open: int, close: int|
                {
                    &&& 0 <= pos
                    &&& pos + 6 <= open < close < bytes.len()
                    &&& #[trigger] bytes[pos] == 0x22
                    &&& bytes[pos + 1] == 0x24
                    &&& bytes[pos + 2] == 0x65
                    &&& bytes[pos + 3] == 0x71
                    &&& bytes[pos + 4] == 0x22
                    &&& bytes[pos + 5] == 0x3a
                    &&& forall|i: int| pos + 6 <= i < open ==> bytes[i] == 0x20
                    &&& #[trigger] bytes[open] == 0x22
                    &&& forall|i: int| open < i < close ==> bytes[i] != 0x22
                    &&& #[trigger] bytes[close] == 0x22
                    &&& parsed(bytes.subrange(open + 1, close)) == Some(id)
                }
        },
{
    let bytes = encode_utf8(line);
    let ids = eq_ids(line);
    lemma_all_read(bytes, 0);
    let at = choose|at: Seq<(int, int, int)>| are_read(bytes, 0, at);
    if ids.contains(id) {
        let k = choose|k: int| 0 <= k < ids.len() && ids[k] == id;
        let (pos, open, close) = at[k];
        assert(is_read(bytes, pos, open, close, id));
        assert(bytes[pos] == 0x22 && bytes[open] == 0x22 && bytes[close] == 0x22);
    }
    if exists|pos: int, open: int, close: int|
        {
            &&& 0 <= pos
            &&& pos + 6 <= open < close < bytes.len()
            &&& #[trigger] bytes[pos] == 0x22
            &&& bytes[pos + 1] == 0x24
            &&& bytes[pos + 2] == 0x65
            &&& bytes[pos + 3] == 0x71
            &&& bytes[pos + 4] == 0x22
            &&& bytes[pos + 5] == 0x3a
            &&& forall|i: int| pos + 6 <= i < open ==> bytes[i] == 0x20
            &&& #[trigger] bytes[open] == 0x22
            &&& forall|i: int| open < i < close ==> bytes[i] != 0x22
            &&& #[trigger] bytes[close] == 0x22
            &&& parsed(bytes.subrange(open + 1, close)) == Some(id)
        } {
        let (pos, open, close) = choose|pos: int, open: int, close: int|
            {
                &&& 0 <= pos
                &&& pos + 6 <= open < close < bytes.len()
                &&& #[trigger] bytes[pos] == 0x22
                &&& bytes[pos + 1] == 0x24
                &&& bytes[pos + 2] == 0x65
                &&& bytes[pos + 3] == 0x71
                &&& bytes[pos + 4] == 0x22
                &&& bytes[pos + 5] == 0x3a
                &&& forall|i: int| pos + 6 <= i < open ==> bytes[i] == 0x20
                &&& #[trigger] bytes[open] == 0x22
                &&& forall|i: int| open < i < close ==> bytes[i] != 0x22
                &&& #[trigger] bytes[close] == 0x22
                &&& parsed(bytes.subrange(open + 1, close)) == Some(id)
            };
        assert(is_read(bytes, pos, open, close, id));
        let k = choose|k: int| 0 <= k < at.len() && at[k] == (pos, open, close);
        assert(is_read(bytes, at[k].0, at[k].1, at[k].2, ids[k]));
        assert(ids[k] == id);
    }
}

/// A predicate on `n` is found wherever it is written into a line, with any number of spaces
/// after the colon, whatever stands before and after it.
pub proof fn law_written_predicate_is_found(
    before: Seq<char>,
    spaces: nat,
    n: usize,
    after: Seq<char>,
)
    ensures
        eq_ids(
            before + "\"$eq\":"@ + Seq::new(spaces, |i: int| ' ') + "\""@ + decimal_text(n as nat)
                + "\""@ + after,
        ).contains(n),
{
    let key = "\"$eq\":"@;
    let gap = Seq::new(spaces, |i: int| ' ');
    let quote = "\""@;
    let number = decimal_text(n as nat);
    let line = before + key + gap + quote + number + quote + after;
    reveal_strlit("\"$eq\":");
    reveal_strlit("\"");
    lemma_decimal_text(n as nat);
    law_decimal_digits(n as nat);
    lemma_encode_concat(before + key + gap + quote + number + quote, after);
    lemma_encode_concat(before + key + gap + quote + number, quote);
    lemma_encode_concat(before + key + gap + quote, number);
    lemma_encode_concat(before + key + gap, quote);
    lemma_encode_concat(before + key, gap);
    lemma_encode_concat(before, key);
    vstd::utf8::is_ascii_chars_encode_utf8(key);
    vstd::utf8::is_ascii_chars_encode_utf8(gap);
    vstd::utf8::is_ascii_chars_encode_utf8(quote);
    vstd::utf8::is_ascii_chars_encode_utf8(number);
    let bytes = encode_utf8(line);
    let pos = encode_utf8(before).len() as int;
    let open = pos + 6 + spaces;
    let close = open + 1 + number.len();
    assert(bytes.subrange(open + 1, close) =~= digit_bytes(number));
    law_decimal_round_trip(n);
    assert(is_read(bytes, pos, open, close, n));
    assert(bytes[pos] == 0x22 && bytes[open] == 0x22 && bytes[close] == 0x22);
    law_line_names_an_id(line, n);
}

} // verus!
