//! Writing a table and reading it back gives the lines that were written.

use vstd::prelude::*;
use vstd::utf8::{encode_scalar, encode_utf8, encode_utf8_decode_utf8, encode_utf8_valid_utf8};
use crate::table::{
    data_lines, decoded_text, first_whitespace, is_whitespace, line_text, parse_line, parse_table,
    render, split_lines, trim, trim_end, trim_start, TableLineView,
};

verus! {

/// Whether a line can be read back from its text: the address is not
/// empty, holds no whitespace and does not start with `#`; the host name is
/// not empty, does not end in whitespace and holds no newline.
pub open spec fn reads_back(line: TableLineView) -> bool {
    &&& line.address.len() > 0
    &&& line.address[0] != '#'
    &&& forall|i: int| 0 <= i < line.address.len() ==> !is_whitespace(#[trigger] line.address[i])
    &&& line.hostname.len() > 0
    &&& !is_whitespace(line.hostname.last())
    &&& forall|i: int| 0 <= i < line.hostname.len() ==> (#[trigger] line.hostname[i]) != '\n'
}

/// Whether a text holds no newline.
pub open spec fn newline_free(text: Seq<char>) -> bool {
    forall|i: int| 0 <= i < text.len() ==> (#[trigger] text[i]) != '\n'
}

/// Whether a byte sequence holds no newline byte.
pub open spec fn newline_free_bytes(bytes: Seq<u8>) -> bool {
    forall|i: int| 0 <= i < bytes.len() ==> (#[trigger] bytes[i]) != 0x0a
}

/// The encoded text of each line.
pub open spec fn encoded_lines(lines: Seq<TableLineView>) -> Seq<Seq<u8>> {
    Seq::new(lines.len(), |i: int| encode_utf8(line_text(lines[i])))
}

/// Only the newline character has a newline byte in its encoding, and it
/// is encoded as that byte alone.
pub proof fn lemma_scalar_newline(c: char)
    ensures
        c == '\n' ==> encode_scalar(c as u32) == seq![0x0au8],
        c != '\n' ==> newline_free_bytes(encode_scalar(c as u32)),
{
    let u = c as u32;
    assert(u <= 0x7f ==> (((u & 0x7f) as u8 == 0x0a) <==> u == 0x0a)) by (bit_vector);
    assert((0xC0u8 | ((u >> 6) & 0x1F) as u8) != 0x0a) by (bit_vector);
    assert((0xE0u8 | ((u >> 12) & 0x0F) as u8) != 0x0a) by (bit_vector);
    assert((0xF0u8 | ((u >> 18) & 0x7) as u8) != 0x0a) by (bit_vector);
    assert((0x80u8 | (u & 0x3F) as u8) != 0x0a) by (bit_vector);
    assert((0x80u8 | ((u >> 6) & 0x3F) as u8) != 0x0a) by (bit_vector);
    assert((0x80u8 | ((u >> 12) & 0x3F) as u8) != 0x0a) by (bit_vector);
    if c == '\n' {
        assert(u == 0x0a);
        assert(encode_scalar(u) =~= seq![0x0au8]);
    }
}

/// The encoding of two texts in a row is the two encodings in a row.
pub proof fn lemma_encode_concat(a: Seq<char>, b: Seq<char>)
    ensures
        encode_utf8(a + b) == encode_utf8(a) + encode_utf8(b),
    decreases a.len(),
{
    if a.len() == 0 {
        assert(a + b =~= b);
        assert(encode_utf8(a) + encode_utf8(b) =~= encode_utf8(b));
    } else {
        lemma_encode_concat(a.drop_first(), b);
        assert((a + b).drop_first() =~= a.drop_first() + b);
        assert(encode_utf8(a + b) =~= encode_utf8(a) + encode_utf8(b));
    }
}

/// A text without a newline is encoded without a newline byte.
pub proof fn lemma_encode_newline_free(text: Seq<char>)
    requires
        newline_free(text),
    ensures
        newline_free_bytes(encode_utf8(text)),
    decreases text.len(),
{
    if text.len() > 0 {
        let rest = text.drop_first();
        assert forall|i: int| 0 <= i < rest.len() implies (#[trigger] rest[i]) != '\n' by {
            assert(rest[i] == text[i + 1]);
        }
        lemma_encode_newline_free(rest);
        lemma_scalar_newline(text[0]);
    }
}

/// Bytes without a newline byte are one piece.
pub proof fn lemma_split_one_piece(bytes: Seq<u8>)
    requires
        newline_free_bytes(bytes),
    ensures
        split_lines(bytes) == seq![bytes],
    decreases bytes.len(),
{
    if bytes.len() == 0 {
        assert(bytes =~= Seq::<u8>::empty());
    } else {
        let front = bytes.drop_last();
        assert forall|i: int| 0 <= i < front.len() implies (#[trigger] front[i]) != 0x0a by {
            assert(front[i] == bytes[i]);
        }
        lemma_split_one_piece(front);
        assert(front.push(bytes.last()) =~= bytes);
        assert(split_lines(bytes) =~= seq![bytes]);
    }
}

/// A newline byte followed by bytes without one adds one piece.
pub proof fn lemma_split_next_piece(head: Seq<u8>, tail: Seq<u8>)
    requires
        newline_free_bytes(tail),
    ensures
        split_lines(head.push(0x0a) + tail) == split_lines(head).push(tail),
    decreases tail.len(),
{
    let all = head.push(0x0a) + tail;
    if tail.len() == 0 {
        assert(all.drop_last() =~= head);
        assert(tail =~= Seq::<u8>::empty());
    } else {
        let front = tail.drop_last();
        assert forall|i: int| 0 <= i < front.len() implies (#[trigger] front[i]) != 0x0a by {
            assert(front[i] == tail[i]);
        }
        lemma_split_next_piece(head, front);
        assert(all.drop_last() =~= head.push(0x0a) + front);
        assert(all.last() == tail.last());
        assert(front.push(tail.last()) =~= tail);
        assert(split_lines(all) =~= split_lines(head).push(tail));
    }
}

/// In an address without whitespace, followed by a space, the first
/// whitespace character is that space.
pub proof fn lemma_first_whitespace_after(address: Seq<char>, rest: Seq<char>)
    requires
        forall|i: int| 0 <= i < address.len() ==> !is_whitespace(#[trigger] address[i]),
    ensures
        first_whitespace(address.push(' ') + rest) == address.len(),
    decreases address.len(),
{
    let text = address.push(' ') + rest;
    if address.len() > 0 {
        let shorter = address.drop_first();
        assert forall|i: int| 0 <= i < shorter.len() implies !is_whitespace(
            #[trigger] shorter[i],
        ) by {
            assert(shorter[i] == address[i + 1]);
        }
        lemma_first_whitespace_after(shorter, rest);
        assert(text.drop_first() =~= shorter.push(' ') + rest);
        assert(text[0] == address[0]);
    } else {
        assert(text[0] == ' ');
    }
}

/// The text of a line that reads back is read as that line.
pub proof fn lemma_line_reads_back(line: TableLineView)
    requires
        reads_back(line),
    ensures
        parse_line(line_text(line)) == Some(line),
{
    let text = line_text(line);
    assert(text[0] == line.address[0]);
    assert(text.last() == line.hostname.last());
    assert(trim_start(text) == text);
    assert(trim_end(text) == text);
    assert(trim(text) == text);
    lemma_first_whitespace_after(line.address, line.hostname);
    let k = first_whitespace(text);
    assert(text.take(k) =~= line.address);
    assert(text.skip(k + 1) =~= line.hostname);
}

/// Trimming at the start leaves no whitespace in front and brings no
/// newline in.
pub proof fn lemma_trim_start(s: Seq<char>)
    ensures
        trim_start(s).len() <= s.len(),
        trim_start(s).len() > 0 ==> !is_whitespace(trim_start(s)[0]),
        newline_free(s) ==> newline_free(trim_start(s)),
    decreases s.len(),
{
    if s.len() > 0 && is_whitespace(s[0]) {
        let rest = s.drop_first();
        lemma_trim_start(rest);
        if newline_free(s) {
            assert forall|i: int| 0 <= i < rest.len() implies (#[trigger] rest[i]) != '\n' by {
                assert(rest[i] == s[i + 1]);
            }
        }
    }
}

/// Trimming at the end leaves no whitespace behind, keeps the first
/// character and brings no newline in.
pub proof fn lemma_trim_end(s: Seq<char>)
    ensures
        trim_end(s).len() <= s.len(),
        trim_end(s).len() > 0 ==> !is_whitespace(trim_end(s).last()) && trim_end(s)[0] == s[0],
        newline_free(s) ==> newline_free(trim_end(s)),
    decreases s.len(),
{
    if s.len() > 0 && is_whitespace(s.last()) {
        let rest = s.drop_last();
        lemma_trim_end(rest);
        if newline_free(s) {
            assert forall|i: int| 0 <= i < rest.len() implies (#[trigger] rest[i]) != '\n' by {
                assert(rest[i] == s[i]);
            }
        }
    }
}

/// The first whitespace character of a text is one, and none stands
/// before it.
pub proof fn lemma_first_whitespace(s: Seq<char>)
    ensures
        ({
            let k = first_whitespace(s);
            &&& 0 <= k <= s.len()
            &&& k < s.len() ==> is_whitespace(s[k])
            &&& forall|i: int| 0 <= i < k ==> !is_whitespace(#[trigger] s[i])
        }),
    decreases s.len(),
{
    if s.len() > 0 && !is_whitespace(s[0]) {
        let rest = s.drop_first();
        lemma_first_whitespace(rest);
        assert forall|i: int| 0 <= i < first_whitespace(s) implies !is_whitespace(
            #[trigger] s[i],
        ) by {
            if i > 0 {
                assert(rest[i - 1] == s[i]);
            }
        }
    }
}

/// A line that was read from a text without a newline reads back: what
/// was read once is read again from what is written.
pub proof fn lemma_parsed_line_reads_back(chars: Seq<char>)
    requires
        newline_free(chars),
        parse_line(chars) is Some,
    ensures
        reads_back(parse_line(chars)->Some_0),
        parse_line(line_text(parse_line(chars)->Some_0)) == parse_line(chars),
{
    let inner = trim_start(chars);
    let t = trim(chars);
    let k = first_whitespace(t);
    let line = parse_line(chars)->Some_0;
    lemma_trim_start(chars);
    lemma_trim_end(inner);
    lemma_first_whitespace(t);
    assert(t.len() > 0);
    assert(!is_whitespace(t[0]));
    assert(k > 0);
    assert(is_whitespace(t[k]));
    assert(k + 1 < t.len());
    assert(line.address =~= t.take(k));
    assert(line.hostname =~= t.skip(k + 1));
    assert(line.hostname.last() == t.last());
    assert forall|i: int| 0 <= i < line.hostname.len() implies (#[trigger] line.hostname[i])
        != '\n' by {
        assert(line.hostname[i] == t[k + 1 + i]);
    }
    lemma_line_reads_back(line);
}

/// The text of a line that reads back holds no newline.
pub proof fn lemma_line_newline_free(line: TableLineView)
    requires
        reads_back(line),
    ensures
        newline_free(line_text(line)),
{
    let text = line_text(line);
    assert forall|i: int| 0 <= i < text.len() implies (#[trigger] text[i]) != '\n' by {
        if i < line.address.len() {
            assert(text[i] == line.address[i]);
            assert(!is_whitespace(line.address[i]));
        } else if i > line.address.len() {
            assert(text[i] == line.hostname[i - line.address.len() - 1]);
        }
    }
}

/// The pieces of a written table are the encoded texts of its lines.
pub proof fn lemma_split_rendered(lines: Seq<TableLineView>)
    requires
        lines.len() > 0,
        forall|i: int| 0 <= i < lines.len() ==> reads_back(#[trigger] lines[i]),
    ensures
        split_lines(encode_utf8(render(lines))) == encoded_lines(lines),
    decreases lines.len(),
{
    let last = line_text(lines.last());
    lemma_line_newline_free(lines.last());
    lemma_encode_newline_free(last);
    if lines.len() == 1 {
        lemma_split_one_piece(encode_utf8(last));
        assert(seq![encode_utf8(last)] =~= encoded_lines(lines));
    } else {
        let front = lines.drop_last();
        assert forall|i: int| 0 <= i < front.len() implies reads_back(#[trigger] front[i]) by {
            assert(front[i] == lines[i]);
        }
        lemma_split_rendered(front);
        let head = render(front);
        lemma_encode_concat(head.push('\n'), last);
        assert(head.push('\n') =~= head + seq!['\n']);
        lemma_encode_concat(head, seq!['\n']);
        lemma_scalar_newline('\n');
        let newline = seq!['\n'];
        assert(newline[0] == '\n');
        assert(newline.drop_first() =~= Seq::<char>::empty());
        assert(encode_utf8(newline.drop_first()) =~= Seq::<u8>::empty());
        assert(encode_utf8(newline) =~= seq![0x0au8]);
        assert(encode_utf8(head) + seq![0x0au8] =~= encode_utf8(head).push(0x0a));
        lemma_split_next_piece(encode_utf8(head), encode_utf8(last));
        assert(encoded_lines(front).push(encode_utf8(last)) =~= encoded_lines(lines));
    }
}

/// The encoded texts of lines that read back are read as those lines.
pub proof fn lemma_data_lines_encoded(lines: Seq<TableLineView>)
    requires
        forall|i: int| 0 <= i < lines.len() ==> reads_back(#[trigger] lines[i]),
    ensures
        data_lines(encoded_lines(lines)) == lines,
    decreases lines.len(),
{
    if lines.len() == 0 {
        assert(data_lines(encoded_lines(lines)) =~= lines);
    } else {
        let front = lines.drop_last();
        assert forall|i: int| 0 <= i < front.len() implies reads_back(#[trigger] front[i]) by {
            assert(front[i] == lines[i]);
        }
        lemma_data_lines_encoded(front);
        assert(encoded_lines(lines).drop_last() =~= encoded_lines(front));
        let text = line_text(lines.last());
        encode_utf8_valid_utf8(text);
        encode_utf8_decode_utf8(text);
        assert(decoded_text(encode_utf8(text)) == text);
        lemma_line_reads_back(lines.last());
        assert(front.push(lines.last()) =~= lines);
    }
}

/// A written table is read back as the lines that were written, so that
/// writing what was read gives the same text again. This holds of lines
/// that read back; a host name with a newline in it, for one, does not.
pub proof fn lemma_round_trip(lines: Seq<TableLineView>)
    requires
        forall|i: int| 0 <= i < lines.len() ==> reads_back(#[trigger] lines[i]),
    ensures
        parse_table(encode_utf8(render(lines))) == lines,
        render(parse_table(encode_utf8(render(lines)))) == render(lines),
{
    if lines.len() == 0 {
        let none = Seq::<u8>::empty();
        assert(encode_utf8(render(lines)) =~= none);
        assert(split_lines(none) =~= seq![none]);
        assert(seq![none].drop_last() =~= Seq::<Seq<u8>>::empty());
        encode_utf8_valid_utf8(Seq::<char>::empty());
        encode_utf8_decode_utf8(Seq::<char>::empty());
        assert(encode_utf8(Seq::<char>::empty()) =~= none);
        assert(decoded_text(none) == Seq::<char>::empty());
        assert(trim(Seq::<char>::empty()) == Seq::<char>::empty());
        assert(parse_line(Seq::<char>::empty()) is None);
        let pieces = seq![none];
        assert(pieces.last() == none);
        assert(data_lines(pieces.drop_last()) =~= Seq::<TableLineView>::empty());
        assert(data_lines(pieces) =~= lines);
    } else {
        lemma_split_rendered(lines);
        lemma_data_lines_encoded(lines);
    }
}

} // verus!
