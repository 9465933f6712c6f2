//! The text form of a host table. It is written as lines of an address
//! token, one space and a host name. It is read more leniently: comment
//! lines and blank lines may stand in between, and any whitespace character
//! may follow the address token.

use vstd::prelude::*;
use vstd::slice::slice_subrange;
use vstd::std_specs::iter::IteratorSpec;
use vstd::utf8::{decode_utf8, valid_utf8};

verus! {

/// The text that `String::from_utf8_lossy` decodes a byte sequence to.
pub uninterp spec fn utf8_lossy(bytes: Seq<u8>) -> Seq<char>;

/// The text of a byte sequence under lenient decoding: valid UTF-8 stands
/// for the characters it encodes, anything else for what the lenient
/// decoder makes of it.
pub open spec fn decoded_text(bytes: Seq<u8>) -> Seq<char> {
    if valid_utf8(bytes) {
        decode_utf8(bytes)
    } else {
        utf8_lossy(bytes)
    }
}

/// `String::from_utf8_lossy`: decodes bytes as UTF-8 and puts U+FFFD in
/// place of what is not valid. The contract says that valid UTF-8 decodes
/// to the characters it encodes, and only names the result for other input.
#[verifier::external_body]
fn decode_lossy(bytes: &[u8]) -> (text: String)
    ensures
        valid_utf8(bytes@) ==> text@ == decode_utf8(bytes@),
        !valid_utf8(bytes@) ==> text@ == utf8_lossy(bytes@),
{
    String::from_utf8_lossy(bytes).into_owned()
}

/// `String::push` appends one character to the end of the string.
pub assume_specification[ String::push ](s: &mut String, ch: char)
    ensures
        final(s)@ == old(s)@.push(ch),
;

/// One data line of a host table, as text.
#[derive(Clone, Debug, PartialEq, Eq)]
pub struct TableLine {
    pub address: String,
    pub hostname: String,
}

/// What a `TableLine` holds.
pub struct TableLineView {
    pub address: Seq<char>,
    pub hostname: Seq<char>,
}

impl View for TableLine {
    type V = TableLineView;

    open spec fn view(&self) -> TableLineView {
        TableLineView { address: self.address@, hostname: self.hostname@ }
    }
}

/// The views of a sequence of lines.
pub open spec fn lines_view(lines: Seq<TableLine>) -> Seq<TableLineView> {
    Seq::new(lines.len(), |i: int| lines[i]@)
}

/// The characters with the Unicode property `White_Space`.
pub open spec fn is_whitespace(c: char) -> bool {
    let u = c as u32;
    ||| 0x9 <= u <= 0xd
    ||| u == 0x20
    ||| u == 0x85
    ||| u == 0xa0
    ||| u == 0x1680
    ||| 0x2000 <= u <= 0x200a
    ||| u == 0x2028
    ||| u == 0x2029
    ||| u == 0x202f
    ||| u == 0x205f
    ||| u == 0x3000
}

/// A text without its leading whitespace.
pub open spec fn trim_start(s: Seq<char>) -> Seq<char>
    decreases s.len(),
{
    if s.len() > 0 && is_whitespace(s[0]) {
        trim_start(s.drop_first())
    } else {
        s
    }
}

/// A text without its trailing whitespace.
pub open spec fn trim_end(s: Seq<char>) -> Seq<char>
    decreases s.len(),
{
    if s.len() > 0 && is_whitespace(s.last()) {
        trim_end(s.drop_last())
    } else {
        s
    }
}

/// A text without the whitespace around it.
pub open spec fn trim(s: Seq<char>) -> Seq<char> {
    trim_end(trim_start(s))
}

/// The index of the first whitespace character of a text, or its length
/// where it has none.
pub open spec fn first_whitespace(s: Seq<char>) -> int
    decreases s.len(),
{
    if s.len() == 0 || is_whitespace(s[0]) {
        0
    } else {
        1 + first_whitespace(s.drop_first())
    }
}

/// What one line of the table says, once the whitespace around it is gone:
/// nothing for a comment, a blank line or a line without whitespace in it;
/// else the text before the first whitespace character as the address and
/// all that follows that character as the host name.
pub open spec fn parse_line(chars: Seq<char>) -> Option<TableLineView> {
    let t = trim(chars);
    let k = first_whitespace(t);
    if (t.len() > 0 && t[0] == '#') || k >= t.len() {
        None
    } else {
        Some(TableLineView { address: t.take(k), hostname: t.skip(k + 1) })
    }
}

/// The pieces between the newline bytes of a table. There is always at
/// least one; a table that ends in a newline has an empty last piece.
pub open spec fn split_lines(bytes: Seq<u8>) -> Seq<Seq<u8>>
    decreases bytes.len(),
{
    if bytes.len() == 0 {
        seq![Seq::empty()]
    } else {
        let front = split_lines(bytes.drop_last());
        if bytes.last() == 0x0a {
            front.push(Seq::empty())
        } else {
            front.update(front.len() - 1, front.last().push(bytes.last()))
        }
    }
}

/// The data lines among the given pieces, in their order.
pub open spec fn data_lines(pieces: Seq<Seq<u8>>) -> Seq<TableLineView>
    decreases pieces.len(),
{
    if pieces.len() == 0 {
        Seq::empty()
    } else {
        let front = data_lines(pieces.drop_last());
        match parse_line(decoded_text(pieces.last())) {
            Some(line) => front.push(line),
            None => front,
        }
    }
}

/// The data lines of a table.
pub open spec fn parse_table(bytes: Seq<u8>) -> Seq<TableLineView> {
    data_lines(split_lines(bytes))
}

/// The text of one line: address, one space, host name.
pub open spec fn line_text(line: TableLineView) -> Seq<char> {
    line.address.push(' ') + line.hostname
}

/// The text of a table: its lines joined by newlines, with none at the end.
pub open spec fn render(lines: Seq<TableLineView>) -> Seq<char>
    decreases lines.len(),
{
    if lines.len() == 0 {
        Seq::empty()
    } else if lines.len() == 1 {
        line_text(lines[0])
    } else {
        render(lines.drop_last()).push('\n') + line_text(lines.last())
    }
}

/// Whether a character is whitespace.
pub fn is_space(c: char) -> (b: bool)
    ensures
        b == is_whitespace(c),
{
    let u: u32 = c as u32;
    (0x9 <= u && u <= 0xd) || u == 0x20 || u == 0x85 || u == 0xa0 || u == 0x1680 || (0x2000 <= u
        && u <= 0x200a) || u == 0x2028 || u == 0x2029 || u == 0x202f || u == 0x205f || u == 0x3000
}

/// The characters of a text.
fn chars_of(text: &str) -> (out: Vec<char>)
    ensures
        out@ == text@,
{
    broadcast use vstd::string::group_string_axioms;

    let mut it = text.chars();
    let mut out: Vec<char> = Vec::new();
    loop
        invariant
            out@ + it.remaining() == text@,
        ensures
            out@ == text@,
        decreases text@.len() - out@.len(),
    {
        let ghost before = it;
        match it.next() {
            Some(c) => {
                proof {
                    assert(out@.push(c) + it.remaining() =~= out@ + before.remaining());
                }
                out.push(c);
            },
            None => {
                proof {
                    assert(out@ + it.remaining() =~= out@);
                }
                break ;
            },
        }
    }
    out
}

/// The text made of the given characters.
fn text_of(chars: &[char]) -> (text: String)
    ensures
        text@ == chars@,
{
    let mut text = String::new();
    let mut i: usize = 0;
    while i < chars.len()
        invariant
            i <= chars.len(),
            text@ == chars@.take(i as int),
        decreases chars.len() - i,
    {
        proof {
            assert(chars@.take(i + 1) =~= chars@.take(i as int).push(chars@[i as int]));
        }
        text.push(chars[i]);
        i += 1;
    }
    proof {
        assert(chars@.take(chars.len() as int) =~= chars@);
    }
    text
}

/// The part of a text that is left when the whitespace around it is gone.
pub fn trimmed(chars: &[char]) -> (out: &[char])
    ensures
        out@ == trim(chars@),
{
    let n = chars.len();
    let mut a: usize = 0;
    proof {
        assert(chars@.skip(0) =~= chars@);
    }
    while a < n && is_space(chars[a])
        invariant
            a <= n == chars.len(),
            trim_start(chars@) == trim_start(chars@.skip(a as int)),
        decreases n - a,
    {
        proof {
            assert(chars@.skip(a as int).drop_first() =~= chars@.skip(a + 1));
        }
        a += 1;
    }
    let mut b: usize = n;
    proof {
        assert(chars@.subrange(a as int, n as int) =~= chars@.skip(a as int));
    }
    while b > a && is_space(chars[b - 1])
        invariant
            a <= b <= n == chars.len(),
            trim(chars@) == trim_end(chars@.subrange(a as int, b as int)),
        decreases b,
    {
        proof {
            assert(chars@.subrange(a as int, b as int).drop_last() =~= chars@.subrange(
                a as int,
                b - 1,
            ));
        }
        b -= 1;
    }
    slice_subrange(chars, a, b)
}

/// Where the first whitespace character of a text stands, or the text's
/// length.
pub fn find_whitespace(chars: &[char]) -> (k: usize)
    ensures
        k == first_whitespace(chars@),
        k <= chars.len(),
{
    let mut k: usize = 0;
    proof {
        assert(chars@.skip(0) =~= chars@);
    }
    while k < chars.len() && !is_space(chars[k])
        invariant
            k <= chars.len(),
            first_whitespace(chars@) == k + first_whitespace(chars@.skip(k as int)),
        decreases chars.len() - k,
    {
        proof {
            assert(chars@.skip(k as int).drop_first() =~= chars@.skip(k + 1));
        }
        k += 1;
    }
    k
}

/// Reads one line of the table, already decoded to characters.
pub fn read_line(chars: &[char]) -> (out: Option<TableLine>)
    ensures
        out.is_some() == parse_line(chars@).is_some(),
        out matches Some(line) ==> line@ == parse_line(chars@).unwrap(),
{
    let t = trimmed(chars);
    if t.len() > 0 && t[0] == '#' {
        return None;
    }
    let k = find_whitespace(t);
    if k >= t.len() {
        return None;
    }
    let address = text_of(slice_subrange(t, 0, k));
    let hostname = text_of(slice_subrange(t, k + 1, t.len()));
    Some(TableLine { address, hostname })
}

/// Decodes one piece of the table and appends the line it holds, if any.
fn read_piece(piece: &[u8], out: &mut Vec<TableLine>)
    ensures
        lines_view(final(out)@) == match parse_line(decoded_text(piece@)) {
            Some(line) => lines_view(old(out)@).push(line),
            None => lines_view(old(out)@),
        },
{
    let text = decode_lossy(piece);
    let chars = chars_of(text.as_str());
    match read_line(chars.as_slice()) {
        Some(line) => {
            proof {
                assert(lines_view(out@.push(line)) =~= lines_view(out@).push(line@));
            }
            out.push(line);
        },
        None => {},
    }
}

/// Reads a host table: splits it at the newline bytes, decodes each piece
/// leniently, drops comments, blank lines and lines without whitespace in
/// them, and splits every other line at its first whitespace character.
pub fn parse_lines(data: &[u8]) -> (out: Vec<TableLine>)
    ensures
        lines_view(out@) == parse_table(data@),
{
    let mut out: Vec<TableLine> = Vec::new();
    let mut start: usize = 0;
    let mut i: usize = 0;
    proof {
        assert(data@.take(0).len() == 0);
        assert(data@.subrange(0, 0) =~= Seq::<u8>::empty());
        assert(split_lines(data@.take(0)).drop_last() =~= Seq::<Seq<u8>>::empty());
        assert(lines_view(out@) =~= Seq::<TableLineView>::empty());
    }
    while i < data.len()
        invariant
            start <= i <= data.len(),
            split_lines(data@.take(i as int)).len() >= 1,
            split_lines(data@.take(i as int)).last() == data@.subrange(start as int, i as int),
            lines_view(out@) == data_lines(split_lines(data@.take(i as int)).drop_last()),
        decreases data.len() - i,
    {
        let ghost pieces = split_lines(data@.take(i as int));
        proof {
            assert(data@.take(i + 1).drop_last() =~= data@.take(i as int));
            assert(data@.take(i + 1).last() == data@[i as int]);
        }
        if data[i] == 0x0a {
            read_piece(slice_subrange(data, start, i), &mut out);
            start = i + 1;
            proof {
                assert(pieces.push(Seq::empty()).drop_last() =~= pieces);
                assert(data@.subrange(start as int, start as int) =~= Seq::<u8>::empty());
            }
        } else {
            proof {
                let next = pieces.update(pieces.len() - 1, pieces.last().push(data@[i as int]));
                assert(next.drop_last() =~= pieces.drop_last());
                assert(data@.subrange(start as int, i + 1) =~= pieces.last().push(data@[i as int]));
            }
        }
        i += 1;
    }
    proof {
        assert(data@.take(data.len() as int) =~= data@);
    }
    read_piece(slice_subrange(data, start, i), &mut out);
    out
}

/// Writes a table: one line for each entry, address, space and host name,
/// with a newline between two lines and none at the end.
pub fn serialize(lines: &Vec<TableLine>) -> (text: String)
    ensures
        text@ == render(lines_view(lines@)),
{
    let mut text = String::new();
    let mut i: usize = 0;
    while i < lines.len()
        invariant
            i <= lines.len(),
            text@ == render(lines_view(lines@).take(i as int)),
        decreases lines.len() - i,
    {
        proof {
            let all = lines_view(lines@);
            assert(all.take(i + 1).drop_last() =~= all.take(i as int));
            assert(all.take(i + 1).last() == lines@[i as int]@);
            if i == 0 {
                assert(Seq::<char>::empty() + line_text(all[0]) =~= line_text(all[0]));
                assert(all.take(1)[0] == all[0]);
            }
        }
        if i > 0 {
            text.push('\n');
        }
        let ghost head = text@;
        text.append(lines[i].address.as_str());
        text.push(' ');
        text.append(lines[i].hostname.as_str());
        proof {
            assert(text@ =~= head + line_text(lines@[i as int]@));
        }
        i += 1;
    }
    proof {
        assert(lines_view(lines@).take(lines.len() as int) =~= lines_view(lines@));
    }
    text
}

} // verus!
