//! The reader of course sources. A source is a run of bytes: lines of UTF-8
//! text, each a row of fields set apart by commas. A byte-order mark may
//! stand before the first line.

use crate::text::chars_of;
use crate::text::texts;
use crate::text::trim;
use crate::text::trimmed;
use vstd::prelude::*;
use vstd::string::StringSliceAdditionalSpecFns;
use vstd::utf8::decode_utf8;
use vstd::utf8::valid_utf8;

verus! {

/// The byte that ends a line.
pub const LINE_FEED: u8 = 10;

/// The character that sets one field apart from the next.
pub const COMMA: char = ',';

/// The number of bytes of a byte-order mark.
pub const MARK_LENGTH: usize = 3;

/// The source begins with the byte-order mark of UTF-8.
pub open spec fn has_mark(source: Seq<u8>) -> bool {
    &&& source.len() >= MARK_LENGTH
    &&& source[0] == 0xEF
    &&& source[1] == 0xBB
    &&& source[2] == 0xBF
}


/// The pieces that `mark` cuts `items` into, read from the left: each item
/// that is not `mark` lengthens the last piece, and each `mark` ends it and
/// opens a new, empty one. There is always at least one piece.
pub open spec fn split_on<A>(items: Seq<A>, mark: A) -> Seq<Seq<A>>
    decreases items.len(),
{
    if items.len() == 0 {
        seq![Seq::empty()]
    } else {
        let before = split_on(items.drop_last(), mark);
        if items.last() == mark {
            before.push(Seq::empty())
        } else {
            before.drop_last().push(before.last().push(items.last()))
        }
    }
}

/// The fields of a line: what its commas set apart.
pub open spec fn fields_of(line: Seq<char>) -> Seq<Seq<char>> {
    split_on(line, COMMA)
}

/// The lines of a text: what its line feeds set apart, without the empty
/// piece behind the last line feed.
pub open spec fn lines_of(bytes: Seq<u8>) -> Seq<Seq<u8>> {
    let pieces = split_on(bytes, LINE_FEED);
    if pieces.last().len() == 0 {
        pieces.drop_last()
    } else {
        pieces
    }
}

/// The text of a source: the source without the byte-order mark that it
/// may begin with.
pub open spec fn content_of(source: Seq<u8>) -> Seq<u8> {
    if has_mark(source) {
        source.skip(MARK_LENGTH as int)
    } else {
        source
    }
}

/// The row that a line gives: the fields of its text without the white
/// space at its ends. A line that is not UTF-8 gives none.
pub open spec fn row_of(line: Seq<u8>) -> Option<Seq<Seq<char>>> {
    if valid_utf8(line) {
        Some(fields_of(trimmed(decode_utf8(line))))
    } else {
        None
    }
}

/// The rows that lines give, in their order.
pub open spec fn rows_of_lines(lines: Seq<Seq<u8>>) -> Seq<Seq<Seq<char>>>
    decreases lines.len(),
{
    if lines.len() == 0 {
        Seq::empty()
    } else {
        let before = rows_of_lines(lines.drop_last());
        match row_of(lines.last()) {
            Some(row) => before.push(row),
            None => before,
        }
    }
}

/// The rows of a source.
pub open spec fn rows_of(source: Seq<u8>) -> Seq<Seq<Seq<char>>> {
    rows_of_lines(lines_of(content_of(source)))
}

/// What a sequence of rows holds: the texts of each.
pub open spec fn rows_view(rows: Seq<Vec<String>>) -> Seq<Seq<Seq<char>>> {
    Seq::new(rows.len(), |i: int| texts(rows[i]@))
}


/// How the pieces of the first `upto + 1` items follow from those of the
/// first `upto`, where the last of these begins at `from`.
pub proof fn lemma_split_on_step<A>(
    items: Seq<A>,
    mark: A,
    done: Seq<Seq<A>>,
    from: int,
    upto: int,
)
    requires
        0 <= from <= upto < items.len(),
        split_on(items.take(upto), mark) == done.push(items.subrange(from, upto)),
    ensures
        items[upto] == mark ==> split_on(items.take(upto + 1), mark) == done.push(
            items.subrange(from, upto),
        ).push(items.subrange(upto + 1, upto + 1)),
        items[upto] != mark ==> split_on(items.take(upto + 1), mark) == done.push(
            items.subrange(from, upto + 1),
        ),
{
    let longer = items.take(upto + 1);
    assert(longer.drop_last() =~= items.take(upto));
    assert(longer.last() == items[upto]);
    let before = split_on(items.take(upto), mark);
    assert(before.drop_last() =~= done);
    assert(before.last() == items.subrange(from, upto));
    assert(items.subrange(upto + 1, upto + 1) =~= Seq::<A>::empty());
    assert(items.subrange(from, upto).push(items[upto]) =~= items.subrange(from, upto + 1));
}

/// Pieces put back in a row, with `mark` between each two.
pub open spec fn rejoined<A>(pieces: Seq<Seq<A>>, mark: A) -> Seq<A>
    decreases pieces.len(),
{
    if pieces.len() == 0 {
        Seq::empty()
    } else if pieces.len() == 1 {
        pieces[0]
    } else {
        rejoined(pieces.drop_last(), mark) + seq![mark] + pieces.last()
    }
}

/// No piece holds `mark`.
pub open spec fn free_of<A>(pieces: Seq<Seq<A>>, mark: A) -> bool {
    forall|i: int, j: int|
        0 <= i < pieces.len() && 0 <= j < pieces[i].len() ==> #[trigger] pieces[i][j] != mark
}

/// Cutting at `mark` loses nothing: there is at least one piece, no piece
/// holds `mark`, and the pieces put back with `mark` between them are what
/// was cut.
pub proof fn lemma_split_on_rejoins<A>(items: Seq<A>, mark: A)
    ensures
        split_on(items, mark).len() >= 1,
        free_of(split_on(items, mark), mark),
        rejoined(split_on(items, mark), mark) == items,
    decreases items.len(),
{
    let pieces = split_on(items, mark);
    if items.len() == 0 {
        assert(rejoined(pieces, mark) =~= items);
    } else {
        let front = items.drop_last();
        let before = split_on(front, mark);
        lemma_split_on_rejoins(front, mark);
        if items.last() == mark {
            assert(pieces.drop_last() =~= before);
            assert(rejoined(pieces, mark) =~= items);
            assert forall|i: int, j: int|
                0 <= i < pieces.len() && 0 <= j < pieces[i].len() implies #[trigger] pieces[i][j]
                != mark by {
                assert(pieces[i] == before[i]);
                assert(before[i][j] != mark);
            }
        } else {
            if before.len() == 1 {
                assert(rejoined(pieces, mark) =~= items);
            } else {
                assert(pieces.drop_last() =~= before.drop_last());
                assert(rejoined(before, mark) == rejoined(before.drop_last(), mark) + seq![mark]
                    + before.last());
                assert(front.push(items.last()) =~= items);
                assert(rejoined(pieces, mark) =~= items);
            }
            assert forall|i: int, j: int|
                0 <= i < pieces.len() && 0 <= j < pieces[i].len() implies #[trigger] pieces[i][j]
                != mark by {
                if i < before.len() - 1 {
                    assert(pieces[i] == before[i]);
                    assert(before[i][j] != mark);
                } else if j < before.last().len() {
                    assert(pieces[i][j] == before[before.len() - 1][j]);
                }
            }
        }
    }
}

/// Cutting what lies behind a `mark` free of marks adds that as one piece.
proof fn lemma_split_on_last_piece<A>(front: Seq<A>, mark: A, last: Seq<A>)
    requires
        forall|j: int| 0 <= j < last.len() ==> #[trigger] last[j] != mark,
    ensures
        split_on(front + seq![mark] + last, mark) == split_on(front, mark).push(last),
    decreases last.len(),
{
    let whole = front + seq![mark] + last;
    if last.len() == 0 {
        assert(whole.drop_last() =~= front);
        assert(last =~= Seq::<A>::empty());
    } else {
        let shorter = last.drop_last();
        lemma_split_on_last_piece(front, mark, shorter);
        assert(whole.drop_last() =~= front + seq![mark] + shorter);
        assert(whole.last() == last.last());
        let before = split_on(front, mark).push(shorter);
        assert(before.drop_last() =~= split_on(front, mark));
        assert(shorter.push(last.last()) =~= last);
    }
}

/// There is one way only to cut at `mark`: whatever pieces, at least one
/// and none with `mark` in it, give the items when they are put back, are
/// the pieces that `split_on` gives.
pub proof fn lemma_split_on_is_unique<A>(pieces: Seq<Seq<A>>, mark: A)
    requires
        pieces.len() >= 1,
        free_of(pieces, mark),
    ensures
        split_on(rejoined(pieces, mark), mark) == pieces,
    decreases pieces.len(),
{
    let last = pieces.last();
    assert forall|j: int| 0 <= j < last.len() implies #[trigger] last[j] != mark by {
        assert(pieces[pieces.len() - 1][j] != mark);
    }
    if pieces.len() == 1 {
        lemma_split_on_unmarked(last, mark);
        assert(pieces =~= seq![last]);
    } else {
        let front = pieces.drop_last();
        assert(free_of(front, mark)) by {
            assert forall|i: int, j: int|
                0 <= i < front.len() && 0 <= j < front[i].len() implies #[trigger] front[i][j]
                != mark by {
                assert(pieces[i][j] != mark);
            }
        }
        lemma_split_on_is_unique(front, mark);
        lemma_split_on_last_piece(rejoined(front, mark), mark, last);
        assert(front.push(last) =~= pieces);
    }
}

/// Items without a `mark` among them are one piece.
proof fn lemma_split_on_unmarked<A>(items: Seq<A>, mark: A)
    requires
        forall|j: int| 0 <= j < items.len() ==> #[trigger] items[j] != mark,
    ensures
        split_on(items, mark) == seq![items],
    decreases items.len(),
{
    if items.len() > 0 {
        let front = items.drop_last();
        lemma_split_on_unmarked(front, mark);
        let before = split_on(front, mark);
        assert(before.drop_last().push(before.last().push(items.last())) =~= seq![items]) by {
            assert(front.push(items.last()) =~= items);
        }
    } else {
        assert(items =~= Seq::<A>::empty());
    }
}

/// The name of the source that a parser reads.
pub struct Parser {
    filename: String,
}

impl View for Parser {
    type V = Seq<char>;

    /// The name of the source.
    closed spec fn view(&self) -> Seq<char> {
        self.filename@
    }
}

impl Parser {
    /// A parser for the source named `filename`.
    pub fn new(filename: &str) -> (parser: Self)
        ensures
            parser@ == filename@,
    {
        Parser { filename: filename.to_owned() }
    }

    /// The name of the source.
    pub fn filename(&self) -> (name: &str)
        ensures
            name@ == self@,
    {
        self.filename.as_str()
    }
}

/// Cuts a text into its fields at each comma. A text without a comma is one
/// field, and so is the empty text.
pub fn split_fields(text: &str) -> (fields: Vec<String>)
    ensures
        texts(fields@) == fields_of(text@),
        fields@.len() >= 1,
{
    let chars = chars_of(text);
    let end = chars.len();
    let ghost body = chars@;
    let mut fields: Vec<String> = Vec::new();
    let mut from: usize = 0;
    let mut at: usize = 0;
    assert(split_on(body.take(0), COMMA) =~= texts(fields@).push(body.subrange(0, 0))) by {
        assert(body.take(0) =~= Seq::<char>::empty());
        assert(texts(fields@).push(body.subrange(0, 0)) =~= seq![Seq::<char>::empty()]);
    }
    while at < end
        invariant
            from <= at <= end,
            end == chars@.len(),
            body == chars@,
            body == text@,
            split_on(body.take(at as int), COMMA) == texts(fields@).push(
                body.subrange(from as int, at as int),
            ),
        decreases end - at,
    {
        proof {
            lemma_split_on_step(body, COMMA, texts(fields@), from as int, at as int);
        }
        if chars[at] == COMMA {
            let ghost before = texts(fields@);
            let field = text.substring_char(from, at);
            fields.push(field.to_owned());
            from = at + 1;
            proof {
                assert(texts(fields@) =~= before.push(field@));
            }
        }
        at += 1;
    }
    let ghost before = texts(fields@);
    let field = text.substring_char(from, end);
    fields.push(field.to_owned());
    proof {
        assert(body.take(end as int) =~= body);
        assert(texts(fields@) =~= before.push(field@));
    }
    fields
}

/// Splits a line into its fields: drops the white space at the two ends of
/// the line, then cuts at each comma. White space around a comma stays in
/// the fields beside it.
pub fn parse_line(line: &str) -> (fields: Vec<String>)
    ensures
        texts(fields@) == fields_of(trimmed(line@)),
        fields@.len() >= 1,
{
    split_fields(trim(line))
}

/// Reads bytes as UTF-8 text. This is `core::str::from_utf8`, which is
/// believed, not proved, to do what its documentation says: it accepts the
/// bytes exactly when they are valid UTF-8, and the text it then returns is
/// made of those same bytes.
#[verifier::external_body]
fn text_of<'a>(bytes: &'a [u8]) -> (text: Option<&'a str>)
    ensures
        text is Some <==> valid_utf8(bytes@),
        text matches Some(t) ==> t.spec_bytes() == bytes@,
{
    core::str::from_utf8(bytes).ok()
}

/// Reads one line of a source as a row of fields. A line that is not valid
/// UTF-8 cannot be read and gives no row.
pub fn parse_raw_line(line: &[u8]) -> (row: Option<Vec<String>>)
    ensures
        match row {
            Some(fields) => row_of(line@) == Some(texts(fields@)),
            None => row_of(line@) is None,
        },
{
    match text_of(line) {
        Some(text) => {
            proof {
                vstd::utf8::encode_utf8_decode_utf8(text@);
            }
            Some(parse_line(text))
        },
        None => None,
    }
}

/// Reads a source as rows of fields: passes over the byte-order mark if
/// the source begins with one, cuts what follows into lines at each line
/// feed, and reads each line as a row. A line that cannot be read is left
/// out. A source that holds nothing, or nothing but the mark, has no rows.
pub fn parse_source(source: &[u8]) -> (rows: Vec<Vec<String>>)
    ensures
        rows_view(rows@) == rows_of(source@),
{
    let length = source.len();
    let mut rows: Vec<Vec<String>> = Vec::new();
    let start: usize = if length >= MARK_LENGTH && source[0] == 0xEF && source[1] == 0xBB
        && source[2] == 0xBF {
        MARK_LENGTH
    } else {
        0
    };
    let ghost content = content_of(source@);
    assert(content =~= source@.skip(start as int));
    let ghost mut done: Seq<Seq<u8>> = Seq::empty();
    let mut from: usize = start;
    let mut at: usize = start;
    proof {
        assert(content.take(0) =~= Seq::<u8>::empty());
        assert(done.push(content.subrange(0, 0)) =~= seq![Seq::<u8>::empty()]);
        assert(rows_view(rows@) =~= rows_of_lines(done));
    }
    while at < length
        invariant
            start <= from <= at <= length,
            length == source@.len(),
            content == source@.skip(start as int),
            split_on(content.take(at - start), LINE_FEED) == done.push(
                content.subrange(from - start, at - start),
            ),
            rows_view(rows@) == rows_of_lines(done),
        decreases length - at,
    {
        proof {
            lemma_split_on_step(content, LINE_FEED, done, from - start, at - start);
        }
        if source[at] == LINE_FEED {
            let ghost before = rows_view(rows@);
            let line = &source[from..at];
            assert(line@ =~= content.subrange(from - start, at - start));
            match parse_raw_line(line) {
                Some(row) => {
                    rows.push(row);
                    assert(rows_view(rows@) =~= before.push(texts(row@)));
                },
                None => {},
            }
            proof {
                let longer = done.push(line@);
                assert(longer.drop_last() =~= done);
                done = longer;
            }
            from = at + 1;
        }
        at += 1;
    }
    proof {
        assert(content.take(length - start) =~= content);
    }
    if from < length {
        let ghost before = rows_view(rows@);
        let line = &source[from..length];
        assert(line@ =~= content.subrange(from - start, length - start));
        match parse_raw_line(line) {
            Some(row) => {
                rows.push(row);
                assert(rows_view(rows@) =~= before.push(texts(row@)));
            },
            None => {},
        }
        proof {
            let longer = done.push(line@);
            assert(longer.drop_last() =~= done);
            assert(lines_of(content) == longer);
        }
    } else {
        proof {
            let pieces = done.push(content.subrange(from - start, length - start));
            assert(pieces.drop_last() =~= done);
            assert(lines_of(content) == done);
        }
    }
    rows
}

} // verus!
