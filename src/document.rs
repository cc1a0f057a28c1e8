//! A document as a sequence of lines, each holding its text and the color
//! literals found in it, kept in step with editor changes.
use crate::color::{lemma_colors_cr, lemma_colors_relined, line_colors, parse_line_colors, with_line};
use crate::text::{
    char_index_at, lemma_segments_len, pieces, segments, split_at_char, split_lines, text_lines,
    text_pieces, utf16_to_byte_index, views,
};
use crate::types::{ColorInformation, Position, Range, TextDocumentContentChangeEvent};
use vstd::prelude::*;

verus! {

/// The color literals of a document whose lines are `texts`, in line order.
pub open spec fn document_colors(texts: Seq<Seq<char>>) -> Seq<ColorInformation>
    decreases texts.len(),
{
    if texts.len() == 0 {
        Seq::empty()
    } else {
        document_colors(texts.drop_last()) + line_colors(texts.last(), texts.len() - 1)
    }
}

/// The text of a document whose lines are `texts`: the lines with '\n' between them.
pub open spec fn join_lines(texts: Seq<Seq<char>>) -> Seq<char>
    decreases texts.len(),
{
    if texts.len() == 0 {
        Seq::empty()
    } else if texts.len() == 1 {
        texts[0]
    } else {
        join_lines(texts.drop_last()) + seq!['\n'] + texts.last()
    }
}

/// `texts` with empty lines added until `line` is one of its lines.
pub open spec fn padded(texts: Seq<Seq<char>>, line: int) -> Seq<Seq<char>> {
    if line < texts.len() {
        texts
    } else {
        texts + Seq::new((line + 1 - texts.len()) as nat, |_i: int| Seq::<char>::empty())
    }
}

/// The lines that replace an edited range: the pieces of `new_text`, with
/// `prefix` before the first and `suffix` after the last (one line
/// `prefix + suffix` where `new_text` is empty).
pub open spec fn spliced_lines(prefix: Seq<char>, new_text: Seq<char>, suffix: Seq<char>) -> Seq<
    Seq<char>,
> {
    let p = pieces(new_text);
    let q = p.update(0, prefix + p[0]);
    q.update(q.len() - 1, q.last() + suffix)
}

/// The lines of a document whose lines were `texts`, after the range `r` is
/// replaced by `new_text`.
pub open spec fn range_edited(texts: Seq<Seq<char>>, r: Range, new_text: Seq<char>) -> Seq<
    Seq<char>,
> {
    let p = padded(texts, r.end.line as int);
    let first = p[r.start.line as int];
    let last = p[r.end.line as int];
    let prefix = first.take(char_index_at(first, r.start.character as int));
    let suffix = last.skip(char_index_at(last, r.end.character as int));
    p.take(r.start.line as int) + spliced_lines(prefix, new_text, suffix) + p.skip(r.end.line + 1)
}

/// The lines of a document whose lines were `texts`, after `change`.
pub open spec fn edited_texts(texts: Seq<Seq<char>>, change: TextDocumentContentChangeEvent) -> Seq<
    Seq<char>,
> {
    match change.range {
        None => split_lines(change.text@),
        Some(r) => range_edited(texts, r, change.text@),
    }
}

/// What `edit` asks of a change: a range that does not end before the line it
/// starts on, and whose end line is not the largest index.
pub open spec fn change_ok(change: TextDocumentContentChangeEvent) -> bool {
    match change.range {
        None => true,
        Some(r) => r.start.line <= r.end.line && r.end.line < usize::MAX,
    }
}

/// `t` holds no '\n': it is the text of one line.
pub open spec fn no_newline(t: Seq<char>) -> bool {
    forall|k: int| 0 <= k < t.len() ==> t[k] != '\n'
}

/// One line of a document: its text and the color literals found in it.
pub struct Line {
    text: String,
    colors: Vec<ColorInformation>,
}

impl Line {
    /// The line is line `index` of its document: its colors are those of its text there.
    pub closed spec fn at(&self, index: int) -> bool {
        &&& self.colors@ == line_colors(self.text@, index)
        &&& no_newline(self.text@)
    }

    pub closed spec fn text_view(&self) -> Seq<char> {
        self.text@
    }

    /// The text of the line.
    pub fn to_string(&self) -> (r: String)
        ensures
            r@ == self.text_view(),
    {
        self.text.clone()
    }

    /// A line with text `text` standing at index `index`.
    fn new(text: String, index: usize) -> (r: Line)
        requires
            no_newline(text@),
        ensures
            r.at(index as int),
            r.text_view() == text@,
    {
        let colors = parse_line_colors(text.as_str(), index);
        Line { text, colors }
    }

    /// An empty line.
    fn empty() -> (r: Line)
        ensures
            forall|i: int| r.at(i),
            r.text_view() == Seq::<char>::empty(),
    {
        Line { text: String::new(), colors: Vec::new() }
    }

    /// This line, which stood at index `from`, moved to index `index`: the
    /// colors keep their columns and take the new line number, and the text is
    /// not searched again.
    fn renumbered(self, Ghost(from): Ghost<int>, index: usize) -> (r: Line)
        requires
            self.at(from),
        ensures
            r.at(index as int),
            r.text_view() == self.text_view(),
            r.colors@ == self.colors@.map_values(|c: ColorInformation| with_line(c, index)),
    {
        let Line { text, colors } = self;
        let mut moved: Vec<ColorInformation> = Vec::new();
        for j in 0..colors.len()
            invariant
                moved@ == colors@.take(j as int).map_values(
                    |c: ColorInformation| with_line(c, index),
                ),
        {
            let c = colors[j];
            moved.push(
                ColorInformation {
                    range: Range {
                        start: Position { line: index, character: c.range.start.character },
                        end: Position { line: index, character: c.range.end.character },
                    },
                    color: c.color,
                },
            );
            proof {
                assert(moved@ =~= colors@.take(j + 1).map_values(
                    |c: ColorInformation| with_line(c, index),
                ));
            }
        }
        proof {
            assert(colors@.take(colors@.len() as int) =~= colors@);
            lemma_colors_relined(text@, 0, from, index as int);
        }
        Line { text, colors: moved }
    }
}

/// A text document as a sequence of lines.
pub struct Document {
    lines: Vec<Line>,
}

impl View for Document {
    type V = Seq<Seq<char>>;

    /// The texts of the lines.
    closed spec fn view(&self) -> Seq<Seq<char>> {
        self.lines@.map_values(|l: Line| l.text@)
    }
}

impl Document {
    /// Every line's colors are those found in its text at its index, and no
    /// line holds a '\n'.
    pub closed spec fn wf(&self) -> bool {
        forall|i: int| 0 <= i < self.lines@.len() ==> (#[trigger] self.lines@[i]).at(i)
    }

    /// A document of the lines of `text`, as `str::lines` splits them.
    pub fn from(text: &str) -> (r: Document)
        ensures
            r.wf(),
            r@ == split_lines(text@),
    {
        let texts = text_lines(text);
        let mut lines: Vec<Line> = Vec::new();
        proof {
            lemma_split_lines_no_newline(text@);
            assert forall|j: int| 0 <= j < texts@.len() implies no_newline(#[trigger] texts@[j]@) by {
                assert(views(texts@)[j] == texts@[j]@);
            }
        }
        for t in it: texts.into_iter()
            invariant
                it.seq() == texts@,
                views(texts@) == split_lines(text@),
                forall|j: int| 0 <= j < texts@.len() ==> no_newline(#[trigger] texts@[j]@),
                lines@.len() == it.index(),
                forall|j: int| 0 <= j < lines@.len() ==> (#[trigger] lines@[j]).at(j),
                forall|j: int|
                    0 <= j < lines@.len() ==> (#[trigger] lines@[j]).text@ == texts@[j]@,
        {
            let index = lines.len();
            lines.push(Line::new(t, index));
        }
        let r = Document { lines };
        proof {
            assert(r@ =~= split_lines(text@));
        }
        r
    }

    /// Applies one change: the whole text replaced where it has no range, else
    /// the range replaced by the change's text. Only the lines that the change
    /// produces are searched for colors; the lines after the range keep their
    /// colors, moved to their new line numbers.
    pub fn edit(&mut self, change: &TextDocumentContentChangeEvent)
        requires
            old(self).wf(),
            change_ok(*change),
        ensures
            final(self).wf(),
            final(self)@ == edited_texts(old(self)@, *change),
    {
        match &change.range {
            None => {
                let loaded = Document::from(change.text.as_str());
                self.lines = loaded.lines;
            },
            Some(range) => {
                self.replace_range(*range, change.text.as_str());
            },
        }
    }

    fn replace_range(&mut self, range: Range, new_text: &str)
        requires
            old(self).wf(),
            range.start.line <= range.end.line < usize::MAX,
        ensures
            final(self).wf(),
            final(self)@ == range_edited(old(self)@, range, new_text@),
    {
        let start_line = range.start.line;
        let end_line = range.end.line;
        let ghost old_texts = self@;
        let ghost old_len = self.lines@.len();
        // Editors may describe a range past the last line: pad with empty lines.
        while self.lines.len() <= end_line
            invariant
                self.wf(),
                end_line < usize::MAX,
                old_len <= self.lines@.len(),
                old_len > end_line ==> self.lines@.len() == old_len,
                self.lines@.len() <= end_line + 1 || self.lines@.len() == old_len,
                self@ == old_texts + Seq::new(
                    (self.lines@.len() - old_len) as nat,
                    |_i: int| Seq::<char>::empty(),
                ),
            decreases end_line + 1 - self.lines@.len(),
        {
            let ghost before = self@;
            self.lines.push(Line::empty());
            proof {
                assert(self@ =~= before.push(Seq::<char>::empty()));
                assert(self@ =~= old_texts + Seq::new(
                    (self.lines@.len() - old_len) as nat,
                    |_i: int| Seq::<char>::empty(),
                ));
            }
        }
        let ghost p = self@;
        proof {
            assert(p =~= padded(old_texts, end_line as int));
        }
        let first: &str = self.lines[start_line].text.as_str();
        let start_byte = utf16_to_byte_index(first, range.start.character);
        let ghost k0 = char_index_at(first@, range.start.character as int);
        proof {
            lemma_char_index_at_range(first@, range.start.character as int);
        }
        let (prefix_str, _) = split_at_char(first, start_byte, Ghost(k0));
        let prefix: String = prefix_str.to_owned();
        let last: &str = self.lines[end_line].text.as_str();
        let end_byte = utf16_to_byte_index(last, range.end.character);
        let ghost k1 = char_index_at(last@, range.end.character as int);
        proof {
            lemma_char_index_at_range(last@, range.end.character as int);
        }
        let (_, suffix_str) = split_at_char(last, end_byte, Ghost(k1));
        let suffix: String = suffix_str.to_owned();
        let texts = text_pieces(new_text);
        let ghost spliced = spliced_lines(prefix@, new_text@, suffix@);
        proof {
            lemma_pieces_no_newline(new_text@);
            assert(self.lines@[start_line as int].at(start_line as int));
            assert(self.lines@[end_line as int].at(end_line as int));
            assert(no_newline(prefix@));
            assert(no_newline(suffix@));
        }
        let m = texts.len();
        let ghost padded_lines = self.lines@;
        let mut tail = self.lines.split_off(end_line + 1);
        self.lines.truncate(start_line);
        for j in 0..m
            invariant
                m == texts@.len(),
                m >= 1,
                views(texts@) == pieces(new_text@),
                forall|x: int| 0 <= x < m ==> no_newline(#[trigger] pieces(new_text@)[x]),
                no_newline(prefix@),
                no_newline(suffix@),
                spliced == spliced_lines(prefix@, new_text@, suffix@),
                start_line <= end_line < usize::MAX,
                p == padded_lines.map_values(|l: Line| l.text@),
                end_line < padded_lines.len(),
                forall|x: int|
                    0 <= x < padded_lines.len() ==> (#[trigger] padded_lines[x]).at(x),
                tail@ == padded_lines.subrange(end_line + 1, padded_lines.len() as int),
                self.lines@.len() == start_line + j,
                forall|x: int| 0 <= x < self.lines@.len() ==> (#[trigger] self.lines@[x]).at(x),
                forall|x: int|
                    0 <= x < start_line ==> (#[trigger] self.lines@[x]).text@ == p[x],
                forall|x: int|
                    start_line <= x < self.lines@.len() ==> (#[trigger] self.lines@[x]).text@
                        == spliced[x - start_line],
        {
            let mut t: String = if j == 0 {
                prefix.clone()
            } else {
                String::new()
            };
            t.append(texts[j].as_str());
            if j + 1 == m {
                t.append(suffix.as_str());
            }
            proof {
                assert(views(texts@)[j as int] == texts@[j as int]@);
                assert(t@ == spliced[j as int]);
                assert(no_newline(t@));
            }
            let index = self.lines.len();
            self.lines.push(Line::new(t, index));
        }
        for line in it: tail.into_iter()
            invariant
                it.seq() == padded_lines.subrange(end_line + 1, padded_lines.len() as int),
                m >= 1,
                spliced.len() == m,
                start_line <= end_line < usize::MAX,
                p == padded_lines.map_values(|l: Line| l.text@),
                end_line < padded_lines.len(),
                forall|x: int|
                    0 <= x < padded_lines.len() ==> (#[trigger] padded_lines[x]).at(x),
                self.lines@.len() == start_line + m + it.index(),
                forall|x: int| 0 <= x < self.lines@.len() ==> (#[trigger] self.lines@[x]).at(x),
                forall|x: int|
                    0 <= x < start_line ==> (#[trigger] self.lines@[x]).text@ == p[x],
                forall|x: int|
                    start_line <= x < start_line + m ==> (#[trigger] self.lines@[x]).text@
                        == spliced[x - start_line],
                forall|x: int|
                    start_line + m <= x < self.lines@.len() ==> (#[trigger] self.lines@[x]).text@
                        == p[x - start_line - m + end_line + 1],
        {
            let ghost from = end_line + 1 + it.index();
            proof {
                assert(padded_lines[from] == line);
                assert(padded_lines[from].at(from));
            }
            let index = self.lines.len();
            self.lines.push(line.renumbered(Ghost(from), index));
        }
        proof {
            assert(self@ =~= range_edited(old_texts, range, new_text@));
        }
    }

    /// The color literals of the document, in line order.
    pub fn get_colors(&self) -> (r: Vec<ColorInformation>)
        requires
            self.wf(),
        ensures
            r@ == document_colors(self@),
    {
        let mut out: Vec<ColorInformation> = Vec::new();
        for i in 0..self.lines.len()
            invariant
                self.wf(),
                out@ == document_colors(self@.take(i as int)),
        {
            let line = &self.lines[i];
            for j in 0..line.colors.len()
                invariant
                    line == &self.lines@[i as int],
                    out@ == document_colors(self@.take(i as int)) + line.colors@.take(j as int),
            {
                out.push(line.colors[j]);
                proof {
                    assert(line.colors@.take(j + 1) =~= line.colors@.take(j as int).push(
                        line.colors@[j as int],
                    ));
                }
            }
            proof {
                assert(self.lines@[i as int].at(i as int));
                assert(self@.take(i + 1).drop_last() =~= self@.take(i as int));
                assert(line.colors@.take(line.colors@.len() as int) =~= line.colors@);
            }
        }
        proof {
            assert(self@.take(self@.len() as int) =~= self@);
        }
        out
    }

    /// The text of the document: its lines with '\n' between them.
    pub fn to_string(&self) -> (r: String)
        ensures
            r@ == join_lines(self@),
    {
        let mut out = String::new();
        for i in 0..self.lines.len()
            invariant
                out@ == join_lines(self@.take(i as int)),
        {
            if i > 0 {
                out.append("\n");
            }
            out.append(self.lines[i].text.as_str());
            proof {
                reveal_strlit("\n");
                let prev = self@.take(i as int);
                assert(self@.take(i + 1).drop_last() =~= prev);
                if i == 0 {
                    assert(out@ =~= join_lines(self@.take(i + 1)));
                } else {
                    assert(out@ =~= join_lines(self@.take(i + 1)));
                }
            }
        }
        proof {
            assert(self@.take(self@.len() as int) =~= self@);
        }
        out
    }
}

/// Loading a text and joining its lines with '\n' gives the text back, up to
/// one final '\n' that the split into lines drops; this holds of text without
/// '\r', as a "\r\n" terminator comes back as '\n'.
pub proof fn lemma_load_round_trip(text: Seq<char>)
    requires
        free_of(text, '\r'),
    ensures
        join_lines(split_lines(text)) == text || join_lines(split_lines(text)).push('\n') == text,
{
    let segs = segments(text);
    lemma_segments_len(text);
    lemma_join_segments(text);
    lemma_segments_free(text, '\r');
    assert(pieces(text) =~= segs) by {
        assert forall|i: int| 0 <= i < segs.len() implies #[trigger] pieces(text)[i] == segs[i] by {
            assert(free_of(segs[i], '\r'));
            if segs[i].len() > 0 {
                assert(segs[i][segs[i].len() - 1] != '\r');
            }
        }
    }
    if segs.last().len() == 0 {
        if segs.len() == 1 {
            assert(split_lines(text) =~= Seq::<Seq<char>>::empty());
            assert(text =~= Seq::<char>::empty());
        } else {
            assert(split_lines(text) == segs.drop_last());
            assert(join_lines(segs) =~= join_lines(segs.drop_last()).push('\n'));
        }
    }
}

/// The colors read from a document after any changes are those of loading
/// its text afresh: keeping them line by line agrees with searching the whole
/// text again.
pub proof fn lemma_incremental_matches_reload(doc: &Document)
    requires
        doc.wf(),
    ensures
        document_colors(doc@) == document_colors(split_lines(join_lines(doc@))),
{
    let t = doc@;
    let n = t.len();
    assert forall|i: int| 0 <= i < n implies no_newline(#[trigger] t[i]) by {
        assert(doc.lines@[i].at(i));
    }
    if n == 0 {
        assert(split_lines(join_lines(t)) =~= Seq::<Seq<char>>::empty());
    } else {
        lemma_segments_of_join(t);
        let p = pieces(join_lines(t));
        assert forall|i: int| 0 <= i < n implies line_colors(#[trigger] p[i], i) == line_colors(
            t[i],
            i,
        ) by {
            if i + 1 < n && t[i].len() > 0 && t[i].last() == '\r' {
                assert(t[i] =~= t[i].drop_last().push('\r'));
                lemma_colors_cr(t[i].drop_last(), 0, i);
            }
        }
        if p.last().len() == 0 {
            lemma_document_colors_pointwise(t.drop_last(), p.drop_last());
            assert(line_colors(t.last(), n - 1) =~= Seq::<ColorInformation>::empty());
            assert(document_colors(t) =~= document_colors(t.drop_last()));
        } else {
            lemma_document_colors_pointwise(t, p);
        }
    }
}

/// Inserting lines before line `l` moves the colors of `l` down by the number
/// of lines inserted, in start and end line alike, with the same columns and
/// color values.
pub proof fn lemma_line_shift(texts: Seq<Seq<char>>, at: int, inserted: Seq<Seq<char>>, l: int)
    requires
        0 <= at <= l < texts.len(),
        l + inserted.len() <= usize::MAX,
    ensures
        ({
            let k = inserted.len() as int;
            let moved = texts.take(at) + inserted + texts.skip(at);
            let before = line_colors(texts[l], l);
            let after = line_colors(moved[l + k], l + k);
            &&& moved[l + k] == texts[l]
            &&& after.len() == before.len()
            &&& forall|j: int|
                0 <= j < before.len() ==> {
                    &&& (#[trigger] after[j]).range.start.line == before[j].range.start.line + k
                    &&& after[j].range.end.line == before[j].range.end.line + k
                    &&& after[j].range.start.character == before[j].range.start.character
                    &&& after[j].range.end.character == before[j].range.end.character
                    &&& after[j].color == before[j].color
                }
        }),
{
    let k = inserted.len() as int;
    let moved = texts.take(at) + inserted + texts.skip(at);
    assert(moved[l + k] == texts[l]);
    lemma_colors_relined(texts[l], 0, l, l);
    lemma_colors_relined(texts[l], 0, l, l + k);
}

/// `t` holds no `ch`.
pub open spec fn free_of(t: Seq<char>, ch: char) -> bool {
    forall|k: int| 0 <= k < t.len() ==> t[k] != ch
}

proof fn lemma_segments_free(s: Seq<char>, ch: char)
    requires
        free_of(s, ch),
    ensures
        forall|j: int| 0 <= j < segments(s).len() ==> free_of(#[trigger] segments(s)[j], ch),
    decreases s.len(),
{
    if s.len() > 0 {
        lemma_segments_free(s.drop_last(), ch);
        lemma_segments_len(s.drop_last());
    }
}

/// Adding to the last line adds to the end of the joined text.
proof fn lemma_join_extend_last(texts: Seq<Seq<char>>, u: Seq<char>)
    requires
        texts.len() >= 1,
    ensures
        join_lines(texts.update(texts.len() - 1, texts.last() + u)) == join_lines(texts) + u,
{
    let e = texts.update(texts.len() - 1, texts.last() + u);
    if texts.len() >= 2 {
        assert(e.drop_last() =~= texts.drop_last());
        assert(join_lines(e) =~= join_lines(texts) + u);
    }
}

/// Joining the segments of a text with '\n' gives the text.
proof fn lemma_join_segments(s: Seq<char>)
    ensures
        join_lines(segments(s)) == s,
    decreases s.len(),
{
    if s.len() == 0 {
    } else {
        let prev = segments(s.drop_last());
        lemma_join_segments(s.drop_last());
        lemma_segments_len(s.drop_last());
        if s.last() == '\n' {
            assert(prev.push(Seq::empty()).drop_last() =~= prev);
            assert(join_lines(segments(s)) =~= s);
        } else {
            lemma_join_extend_last(prev, seq![s.last()]);
            assert(prev.last() + seq![s.last()] =~= prev.last().push(s.last()));
            assert(join_lines(segments(s)) =~= s);
        }
    }
}

/// Text without '\n' extends the last segment.
proof fn lemma_segments_append(x: Seq<char>, y: Seq<char>)
    requires
        no_newline(y),
    ensures
        segments(x + y) == segments(x).update(segments(x).len() - 1, segments(x).last() + y),
    decreases y.len(),
{
    lemma_segments_len(x);
    let sx = segments(x);
    if y.len() == 0 {
        assert(x + y =~= x);
        assert(sx.update(sx.len() - 1, sx.last() + y) =~= sx);
    } else {
        let y0 = y.drop_last();
        lemma_segments_append(x, y0);
        assert((x + y).drop_last() =~= x + y0);
        assert(sx.last() + y =~= (sx.last() + y0).push(y.last()));
        assert(segments(x + y) =~= sx.update(sx.len() - 1, sx.last() + y));
    }
}

/// Splitting lines without '\n' joined with '\n' gives the lines back.
proof fn lemma_segments_of_join(texts: Seq<Seq<char>>)
    requires
        texts.len() >= 1,
        forall|i: int| 0 <= i < texts.len() ==> no_newline(#[trigger] texts[i]),
    ensures
        segments(join_lines(texts)) == texts,
    decreases texts.len(),
{
    if texts.len() == 1 {
        lemma_segments_append(Seq::empty(), texts[0]);
        assert(Seq::<char>::empty() + texts[0] =~= texts[0]);
        assert(segments(join_lines(texts)) =~= texts);
    } else {
        let front = texts.drop_last();
        lemma_segments_of_join(front);
        let x = join_lines(front).push('\n');
        assert(x.drop_last() =~= join_lines(front));
        assert(join_lines(texts) =~= x + texts.last());
        lemma_segments_append(x, texts.last());
        assert(segments(join_lines(texts)) =~= texts);
    }
}

/// Documents whose lines hold the same colors line by line hold the same colors.
proof fn lemma_document_colors_pointwise(a: Seq<Seq<char>>, b: Seq<Seq<char>>)
    requires
        a.len() == b.len(),
        forall|i: int| 0 <= i < a.len() ==> line_colors(#[trigger] a[i], i) == line_colors(b[i], i),
    ensures
        document_colors(a) == document_colors(b),
    decreases a.len(),
{
    if a.len() > 0 {
        lemma_document_colors_pointwise(a.drop_last(), b.drop_last());
    }
}

proof fn lemma_char_index_at_range(s: Seq<char>, col: int)
    ensures
        0 <= char_index_at(s, col) <= s.len(),
{
}

proof fn lemma_segments_no_newline(s: Seq<char>)
    ensures
        forall|j: int| 0 <= j < segments(s).len() ==> no_newline(#[trigger] segments(s)[j]),
    decreases s.len(),
{
    if s.len() > 0 {
        lemma_segments_no_newline(s.drop_last());
        lemma_segments_len(s.drop_last());
    }
}

proof fn lemma_pieces_no_newline(s: Seq<char>)
    ensures
        pieces(s).len() >= 1,
        forall|j: int| 0 <= j < pieces(s).len() ==> no_newline(#[trigger] pieces(s)[j]),
{
    lemma_segments_no_newline(s);
    lemma_segments_len(s);
    assert forall|j: int| 0 <= j < pieces(s).len() implies no_newline(#[trigger] pieces(s)[j]) by {
        assert(no_newline(segments(s)[j]));
    }
}

proof fn lemma_split_lines_no_newline(s: Seq<char>)
    ensures
        forall|j: int|
            0 <= j < split_lines(s).len() ==> no_newline(#[trigger] split_lines(s)[j]),
{
    lemma_pieces_no_newline(s);
    assert forall|j: int| 0 <= j < split_lines(s).len() implies no_newline(
        #[trigger] split_lines(s)[j],
    ) by {
        assert(no_newline(pieces(s)[j]));
    }
}

} // verus!
