//! Character-level facts about line text: UTF-16 and UTF-8 lengths, the
//! translation of editor columns into byte offsets, and splitting text into
//! lines.
use vstd::prelude::*;
use vstd::string::StringSliceAdditionalSpecFns;
use vstd::utf8::*;

verus! {

/// Number of UTF-16 code units that encode `c`.
pub open spec fn utf16_width(c: char) -> nat {
    if (c as u32) < 0x10000 {
        1
    } else {
        2
    }
}

/// Number of UTF-16 code units that encode the characters of `s`.
pub open spec fn utf16_len(s: Seq<char>) -> nat
    decreases s.len(),
{
    if s.len() == 0 {
        0
    } else {
        utf16_len(s.drop_last()) + utf16_width(s.last())
    }
}

/// Number of bytes in the UTF-8 encoding of `s`.
pub open spec fn utf8_len(s: Seq<char>) -> nat {
    encode_utf8(s).len()
}

/// Number of bytes in the UTF-8 encoding of `c`.
pub open spec fn utf8_width(c: char) -> nat {
    if (c as u32) < 0x80 {
        1
    } else if (c as u32) < 0x800 {
        2
    } else if (c as u32) < 0x10000 {
        3
    } else {
        4
    }
}

/// The index of the character that starts at UTF-16 column `col` of `s`; the
/// length of `s` where no character starts there (a column past the end, or
/// one that falls inside a surrogate pair).
pub open spec fn char_index_at(s: Seq<char>, col: int) -> int {
    if exists|k: int| 0 <= k < s.len() && utf16_len(#[trigger] s.take(k)) == col {
        choose|k: int| 0 <= k < s.len() && utf16_len(#[trigger] s.take(k)) == col
    } else {
        s.len() as int
    }
}

/// Byte offset in `s` that corresponds to UTF-16 column `col`.
pub open spec fn byte_offset_at(s: Seq<char>, col: int) -> nat {
    utf8_len(s.take(char_index_at(s, col)))
}

/// `t` without one final carriage return.
pub open spec fn strip_cr(t: Seq<char>) -> Seq<char> {
    if t.len() > 0 && t.last() == '\r' {
        t.drop_last()
    } else {
        t
    }
}

/// The runs of `s` between its '\n' characters, terminators left out: one
/// more than the number of '\n' characters.
pub open spec fn segments(s: Seq<char>) -> Seq<Seq<char>>
    decreases s.len(),
{
    if s.len() == 0 {
        seq![Seq::empty()]
    } else {
        let prev = segments(s.drop_last());
        if s.last() == '\n' {
            prev.push(Seq::empty())
        } else {
            prev.update(prev.len() - 1, prev.last().push(s.last()))
        }
    }
}

/// The segments of `s`, each one that a '\n' ends read without the '\r' of a
/// "\r\n" terminator.
pub open spec fn pieces(s: Seq<char>) -> Seq<Seq<char>> {
    let segs = segments(s);
    Seq::new(
        segs.len(),
        |i: int|
            if i + 1 < segs.len() {
                strip_cr(segs[i])
            } else {
                segs[i]
            },
    )
}

/// The lines of `s`: its pieces, less a final empty one (text that ends with a
/// terminator has no further line after it, and empty text has no line).
pub open spec fn split_lines(s: Seq<char>) -> Seq<Seq<char>> {
    let p = pieces(s);
    if p.last().len() == 0 {
        p.drop_last()
    } else {
        p
    }
}

/// The views of a vector of strings.
pub open spec fn views(v: Seq<String>) -> Seq<Seq<char>> {
    v.map_values(|t: String| t@)
}

/// UTF-8 encodes a concatenation piece by piece.
pub proof fn lemma_encode_utf8_concat(a: Seq<char>, b: Seq<char>)
    ensures
        encode_utf8(a + b) == encode_utf8(a) + encode_utf8(b),
    decreases a.len(),
{
    if a.len() == 0 {
        assert(a + b =~= b);
        assert(encode_utf8(a) + encode_utf8(b) =~= encode_utf8(b));
    } else {
        assert((a + b).drop_first() =~= a.drop_first() + b);
        lemma_encode_utf8_concat(a.drop_first(), b);
        assert((a + b)[0] == a[0]);
        assert(encode_utf8(a + b) =~= encode_utf8(a) + encode_utf8(b));
    }
}

/// `utf8_width` is the length of a character's UTF-8 encoding.
pub proof fn lemma_utf8_width(c: char)
    ensures
        encode_scalar(c as u32).len() == utf8_width(c),
        encode_utf8(seq![c]) == encode_scalar(c as u32),
{
    char_is_scalar(c);
    let one = seq![c];
    assert(one.drop_first() =~= Seq::<char>::empty());
    assert(one[0] == c);
    assert(encode_utf8(one.drop_first()) =~= Seq::<u8>::empty());
    assert(encode_utf8(one) =~= encode_scalar(c as u32));
}

/// Extending a prefix by one character adds that character's widths.
pub proof fn lemma_take_step(s: Seq<char>, k: int)
    requires
        0 <= k < s.len(),
    ensures
        utf16_len(s.take(k + 1)) == utf16_len(s.take(k)) + utf16_width(s[k]),
        utf8_len(s.take(k + 1)) == utf8_len(s.take(k)) + utf8_width(s[k]),
{
    assert(s.take(k + 1).drop_last() =~= s.take(k));
    assert(s.take(k + 1) =~= s.take(k) + seq![s[k]]);
    lemma_encode_utf8_concat(s.take(k), seq![s[k]]);
    lemma_utf8_width(s[k]);
}

/// Every character takes at least one UTF-8 byte, and at least as many UTF-8
/// bytes as UTF-16 code units.
pub proof fn lemma_len_bounds(s: Seq<char>)
    ensures
        s.len() <= utf8_len(s),
        utf16_len(s) <= utf8_len(s),
    decreases s.len(),
{
    if s.len() > 0 {
        let k = s.len() - 1;
        lemma_len_bounds(s.drop_last());
        assert(s.take(k) =~= s.drop_last());
        assert(s.take(k + 1) =~= s);
        lemma_take_step(s, k);
    }
}

/// UTF-16 columns of character boundaries strictly increase.
pub proof fn lemma_utf16_increasing(s: Seq<char>, j: int, k: int)
    requires
        0 <= j <= k <= s.len(),
    ensures
        utf16_len(s.take(j)) + (k - j) <= utf16_len(s.take(k)),
    decreases k - j,
{
    if j < k {
        lemma_utf16_increasing(s, j, k - 1);
        lemma_take_step(s, k - 1);
    }
}

/// UTF-8 length of a prefix is at most that of the whole.
pub proof fn lemma_utf8_prefix(s: Seq<char>, k: int)
    requires
        0 <= k <= s.len(),
    ensures
        utf8_len(s.take(k)) <= utf8_len(s),
        utf8_len(s.take(k)) + utf8_len(s.skip(k)) == utf8_len(s),
{
    assert(s =~= s.take(k) + s.skip(k));
    lemma_encode_utf8_concat(s.take(k), s.skip(k));
}

/// The end of the encoding of `a` is a character boundary of the encoding of `a + b`.
pub proof fn lemma_char_boundary(a: Seq<char>, b: Seq<char>)
    ensures
        is_char_boundary(encode_utf8(a + b), encode_utf8(a).len() as int),
    decreases a.len(),
{
    broadcast use encode_utf8_valid_utf8;

    if a.len() > 0 {
        let bytes = encode_utf8(a + b);
        lemma_encode_utf8_concat(a, b);
        encode_utf8_first_scalar(a + b);
        assert((a + b)[0] == a[0]);
        assert((a + b).drop_first() =~= a.drop_first() + b);
        lemma_encode_utf8_concat(a.drop_first(), b);
        lemma_utf8_width(a[0]);
        assert(pop_first_scalar(bytes) =~= encode_utf8(a.drop_first() + b));
        lemma_char_boundary(a.drop_first(), b);
    }
}

/// Splits `s` after its first `k` characters, which take `b` bytes.
pub(crate) fn split_at_char(s: &str, b: usize, Ghost(k): Ghost<int>) -> (r: (&str, &str))
    requires
        0 <= k <= s@.len(),
        b == utf8_len(s@.take(k)),
    ensures
        r.0@ == s@.take(k),
        r.1@ == s@.skip(k),
{
    let ghost a = s@.take(k);
    let ghost c = s@.skip(k);
    proof {
        assert(s@ =~= a + c);
        lemma_encode_utf8_concat(a, c);
        lemma_char_boundary(a, c);
    }
    let r = s.split_at(b);
    proof {
        assert(r.0.spec_bytes() =~= encode_utf8(a));
        assert(r.1.spec_bytes() =~= encode_utf8(c));
        encode_utf8_decode_utf8(r.0@);
        encode_utf8_decode_utf8(a);
        encode_utf8_decode_utf8(r.1@);
        encode_utf8_decode_utf8(c);
    }
    r
}

/// Every text has at least one segment.
pub proof fn lemma_segments_len(s: Seq<char>)
    ensures
        segments(s).len() >= 1,
    decreases s.len(),
{
    if s.len() > 0 {
        lemma_segments_len(s.drop_last());
    }
}

/// One more character either starts a new segment or extends the last one.
pub proof fn lemma_segments_step(s: Seq<char>, i: int)
    requires
        0 <= i < s.len(),
    ensures
        segments(s.take(i + 1)) == if s[i] == '\n' {
            segments(s.take(i)).push(Seq::empty())
        } else {
            segments(s.take(i)).update(
                segments(s.take(i)).len() - 1,
                segments(s.take(i)).last().push(s[i]),
            )
        },
{
    assert(s.take(i + 1).drop_last() =~= s.take(i));
    assert(s.take(i + 1).last() == s[i]);
}

/// Byte offset in `line` of UTF-16 column `utf16_idx`: the offset of the
/// character that starts at that column, or the length of `line` in bytes where
/// none does.
pub fn utf16_to_byte_index(line: &str, utf16_idx: usize) -> (r: usize)
    ensures
        r == byte_offset_at(line@, utf16_idx as int),
{
    let ghost s = line@;
    let n_bytes = line.as_bytes().len();
    let mut count: usize = 0;
    let mut byte: usize = 0;
    proof {
        assert(s.take(0) =~= Seq::<char>::empty());
        assert(s.take(s.len() as int) =~= s);
    }
    for c in it: line.chars()
        invariant
            it.seq() == s,
            s == line@,
            n_bytes == utf8_len(s),
            s.take(s.len() as int) == s,
            count == utf16_len(s.take(it.index() as int)),
            byte == utf8_len(s.take(it.index() as int)),
            count <= utf16_idx,
            forall|k: int| 0 <= k < it.index() ==> utf16_len(#[trigger] s.take(k)) != utf16_idx,
    {
        let ghost i = it.index() as int;
        if count == utf16_idx {
            proof {
                lemma_char_index_at(s, utf16_idx as int, i);
            }
            return byte;
        }
        proof {
            lemma_take_step(s, i);
            lemma_utf8_prefix(s, i + 1);
        }
        let w = utf16_units(c);
        if utf16_idx - count < w {
            proof {
                assert forall|k: int| 0 <= k < s.len() implies utf16_len(#[trigger] s.take(k))
                    != utf16_idx by {
                    if k > i {
                        lemma_utf16_increasing(s, i + 1, k);
                    }
                }
                lemma_char_index_at(s, utf16_idx as int, s.len() as int);
            }
            return n_bytes;
        }
        count = count + w;
        byte = byte + utf8_bytes(c);
    }
    proof {
        lemma_char_index_at(s, utf16_idx as int, s.len() as int);
    }
    n_bytes
}

/// The characters of `s` from index `k0` to `k1`, which start at bytes `b0`
/// and `b1`.
fn substring(s: &str, b0: usize, b1: usize, Ghost(k0): Ghost<int>, Ghost(k1): Ghost<int>) -> (r:
    &str)
    requires
        0 <= k0 <= k1 <= s@.len(),
        b0 == utf8_len(s@.take(k0)),
        b1 == utf8_len(s@.take(k1)),
    ensures
        r@ == s@.subrange(k0, k1),
{
    let (_, rest) = split_at_char(s, b0, Ghost(k0));
    proof {
        assert(s@.take(k1) =~= s@.take(k0) + rest@.take(k1 - k0));
        lemma_encode_utf8_concat(s@.take(k0), rest@.take(k1 - k0));
    }
    let (mid, _) = split_at_char(rest, b1 - b0, Ghost(k1 - k0));
    proof {
        assert(mid@ =~= s@.subrange(k0, k1));
    }
    mid
}

/// Splits `s` at each '\n' into its pieces: the text of each line, a final
/// empty piece where `s` ends with '\n' or is empty.
pub fn text_pieces(s: &str) -> (r: Vec<String>)
    ensures
        views(r@) == pieces(s@),
{
    let ghost t = s@;
    let n_bytes = s.as_bytes().len();
    let mut out: Vec<String> = Vec::new();
    let mut start_byte: usize = 0;
    let ghost mut start: int = 0;
    let mut byte: usize = 0;
    let mut prev_cr = false;
    proof {
        assert(t.take(0) =~= Seq::<char>::empty());
        assert(t.take(t.len() as int) =~= t);
        lemma_segments_len(t.take(0));
    }
    for c in it: s.chars()
        invariant
            it.seq() == t,
            t == s@,
            n_bytes == utf8_len(t),
            t.take(t.len() as int) == t,
            0 <= start <= it.index(),
            start_byte == utf8_len(t.take(start)),
            byte == utf8_len(t.take(it.index() as int)),
            prev_cr == (start < it.index() && t[it.index() - 1] == '\r'),
            segments(t.take(it.index() as int)).len() == out@.len() + 1,
            segments(t.take(it.index() as int)).last() == t.subrange(start, it.index() as int),
            forall|j: int|
                0 <= j < out@.len() ==> (#[trigger] out@[j])@ == strip_cr(
                    segments(t.take(it.index() as int))[j],
                ),
    {
        let ghost i = it.index() as int;
        proof {
            lemma_segments_step(t, i);
            lemma_take_step(t, i);
            lemma_utf8_prefix(t, i + 1);
        }
        if c == '\n' {
            let ghost seg = t.subrange(start, i);
            let end_byte = if prev_cr {
                proof {
                    lemma_take_step(t, i - 1);
                }
                byte - 1
            } else {
                byte
            };
            let ghost end: int = if prev_cr {
                i - 1
            } else {
                i
            };
            let piece = substring(s, start_byte, end_byte, Ghost(start), Ghost(end));
            proof {
                assert(piece@ =~= strip_cr(seg));
            }
            out.push(piece.to_owned());
            start_byte = byte + 1;
            proof {
                start = i + 1;
                assert(t.subrange(start, i + 1) =~= Seq::<char>::empty());
            }
            prev_cr = false;
        } else {
            prev_cr = c == '\r';
            proof {
                assert(t.subrange(start, i + 1) =~= t.subrange(start, i).push(t[i]));
            }
        }
        byte = byte + utf8_bytes(c);
    }
    let last = substring(s, start_byte, n_bytes, Ghost(start), Ghost(t.len() as int));
    out.push(last.to_owned());
    proof {
        assert(views(out@) =~= pieces(t));
    }
    out
}

/// The lines of `s`, as `str::lines` gives them.
pub fn text_lines(s: &str) -> (r: Vec<String>)
    ensures
        views(r@) == split_lines(s@),
{
    let mut out = text_pieces(s);
    proof {
        lemma_segments_len(s@);
    }
    let n = out.len();
    if out[n - 1].as_str().is_empty() {
        out.pop();
        proof {
            assert(views(out@) =~= split_lines(s@));
        }
    }
    out
}

/// Characterises `char_index_at` by the column of the character found.
proof fn lemma_char_index_at(s: Seq<char>, col: int, i: int)
    requires
        0 <= i <= s.len(),
        i < s.len() ==> utf16_len(s.take(i)) == col,
        i == s.len() ==> forall|k: int|
            0 <= k < s.len() ==> utf16_len(#[trigger] s.take(k)) != col,
    ensures
        char_index_at(s, col) == i,
{
    if i < s.len() {
        assert(utf16_len(s.take(i)) == col);
        let k = char_index_at(s, col);
        if k < i {
            lemma_utf16_increasing(s, k, i);
        } else if k > i {
            lemma_utf16_increasing(s, i, k);
        }
    }
}

/// UTF-16 code units of `c`.
fn utf16_units(c: char) -> (w: usize)
    ensures
        w == utf16_width(c),
{
    if (c as u32) < 0x10000 {
        1
    } else {
        2
    }
}

/// UTF-8 bytes of `c`.
fn utf8_bytes(c: char) -> (w: usize)
    ensures
        w == utf8_width(c),
{
    if (c as u32) < 0x80 {
        1
    } else if (c as u32) < 0x800 {
        2
    } else if (c as u32) < 0x10000 {
        3
    } else {
        4
    }
}

} // verus!
