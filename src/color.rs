//! Recognition of hex color literals (`#RRGGBB` and `#RRGGBBAA`) in one line.
use crate::text::{lemma_len_bounds, lemma_take_step, lemma_utf16_increasing, utf16_len, utf8_len};
use crate::types::{Color, ColorInformation, Position, Range};
use vstd::prelude::*;

verus! {

/// `c` is a hex digit, in either case.
pub open spec fn is_hex_digit(c: char) -> bool {
    ('0' <= c && c <= '9') || ('a' <= c && c <= 'f') || ('A' <= c && c <= 'F')
}

/// Value of a hex digit.
pub open spec fn hex_value(c: char) -> nat {
    if '0' <= c && c <= '9' {
        (c as nat - '0' as nat) as nat
    } else if 'a' <= c && c <= 'f' {
        (c as nat - 'a' as nat + 10) as nat
    } else {
        (c as nat - 'A' as nat + 10) as nat
    }
}

/// Number of consecutive hex digits in `s` from index `i` on, counting at most `max`.
pub open spec fn hex_run(s: Seq<char>, i: int, max: nat) -> nat
    decreases max,
{
    if max == 0 || i < 0 || i >= s.len() || !is_hex_digit(s[i]) {
        0
    } else {
        1 + hex_run(s, i + 1, (max - 1) as nat)
    }
}

/// Number of hex digits taken by the literal whose '#' is at index `i`: eight
/// where eight follow, else six where six or seven follow, else none (no
/// literal starts there).
pub open spec fn literal_digits(s: Seq<char>, i: int) -> nat {
    if 0 <= i < s.len() && s[i] == '#' {
        let run = hex_run(s, i + 1, 8);
        if run == 8 {
            8
        } else if run >= 6 {
            6
        } else {
            0
        }
    } else {
        0
    }
}

/// The channel written by the two hex digits at `i` and `i + 1`.
pub open spec fn channel(s: Seq<char>, i: int) -> u8 {
    (hex_value(s[i]) * 16 + hex_value(s[i + 1])) as u8
}

/// The color of the literal at `i` with `n` digits; six digits mean an opaque color.
pub open spec fn literal_color(s: Seq<char>, i: int, n: nat) -> Color {
    Color {
        red: channel(s, i + 1),
        green: channel(s, i + 3),
        blue: channel(s, i + 5),
        alpha: if n == 8 {
            channel(s, i + 7)
        } else {
            255
        },
    }
}

/// The literal at `i` with `n` digits on line `line`, its columns in UTF-16 units.
pub open spec fn literal_info(s: Seq<char>, i: int, n: nat, line: int) -> ColorInformation {
    let col = utf16_len(s.take(i));
    ColorInformation {
        range: Range {
            start: Position { line: line as usize, character: col as usize },
            end: Position { line: line as usize, character: (col + 1 + n) as usize },
        },
        color: literal_color(s, i, n),
    }
}

/// The literals of `s` from index `i` on, left to right; a literal's digits are
/// not searched again.
pub open spec fn colors_from(s: Seq<char>, i: int, line: int) -> Seq<ColorInformation>
    decreases s.len() - i,
    via colors_from_decreases
{
    if i < 0 || i >= s.len() {
        Seq::empty()
    } else if literal_digits(s, i) > 0 {
        let n = literal_digits(s, i);
        seq![literal_info(s, i, n, line)] + colors_from(s, i + 1 + n, line)
    } else {
        colors_from(s, i + 1, line)
    }
}

/// The search moves past each literal it finds, and stays within the text.
#[via_fn]
proof fn colors_from_decreases(s: Seq<char>, i: int, line: int) {
    if 0 <= i < s.len() {
        lemma_hex_run_bound(s, i + 1, 8);
    }
}

/// A run of hex digits stays within `s` and within its bound.
pub proof fn lemma_hex_run_bound(s: Seq<char>, i: int, max: nat)
    requires
        0 <= i <= s.len(),
    ensures
        hex_run(s, i, max) <= max,
        i + hex_run(s, i, max) <= s.len(),
    decreases max,
{
    if max > 0 && i < s.len() {
        lemma_hex_run_bound(s, i + 1, (max - 1) as nat);
    }
}

/// `c` moved to line `line`, its columns kept.
pub open spec fn with_line(c: ColorInformation, line: usize) -> ColorInformation {
    ColorInformation {
        range: Range {
            start: Position { line, character: c.range.start.character },
            end: Position { line, character: c.range.end.character },
        },
        color: c.color,
    }
}

/// The literals of a text are the same on any line; only their line differs.
pub proof fn lemma_colors_relined(s: Seq<char>, i: int, from: int, to: int)
    ensures
        colors_from(s, i, to) == colors_from(s, i, from).map_values(
            |c: ColorInformation| with_line(c, to as usize),
        ),
    decreases s.len() - i,
{
    if 0 <= i < s.len() {
        let n = literal_digits(s, i);
        lemma_hex_run_bound(s, i + 1, 8);
        if n > 0 {
            lemma_colors_relined(s, i + 1 + n, from, to);
        } else {
            lemma_colors_relined(s, i + 1, from, to);
        }
    }
    assert(colors_from(s, i, to) =~= colors_from(s, i, from).map_values(
        |c: ColorInformation| with_line(c, to as usize),
    ));
}

/// A final carriage return ends a run of hex digits as the end of the text does.
proof fn lemma_hex_run_cr(t: Seq<char>, i: int, max: nat)
    requires
        0 <= i,
    ensures
        hex_run(t.push('\r'), i, max) == hex_run(t, i, max),
    decreases max,
{
    let u = t.push('\r');
    if max > 0 && i < t.len() {
        assert(u[i] == t[i]);
        lemma_hex_run_cr(t, i + 1, (max - 1) as nat);
    }
}

/// A final carriage return adds no literal and moves none.
pub proof fn lemma_colors_cr(t: Seq<char>, i: int, line: int)
    requires
        0 <= i,
    ensures
        colors_from(t.push('\r'), i, line) == colors_from(t, i, line),
    decreases t.len() + 1 - i,
{
    let u = t.push('\r');
    if i == t.len() {
        assert(literal_digits(u, i) == 0);
        assert(colors_from(u, i + 1, line) == Seq::<ColorInformation>::empty());
    } else if i < t.len() {
        assert(u[i] == t[i]);
        lemma_hex_run_cr(t, i + 1, 8);
        lemma_hex_run_bound(t, i + 1, 8);
        let n = literal_digits(t, i);
        assert(literal_digits(u, i) == n);
        if n > 0 {
            assert forall|k: int| i + 1 <= k <= i + n implies u[k] == t[k] by {
                lemma_hex_run_digits(t, i + 1, 8, k);
            }
            assert(u.take(i) =~= t.take(i));
            assert(channel(u, i + 1) == channel(t, i + 1));
            assert(channel(u, i + 3) == channel(t, i + 3));
            assert(channel(u, i + 5) == channel(t, i + 5));
            if n == 8 {
                assert(channel(u, i + 7) == channel(t, i + 7));
            }
            assert(literal_info(u, i, n, line) == literal_info(t, i, n, line));
            lemma_colors_cr(t, i + 1 + n, line);
        } else {
            lemma_colors_cr(t, i + 1, line);
        }
    }
}

/// The color literals of line `line` whose text is `s`.
pub open spec fn line_colors(s: Seq<char>, line: int) -> Seq<ColorInformation> {
    colors_from(s, 0, line)
}

fn is_hex(c: char) -> (r: bool)
    ensures
        r == is_hex_digit(c),
{
    ('0' <= c && c <= '9') || ('a' <= c && c <= 'f') || ('A' <= c && c <= 'F')
}

fn hex_digit_value(c: char) -> (v: u8)
    requires
        is_hex_digit(c),
    ensures
        v as nat == hex_value(c),
        v < 16,
{
    if '0' <= c && c <= '9' {
        (c as u32 - '0' as u32) as u8
    } else if 'a' <= c && c <= 'f' {
        (c as u32 - 'a' as u32 + 10) as u8
    } else {
        (c as u32 - 'A' as u32 + 10) as u8
    }
}

fn read_channel(chars: &Vec<char>, i: usize) -> (v: u8)
    requires
        i + 1 < chars.len(),
        is_hex_digit(chars@[i as int]),
        is_hex_digit(chars@[i + 1]),
    ensures
        v == channel(chars@, i as int),
{
    let hi = hex_digit_value(chars[i]);
    let lo = hex_digit_value(chars[i + 1]);
    hi * 16 + lo
}

/// A run of `m` ASCII characters takes `m` UTF-16 units.
proof fn lemma_ascii_run(s: Seq<char>, i: int, m: int)
    requires
        0 <= i,
        0 <= m,
        i + m <= s.len(),
        forall|k: int| i <= k < i + m ==> (#[trigger] s[k] as u32) < 0x80,
    ensures
        utf16_len(s.take(i + m)) == utf16_len(s.take(i)) + m,
    decreases m,
{
    if m > 0 {
        lemma_ascii_run(s, i, m - 1);
        lemma_take_step(s, i + m - 1);
    }
}

/// The digits counted by `hex_run` are hex digits.
proof fn lemma_hex_run_digits(s: Seq<char>, i: int, max: nat, k: int)
    requires
        0 <= i,
        i <= k < i + hex_run(s, i, max),
    ensures
        k < s.len(),
        is_hex_digit(s[k]),
    decreases max,
{
    if k > i {
        lemma_hex_run_digits(s, i + 1, (max - 1) as nat, k);
    }
}

/// Finds the hex color literals of `line`, which is line `line_idx` of its document.
pub fn parse_line_colors(line: &str, line_idx: usize) -> (r: Vec<ColorInformation>)
    ensures
        r@ == line_colors(line@, line_idx as int),
{
    let ghost s = line@;
    let n_bytes = line.as_bytes().len();
    let mut chars: Vec<char> = Vec::new();
    for c in it: line.chars()
        invariant
            it.seq() == s,
            chars@ == s.take(it.index() as int),
    {
        chars.push(c);
        proof {
            assert(chars@ =~= s.take(it.index() + 1));
        }
    }
    proof {
        assert(chars@ =~= s);
        assert(s.take(s.len() as int) =~= s);
        assert(s.take(0) =~= Seq::<char>::empty());
        lemma_len_bounds(s);
    }
    let n = chars.len();
    let mut colors: Vec<ColorInformation> = Vec::new();
    let mut i: usize = 0;
    let mut col: usize = 0;
    while i < n
        invariant
            chars@ == s,
            n == s.len(),
            n_bytes == utf8_len(s),
            utf16_len(s) <= utf8_len(s),
            s.take(s.len() as int) == s,
            i <= n,
            col == utf16_len(s.take(i as int)),
            line_colors(s, line_idx as int) == colors@ + colors_from(s, i as int, line_idx as int),
        decreases n - i,
    {
        let mut digits: usize = 0;
        if chars[i] == '#' {
            let mut j: usize = 0;
            while j < 8 && j < n - i - 1 && is_hex(chars[i + 1 + j])
                invariant
                    chars@ == s,
                    n == s.len(),
                    i < n,
                    j <= 8,
                    i + 1 + j <= n,
                    hex_run(s, i + 1, 8) == j + hex_run(s, i + 1 + j, (8 - j) as nat),
                decreases 8 - j,
            {
                j = j + 1;
            }
            if j == 8 {
                digits = 8;
            } else if j >= 6 {
                digits = 6;
            }
        }
        proof {
            assert(digits == literal_digits(s, i as int));
        }
        if digits > 0 {
            proof {
                assert forall|k: int| i < k < i + 1 + digits implies is_hex_digit(#[trigger] s[k]) by {
                    lemma_hex_run_digits(s, i + 1, 8, k);
                }
                assert forall|k: int| i <= k < i + 1 + digits implies (#[trigger] s[k] as u32)
                    < 0x80 by {
                    if k > i {
                        assert(is_hex_digit(s[k]));
                    }
                }
                lemma_ascii_run(s, i as int, 1 + digits);
                lemma_utf16_increasing(s, i + 1 + digits, s.len() as int);
            }
            let alpha = if digits == 8 {
                read_channel(&chars, i + 7)
            } else {
                255
            };
            let color = Color {
                red: read_channel(&chars, i + 1),
                green: read_channel(&chars, i + 3),
                blue: read_channel(&chars, i + 5),
                alpha,
            };
            let end = col + 1 + digits;
            let ghost before = colors@;
            colors.push(
                ColorInformation {
                    range: Range {
                        start: Position { line: line_idx, character: col },
                        end: Position { line: line_idx, character: end },
                    },
                    color,
                },
            );
            proof {
                assert(colors@ + colors_from(s, i + 1 + digits, line_idx as int) =~= before
                    + colors_from(s, i as int, line_idx as int));
            }
            i = i + 1 + digits;
            col = end;
        } else {
            proof {
                lemma_take_step(s, i as int);
                lemma_utf16_increasing(s, i + 1, s.len() as int);
            }
            col = col + if (chars[i] as u32) < 0x10000 {
                1
            } else {
                2
            };
            i = i + 1;
        }
    }
    proof {
        assert(colors@ =~= line_colors(s, line_idx as int));
    }
    colors
}

} // verus!
