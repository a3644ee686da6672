use vstd::prelude::*;
use crate::model::color::Color;

verus! {

// ------------------------------------------------------------ hexadecimal colour lines
/// The value of a hexadecimal digit byte, either case.
pub open spec fn hex_digit(b: u8) -> Option<u8> {
    if 48 <= b <= 57 {
        Some((b - 48) as u8)
    } else if 65 <= b <= 70 {
        Some((b - 55) as u8)
    } else if 97 <= b <= 102 {
        Some((b - 87) as u8)
    } else {
        None
    }
}

/// The byte two hexadecimal characters give, read as an unsigned number in base
/// 16 that may carry a leading plus sign.
pub open spec fn hex_pair(a: u8, b: u8) -> Option<u8> {
    if a == 43 {
        hex_digit(b)
    } else {
        match (hex_digit(a), hex_digit(b)) {
            (Some(x), Some(y)) => Some((x * 16 + y) as u8),
            _ => None,
        }
    }
}

/// A line without its leading `#`, if it has one.
pub open spec fn hex_body(line: Seq<u8>) -> Seq<u8> {
    if line.len() > 0 && line[0] == 35 {
        line.drop_first()
    } else {
        line
    }
}

/// A UTF-8 continuation byte: no character starts there.
pub open spec fn continuation(b: u8) -> bool {
    128 <= b < 192
}

/// Splitting the six-byte body of a line into pairs cuts no character.
pub open spec fn pairs_split_chars(line: Seq<u8>) -> bool {
    let body = hex_body(line);
    body.len() == 6 ==> !continuation(body[2]) && !continuation(body[4])
}

/// The opaque colour a trimmed palette line names: six hexadecimal characters,
/// after an optional `#`, in red, green, blue order; none for any other line.
pub open spec fn hex_line_color(line: Seq<u8>) -> Option<Color> {
    let body = hex_body(line);
    if body.len() != 6 {
        None
    } else {
        match (hex_pair(body[0], body[1]), hex_pair(body[2], body[3]), hex_pair(body[4], body[5])) {
            (Some(r), Some(g), Some(b)) => Some(Color { r, g, b, a: 255 }),
            _ => None,
        }
    }
}

fn digit_value(b: u8) -> (r: Option<u8>)
    ensures
        r == hex_digit(b),
{
    if 48 <= b && b <= 57 {
        Some(b - 48)
    } else if 65 <= b && b <= 70 {
        Some(b - 55)
    } else if 97 <= b && b <= 102 {
        Some(b - 87)
    } else {
        None
    }
}

fn pair_value(a: u8, b: u8) -> (r: Option<u8>)
    ensures
        r == hex_pair(a, b),
{
    if a == 43 {
        return digit_value(b);
    }
    match (digit_value(a), digit_value(b)) {
        (Some(x), Some(y)) => Some(x * 16 + y),
        _ => None,
    }
}

/// The colour of one trimmed line of a hexadecimal palette file; `None` for a
/// line that names none (such lines are skipped).
pub fn parse_hex_line(line: &[u8]) -> (r: Option<Color>)
    requires
        pairs_split_chars(line@),
    ensures
        r == hex_line_color(line@),
{
    let start: usize = if line.len() > 0 && line[0] == 35 {
        1
    } else {
        0
    };
    if line.len() - start != 6 {
        return None;
    }
    proof {
        assert(hex_body(line@) =~= line@.subrange(start as int, line@.len() as int));
    }
    let r = pair_value(line[start], line[start + 1]);
    let g = pair_value(line[start + 2], line[start + 3]);
    let b = pair_value(line[start + 4], line[start + 5]);
    match (r, g, b) {
        (Some(r), Some(g), Some(b)) => Some(Color::new(r, g, b, 255)),
        _ => None,
    }
}

/// The colours of a palette file's trimmed, non-empty lines, skipping lines
/// that name none.
pub open spec fn hex_lines_colors(lines: Seq<Seq<u8>>) -> Seq<Color>
    decreases lines.len(),
{
    if lines.len() == 0 {
        Seq::empty()
    } else {
        let prev = hex_lines_colors(lines.drop_last());
        let last = lines.last();
        if last.len() == 0 {
            prev
        } else {
            match hex_line_color(last) {
                Some(c) => prev.push(c),
                None => prev,
            }
        }
    }
}

/// The colours of a hexadecimal palette file given as its trimmed lines.
pub fn parse_hex_lines(lines: &Vec<Vec<u8>>) -> (colors: Vec<Color>)
    requires
        forall|i: int| 0 <= i < lines@.len() ==> pairs_split_chars(#[trigger] lines@[i]@),
    ensures
        colors@ == hex_lines_colors(lines@.map_values(|l: Vec<u8>| l@)),
{
    let ghost ls = lines@.map_values(|l: Vec<u8>| l@);
    let mut colors: Vec<Color> = Vec::new();
    let n = lines.len();
    for i in 0..n
        invariant
            n == lines@.len(),
            ls == lines@.map_values(|l: Vec<u8>| l@),
            forall|k: int| 0 <= k < lines@.len() ==> pairs_split_chars(#[trigger] lines@[k]@),
            colors@ == hex_lines_colors(ls.take(i as int)),
    {
        proof {
            assert(ls.take(i + 1).drop_last() =~= ls.take(i as int));
            assert(ls.take(i + 1).last() == lines@[i as int]@);
        }
        if lines[i].len() > 0 {
            match parse_hex_line(lines[i].as_slice()) {
                Some(c) => colors.push(c),
                None => {},
            }
        }
    }
    proof {
        assert(ls.take(n as int) =~= ls);
    }
    colors
}

/// The upper-case hexadecimal character of a value below 16.
pub open spec fn hex_char(v: u8) -> u8 {
    if v < 10 {
        (v + 48) as u8
    } else {
        (v + 55) as u8
    }
}

/// The line a colour is saved as: red, green and blue as two upper-case
/// hexadecimal characters each; alpha is not saved.
pub open spec fn hex_line_bytes(c: Color) -> Seq<u8> {
    seq![
        hex_char(c.r / 16),
        hex_char(c.r % 16),
        hex_char(c.g / 16),
        hex_char(c.g % 16),
        hex_char(c.b / 16),
        hex_char(c.b % 16),
    ]
}

fn hex_char_of(v: u8) -> (c: u8)
    requires
        v < 16,
    ensures
        c == hex_char(v),
{
    if v < 10 {
        v + 48
    } else {
        v + 55
    }
}

/// The bytes of the line a colour is saved as, without the line break.
pub fn hex_line(c: Color) -> (out: Vec<u8>)
    ensures
        out@ == hex_line_bytes(c),
{
    let mut out: Vec<u8> = Vec::new();
    out.push(hex_char_of(c.r / 16));
    out.push(hex_char_of(c.r % 16));
    out.push(hex_char_of(c.g / 16));
    out.push(hex_char_of(c.g % 16));
    out.push(hex_char_of(c.b / 16));
    out.push(hex_char_of(c.b % 16));
    assert(out@ =~= hex_line_bytes(c));
    out
}

/// A saved line reads back as the colour made opaque.
pub proof fn law_hex_line_roundtrip(c: Color)
    ensures
        pairs_split_chars(hex_line_bytes(c)),
        hex_line_color(hex_line_bytes(c)) == Some(Color { r: c.r, g: c.g, b: c.b, a: 255 }),
{
    let l = hex_line_bytes(c);
    assert(hex_body(l) == l);
    assert forall|v: u8| v < 16 implies #[trigger] hex_digit(hex_char(v)) == Some(v) && !continuation(hex_char(v)) && hex_char(v)
        != 43 by {}
    assert(hex_pair(l[0], l[1]) == Some(c.r));
    assert(hex_pair(l[2], l[3]) == Some(c.g));
    assert(hex_pair(l[4], l[5]) == Some(c.b));
}

} // verus!
