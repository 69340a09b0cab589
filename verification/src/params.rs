use vstd::prelude::*;
use vstd::string::{StringExecFns, StringSliceAdditionalSpecFns};

verus! {

/// One of the bytes `0` to `9`.
pub open spec fn is_digit_byte(b: u8) -> bool {
    0x30 <= b <= 0x39
}

/// Where the run of digits that starts at `from` ends: the index of the first byte from
/// there on that is no digit, or the length of the text.
pub open spec fn digits_end(s: Seq<u8>, from: int) -> int
    decreases s.len() - from,
{
    if 0 <= from < s.len() && is_digit_byte(s[from]) {
        digits_end(s, from + 1)
    } else {
        from
    }
}

/// The number that a run of digits denotes, leading zeros allowed.
pub open spec fn number_value(digits: Seq<u8>) -> nat
    decreases digits.len(),
{
    if digits.len() == 0 {
        0
    } else {
        number_value(digits.drop_last()) * 10 + (digits.last() - 0x30) as nat
    }
}

/// The number that the digits from `from` up to `to` denote.
pub open spec fn field(s: Seq<u8>, from: int, to: int) -> nat {
    number_value(s.subrange(from, to))
}

/// The columns and rows that a text of the form `COLSxROWS` denotes: two numbers, each of
/// at least one digit, with an `x` between them and nothing else around them.
pub open spec fn grid_param(s: Seq<u8>) -> Option<(nat, nat)> {
    let a = digits_end(s, 0);
    let b = digits_end(s, a + 1);
    if 0 < a < s.len() && s[a] == 0x78 && a + 1 < b && b == s.len() {
        Some((field(s, 0, a), field(s, a + 1, b)))
    } else {
        None
    }
}

/// The rectangle `(width, height, x, y)` that a text of the form `WIDTHxHEIGHT+X+Y`
/// denotes: four numbers, each of at least one digit, with an `x` and two `+` between them
/// and nothing else around them.
pub open spec fn crop_param(s: Seq<u8>) -> Option<(nat, nat, nat, nat)> {
    let a = digits_end(s, 0);
    let b = digits_end(s, a + 1);
    let c = digits_end(s, b + 1);
    let d = digits_end(s, c + 1);
    if 0 < a < s.len() && s[a] == 0x78 && a + 1 < b < s.len() && s[b] == 0x2b && b + 1 < c
        < s.len() && s[c] == 0x2b && c + 1 < d && d == s.len() {
        Some((field(s, 0, a), field(s, a + 1, b), field(s, b + 1, c), field(s, c + 1, d)))
    } else {
        None
    }
}

/// A run of digits, at least one.
pub open spec fn is_number(digits: Seq<u8>) -> bool {
    digits.len() > 0 && forall|i: int| 0 <= i < digits.len() ==> is_digit_byte(#[trigger] digits[i])
}

/// The text `COLSxROWS` for two runs of digits.
pub open spec fn grid_text(cols: Seq<u8>, rows: Seq<u8>) -> Seq<u8> {
    cols + seq![0x78u8] + rows
}

/// The text `WIDTHxHEIGHT+X+Y` for four runs of digits.
pub open spec fn crop_text(width: Seq<u8>, height: Seq<u8>, x: Seq<u8>, y: Seq<u8>) -> Seq<u8> {
    width + seq![0x78u8] + height + seq![0x2bu8] + x + seq![0x2bu8] + y
}

/// Digits that reach from `from` up to `to`, where the text ends or a byte that is no digit
/// stands, are the run of digits that starts at `from`.
proof fn lemma_run_ends(s: Seq<u8>, from: int, to: int)
    requires
        0 <= from <= to <= s.len(),
        forall|i: int| from <= i < to ==> is_digit_byte(#[trigger] s[i]),
        to == s.len() || !is_digit_byte(s[to]),
    ensures
        digits_end(s, from) == to,
    decreases to - from,
{
    if from < to {
        lemma_run_ends(s, from + 1, to);
    }
}

/// The run of digits that starts at `from` consists of digits, and after it the text ends
/// or a byte that is no digit stands.
proof fn lemma_run(s: Seq<u8>, from: int)
    requires
        0 <= from <= s.len(),
    ensures
        from <= digits_end(s, from) <= s.len(),
        forall|i: int| from <= i < digits_end(s, from) ==> is_digit_byte(#[trigger] s[i]),
        digits_end(s, from) == s.len() || !is_digit_byte(s[digits_end(s, from)]),
    decreases s.len() - from,
{
    if from < s.len() && is_digit_byte(s[from]) {
        lemma_run(s, from + 1);
    }
}

/// Every text `COLSxROWS` of two runs of digits denotes a grid: that of the two numbers.
pub proof fn lemma_grid_text_is_read(cols: Seq<u8>, rows: Seq<u8>)
    requires
        is_number(cols),
        is_number(rows),
    ensures
        grid_param(grid_text(cols, rows)) == Some((number_value(cols), number_value(rows))),
{
    let s = grid_text(cols, rows);
    let a = cols.len() as int;
    assert forall|i: int| 0 <= i < a implies is_digit_byte(#[trigger] s[i]) by {
        assert(s[i] == cols[i]);
    }
    assert(s[a] == 0x78);
    lemma_run_ends(s, 0, a);
    assert forall|i: int| a + 1 <= i < s.len() implies is_digit_byte(#[trigger] s[i]) by {
        assert(s[i] == rows[i - a - 1]);
    }
    lemma_run_ends(s, a + 1, s.len() as int);
    assert(s.subrange(0, a) =~= cols);
    assert(s.subrange(a + 1, s.len() as int) =~= rows);
}

/// Only a text `COLSxROWS` of two runs of digits denotes a grid.
pub proof fn lemma_grid_param_is_text(s: Seq<u8>)
    requires
        grid_param(s) is Some,
    ensures
        ({
            let cols = s.subrange(0, digits_end(s, 0));
            let rows = s.subrange(digits_end(s, 0) + 1, s.len() as int);
            is_number(cols) && is_number(rows) && s == grid_text(cols, rows)
        }),
{
    let a = digits_end(s, 0);
    lemma_run(s, 0);
    lemma_run(s, a + 1);
    let cols = s.subrange(0, a);
    let rows = s.subrange(a + 1, s.len() as int);
    assert(s =~= grid_text(cols, rows));
}

/// Every text `WIDTHxHEIGHT+X+Y` of four runs of digits denotes a crop rectangle: that of
/// the four numbers.
pub proof fn lemma_crop_text_is_read(width: Seq<u8>, height: Seq<u8>, x: Seq<u8>, y: Seq<u8>)
    requires
        is_number(width),
        is_number(height),
        is_number(x),
        is_number(y),
    ensures
        crop_param(crop_text(width, height, x, y)) == Some(
            (number_value(width), number_value(height), number_value(x), number_value(y)),
        ),
{
    let s = crop_text(width, height, x, y);
    let a = width.len() as int;
    let b = a + 1 + height.len();
    let c = b + 1 + x.len();
    let d = c + 1 + y.len();
    assert(s.len() == d);
    assert forall|i: int| 0 <= i < a implies is_digit_byte(#[trigger] s[i]) by {
        assert(s[i] == width[i]);
    }
    assert(s[a] == 0x78);
    lemma_run_ends(s, 0, a);
    assert forall|i: int| a + 1 <= i < b implies is_digit_byte(#[trigger] s[i]) by {
        assert(s[i] == height[i - a - 1]);
    }
    assert(s[b] == 0x2b);
    lemma_run_ends(s, a + 1, b);
    assert forall|i: int| b + 1 <= i < c implies is_digit_byte(#[trigger] s[i]) by {
        assert(s[i] == x[i - b - 1]);
    }
    assert(s[c] == 0x2b);
    lemma_run_ends(s, b + 1, c);
    assert forall|i: int| c + 1 <= i < d implies is_digit_byte(#[trigger] s[i]) by {
        assert(s[i] == y[i - c - 1]);
    }
    lemma_run_ends(s, c + 1, d);
    assert(s.subrange(0, a) =~= width);
    assert(s.subrange(a + 1, b) =~= height);
    assert(s.subrange(b + 1, c) =~= x);
    assert(s.subrange(c + 1, d) =~= y);
}

/// Only a text `WIDTHxHEIGHT+X+Y` of four runs of digits denotes a crop rectangle.
pub proof fn lemma_crop_param_is_text(s: Seq<u8>)
    requires
        crop_param(s) is Some,
    ensures
        ({
            let a = digits_end(s, 0);
            let b = digits_end(s, a + 1);
            let c = digits_end(s, b + 1);
            let width = s.subrange(0, a);
            let height = s.subrange(a + 1, b);
            let x = s.subrange(b + 1, c);
            let y = s.subrange(c + 1, s.len() as int);
            is_number(width) && is_number(height) && is_number(x) && is_number(y) && s
                == crop_text(width, height, x, y)
        }),
{
    let a = digits_end(s, 0);
    let b = digits_end(s, a + 1);
    let c = digits_end(s, b + 1);
    lemma_run(s, 0);
    lemma_run(s, a + 1);
    lemma_run(s, b + 1);
    lemma_run(s, c + 1);
    let width = s.subrange(0, a);
    let height = s.subrange(a + 1, b);
    let x = s.subrange(b + 1, c);
    let y = s.subrange(c + 1, s.len() as int);
    assert(s =~= crop_text(width, height, x, y));
}

/// Reads the run of digits that starts at `from`: where it ends, and the number it denotes
/// unless that is above `limit`.
fn parse_number(s: &[u8], from: usize, limit: u64) -> (out: (usize, Option<u64>))
    requires
        from <= s@.len(),
    ensures
        out.0 == digits_end(s@, from as int),
        from <= out.0 <= s@.len(),
        match out.1 {
            Some(v) => v == field(s@, from as int, out.0 as int) && v <= limit,
            None => field(s@, from as int, out.0 as int) > limit,
        },
{
    let mut i: usize = from;
    let mut value: u64 = 0;
    let mut over: bool = false;
    assert(s@.subrange(from as int, from as int) =~= Seq::<u8>::empty());
    while i < s.len() && s[i] >= 0x30 && s[i] <= 0x39
        invariant
            from <= i <= s@.len(),
            digits_end(s@, from as int) == digits_end(s@, i as int),
            !over ==> value == field(s@, from as int, i as int) && value <= limit,
            over ==> field(s@, from as int, i as int) > limit,
        decreases s@.len() - i,
    {
        let digit: u64 = (s[i] - 0x30) as u64;
        proof {
            let next = s@.subrange(from as int, i + 1);
            assert(next.drop_last() =~= s@.subrange(from as int, i as int));
            assert(next.last() == s@[i as int]);
            assert(field(s@, from as int, i + 1) == field(s@, from as int, i as int) * 10 + digit);
        }
        if !over {
            let wide: u128 = value as u128 * 10 + digit as u128;
            if wide > limit as u128 {
                over = true;
            } else {
                value = wide as u64;
            }
        }
        i = i + 1;
    }
    if over {
        (i, None)
    } else {
        (i, Some(value))
    }
}

/// The message for a text that denotes no grid.
fn invalid_grid(s: &str) -> (message: String)
    ensures
        message@ == "Invalid grid format: "@ + s@,
{
    String::from_str("Invalid grid format: ").concat(s)
}

/// The message for a text that denotes no crop rectangle.
fn invalid_crop(s: &str) -> (message: String)
    ensures
        message@ == "Invalid crop format: "@ + s@,
{
    String::from_str("Invalid crop format: ").concat(s)
}

/// Parses a grid size such as `3x3` or `4x2` into `(columns, rows)`.
///
/// The text is rejected, with a message that repeats it, where it is not of the form
/// `COLSxROWS` or where a number does not fit in `usize`.
pub fn parse_grid_param_clap(s: &str) -> (out: Result<(usize, usize), String>)
    ensures
        match out {
            Ok((cols, rows)) => grid_param(s.spec_bytes()) == Some((cols as nat, rows as nat)),
            Err(message) => {
                &&& message@ == "Invalid grid format: "@ + s@
                &&& grid_param(s.spec_bytes()) matches Some((cols, rows)) ==> cols > usize::MAX
                    || rows > usize::MAX
            },
        },
{
    let bytes = s.as_bytes();
    let len = bytes.len();
    let limit: u64 = usize::MAX as u64;
    let (a, cols) = parse_number(bytes, 0, limit);
    if a == 0 || a >= len || bytes[a] != 0x78 {
        return Err(invalid_grid(s));
    }
    let (b, rows) = parse_number(bytes, a + 1, limit);
    if b == a + 1 || b != len {
        return Err(invalid_grid(s));
    }
    match (cols, rows) {
        (Some(cols), Some(rows)) => Ok((cols as usize, rows as usize)),
        _ => Err(invalid_grid(s)),
    }
}

/// Parses a crop rectangle such as `1265x1265+1422+366` into `(width, height, x, y)`.
///
/// The text is rejected, with a message that repeats it, where it is not of the form
/// `WIDTHxHEIGHT+X+Y` or where a number does not fit in `u32`.
pub fn parse_crop_param_clap(s: &str) -> (out: Result<(u32, u32, u32, u32), String>)
    ensures
        match out {
            Ok((width, height, x, y)) => crop_param(s.spec_bytes()) == Some(
                (width as nat, height as nat, x as nat, y as nat),
            ),
            Err(message) => {
                &&& message@ == "Invalid crop format: "@ + s@
                &&& crop_param(s.spec_bytes()) matches Some((width, height, x, y)) ==> width
                    > u32::MAX || height > u32::MAX || x > u32::MAX || y > u32::MAX
            },
        },
{
    let bytes = s.as_bytes();
    let len = bytes.len();
    let limit: u64 = u32::MAX as u64;
    let (a, width) = parse_number(bytes, 0, limit);
    if a == 0 || a >= len || bytes[a] != 0x78 {
        return Err(invalid_crop(s));
    }
    let (b, height) = parse_number(bytes, a + 1, limit);
    if b == a + 1 || b >= len || bytes[b] != 0x2b {
        return Err(invalid_crop(s));
    }
    let (c, x) = parse_number(bytes, b + 1, limit);
    if c == b + 1 || c >= len || bytes[c] != 0x2b {
        return Err(invalid_crop(s));
    }
    let (d, y) = parse_number(bytes, c + 1, limit);
    if d == c + 1 || d != len {
        return Err(invalid_crop(s));
    }
    match (width, height, x, y) {
        (Some(width), Some(height), Some(x), Some(y)) => Ok(
            (width as u32, height as u32, x as u32, y as u32),
        ),
        _ => Err(invalid_crop(s)),
    }
}

} // verus!
