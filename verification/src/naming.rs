use vstd::prelude::*;
use vstd::string::StringExecFns;

verus! {

/// The character that stands for a digit below ten.
pub open spec fn digit_char(d: nat) -> char {
    if d == 0 {
        '0'
    } else if d == 1 {
        '1'
    } else if d == 2 {
        '2'
    } else if d == 3 {
        '3'
    } else if d == 4 {
        '4'
    } else if d == 5 {
        '5'
    } else if d == 6 {
        '6'
    } else if d == 7 {
        '7'
    } else if d == 8 {
        '8'
    } else {
        '9'
    }
}

/// One of the characters `0` to `9`.
pub open spec fn is_digit(c: char) -> bool {
    '0' as u32 <= c as u32 <= '9' as u32
}

/// The number that a digit character stands for.
pub open spec fn digit_value(c: char) -> nat {
    (c as u32 - '0' as u32) as nat
}

/// A number in decimal notation, without leading zeros.
pub open spec fn decimal(n: nat) -> Seq<char>
    decreases n,
{
    if n < 10 {
        seq![digit_char(n)]
    } else {
        decimal(n / 10).push(digit_char(n % 10))
    }
}

/// A number in decimal notation, with a leading zero where it has only one digit.
pub open spec fn padded(n: nat) -> Seq<char> {
    if n < 10 {
        seq!['0', digit_char(n)]
    } else {
        decimal(n)
    }
}

/// The number that a string of digits denotes.
pub open spec fn decimal_value(s: Seq<char>) -> nat
    decreases s.len(),
{
    if s.len() == 0 {
        0
    } else {
        decimal_value(s.drop_last()) * 10 + digit_value(s.last())
    }
}

/// Every character of the string is a digit.
pub open spec fn all_digits(s: Seq<char>) -> bool {
    forall|i: int| 0 <= i < s.len() ==> is_digit(#[trigger] s[i])
}

/// The name under which a tile is stored: the prefix, then the number of the image, of the
/// tile's row and of its column, each with at least two digits and each after an
/// underscore, then the extension.
pub open spec fn tile_name(prefix: Seq<char>, image: nat, row: nat, col: nat) -> Seq<char> {
    prefix + seq!['_'] + padded(image) + seq!['_'] + padded(row) + seq!['_'] + padded(col)
        + seq!['.', 'p', 'n', 'g']
}

/// Decimal notation consists of digits, at least one, and denotes the number it was made for.
pub proof fn lemma_decimal(n: nat)
    ensures
        all_digits(decimal(n)),
        decimal(n).len() >= 1,
        decimal_value(decimal(n)) == n,
    decreases n,
{
    if n < 10 {
        let s = decimal(n);
        assert(s.drop_last() =~= Seq::<char>::empty());
        assert(decimal_value(s.drop_last()) == 0);
        assert(s.last() == digit_char(n));
    } else {
        lemma_decimal(n / 10);
        let s = decimal(n);
        assert(s.drop_last() =~= decimal(n / 10));
        assert(s.last() == digit_char(n % 10));
    }
}

/// Padded notation consists of digits, at least two, and denotes the number it was made for.
pub proof fn lemma_padded(n: nat)
    ensures
        all_digits(padded(n)),
        padded(n).len() >= 2,
        decimal_value(padded(n)) == n,
{
    lemma_decimal(n);
    if n < 10 {
        let s = padded(n);
        let z = seq!['0'];
        assert(s.drop_last() =~= z);
        assert(z.drop_last() =~= Seq::<char>::empty());
        assert(decimal_value(z.drop_last()) == 0);
        assert(decimal_value(z) == 0);
        assert(s.last() == digit_char(n));
    } else {
        assert(decimal(n).len() == decimal(n / 10).len() + 1);
        lemma_decimal(n / 10);
    }
}

/// A run of digits that a character other than a digit ends can be read off a string in
/// one way only.
proof fn lemma_digit_run(
    a: Seq<char>,
    s: char,
    t: Seq<char>,
    a2: Seq<char>,
    s2: char,
    t2: Seq<char>,
)
    requires
        all_digits(a),
        all_digits(a2),
        !is_digit(s),
        !is_digit(s2),
        a.push(s) + t == a2.push(s2) + t2,
    ensures
        a == a2,
        t == t2,
{
    let l = a.push(s) + t;
    let l2 = a2.push(s2) + t2;
    if a.len() < a2.len() {
        assert(l[a.len() as int] == s);
        assert(l2[a.len() as int] == a2[a.len() as int]);
        assert(false);
    }
    if a2.len() < a.len() {
        assert(l2[a2.len() as int] == s2);
        assert(l[a2.len() as int] == a[a2.len() as int]);
        assert(false);
    }
    assert forall|i: int| 0 <= i < a.len() implies a[i] == a2[i] by {
        assert(l[i] == a[i]);
        assert(l2[i] == a2[i]);
    }
    assert(a =~= a2);
    assert(l.len() == a.len() + 1 + t.len());
    assert(l2.len() == a2.len() + 1 + t2.len());
    assert(t.len() == t2.len());
    assert forall|i: int| 0 <= i < t.len() implies t[i] == t2[i] by {
        assert(l[a.len() + 1 + i] == t[i]);
        assert(l2[a.len() + 1 + i] == t2[i]);
    }
    assert(t =~= t2);
}

/// What follows the prefix and its underscore in a tile's name.
spec fn name_tail(image: nat, row: nat, col: nat) -> Seq<char> {
    padded(image).push('_') + (padded(row).push('_') + (padded(col).push('.') + seq![
        'p',
        'n',
        'g',
    ]))
}

/// A tile's name is the prefix, an underscore and the tail.
proof fn lemma_name_parts(prefix: Seq<char>, image: nat, row: nat, col: nat)
    ensures
        tile_name(prefix, image, row, col) == prefix.push('_') + name_tail(image, row, col),
{
    assert(tile_name(prefix, image, row, col) =~= prefix.push('_') + name_tail(image, row, col));
}

/// What follows equal beginnings of equal strings is equal.
proof fn lemma_same_head(head: Seq<char>, t: Seq<char>, t2: Seq<char>)
    requires
        head + t == head + t2,
    ensures
        t == t2,
{
    assert((head + t).len() == head.len() + t.len());
    assert((head + t2).len() == head.len() + t2.len());
    assert(t.len() == t2.len());
    assert forall|i: int| 0 <= i < t.len() implies t[i] == t2[i] by {
        assert((head + t)[head.len() + i] == t[i]);
        assert((head + t2)[head.len() + i] == t2[i]);
    }
    assert(t =~= t2);
}

/// Under one prefix, two tiles have the same name only where they are the same tile of the
/// same image.
pub proof fn lemma_tile_name_injective(
    prefix: Seq<char>,
    image: nat,
    row: nat,
    col: nat,
    image2: nat,
    row2: nat,
    col2: nat,
)
    requires
        tile_name(prefix, image, row, col) == tile_name(prefix, image2, row2, col2),
    ensures
        image == image2,
        row == row2,
        col == col2,
{
    let ext = seq!['p', 'n', 'g'];
    lemma_padded(image);
    lemma_padded(row);
    lemma_padded(col);
    lemma_padded(image2);
    lemma_padded(row2);
    lemma_padded(col2);
    lemma_name_parts(prefix, image, row, col);
    lemma_name_parts(prefix, image2, row2, col2);
    lemma_same_head(prefix.push('_'), name_tail(image, row, col), name_tail(image2, row2, col2));
    let r3 = padded(col).push('.') + ext;
    let r3b = padded(col2).push('.') + ext;
    let r2 = padded(row).push('_') + r3;
    let r2b = padded(row2).push('_') + r3b;
    lemma_digit_run(padded(image), '_', r2, padded(image2), '_', r2b);
    lemma_digit_run(padded(row), '_', r3, padded(row2), '_', r3b);
    lemma_digit_run(padded(col), '.', ext, padded(col2), '.', ext);
}

/// The one-character string of a digit below ten.
fn digit_str(d: usize) -> (s: &'static str)
    requires
        d < 10,
    ensures
        s@ == seq![digit_char(d as nat)],
{
    proof {
        reveal_strlit("0");
        reveal_strlit("1");
        reveal_strlit("2");
        reveal_strlit("3");
        reveal_strlit("4");
        reveal_strlit("5");
        reveal_strlit("6");
        reveal_strlit("7");
        reveal_strlit("8");
        reveal_strlit("9");
    }
    let s = if d == 0 {
        "0"
    } else if d == 1 {
        "1"
    } else if d == 2 {
        "2"
    } else if d == 3 {
        "3"
    } else if d == 4 {
        "4"
    } else if d == 5 {
        "5"
    } else if d == 6 {
        "6"
    } else if d == 7 {
        "7"
    } else if d == 8 {
        "8"
    } else {
        "9"
    };
    assert(s@ =~= seq![digit_char(d as nat)]);
    s
}

/// Appends a number in decimal notation.
fn append_decimal(s: &mut String, n: usize)
    ensures
        final(s)@ == old(s)@ + decimal(n as nat),
    decreases n,
{
    if n >= 10 {
        append_decimal(s, n / 10);
    }
    let ghost before = s@;
    s.append(digit_str(n % 10));
    assert(s@ =~= old(s)@ + decimal(n as nat));
}

/// Appends a number in decimal notation, with a leading zero where it has only one digit.
fn append_padded(s: &mut String, n: usize)
    ensures
        final(s)@ == old(s)@ + padded(n as nat),
{
    if n < 10 {
        s.append(digit_str(0));
    }
    append_decimal(s, n);
    assert(s@ =~= old(s)@ + padded(n as nat));
}

/// The name under which the tile in row `row` and column `col` of image number `image`
/// is stored, for example `tile_00_01_02.png`.
pub fn tile_file_name(prefix: &str, image: usize, row: usize, col: usize) -> (name: String)
    ensures
        name@ == tile_name(prefix@, image as nat, row as nat, col as nat),
{
    proof {
        reveal_strlit("_");
        reveal_strlit(".png");
    }
    let mut name = String::from_str(prefix);
    name.append("_");
    append_padded(&mut name, image);
    name.append("_");
    append_padded(&mut name, row);
    name.append("_");
    append_padded(&mut name, col);
    name.append(".png");
    assert(name@ =~= tile_name(prefix@, image as nat, row as nat, col as nat));
    name
}

} // verus!
