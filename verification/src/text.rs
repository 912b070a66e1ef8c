//! Text for reports and files: decimal numbers, padding, joining and the
//! reading of counts.

use crate::scalar::Scalar;
use crate::transport::{flat, joined};
use vstd::prelude::*;
use vstd::string::*;

verus! {

/// How a number is written.
#[derive(Clone, Copy, PartialEq, Eq, Structural, Debug)]
pub enum Style {
    /// The shortest text that reads back as the number.
    Plain,
    /// A fixed number of decimals.
    Fixed(usize),
    /// Scientific notation with a fixed number of decimals.
    Exponent(usize),
}

/// The writer of numbers: `f` writes every number in every style, always the
/// same way.
pub open spec fn is_rendering<R: Fn(Style, Scalar) -> String>(f: R) -> bool {
    &&& forall|style: Style, x: Scalar| #[trigger] f.requires((style, x))
    &&& forall|style: Style, x: Scalar, r: String, s: String| #[trigger]
        f.ensures((style, x), r) && #[trigger] f.ensures((style, x), s) ==> r@ == s@
}

/// What the writer of numbers writes.
pub open spec fn rendered<R: Fn(Style, Scalar) -> String>(f: R, style: Style, x: Scalar) -> Seq<char> {
    (choose|s: String| f.ensures((style, x), s))@
}

/// The text of `x` in the given style.
pub fn render<R: Fn(Style, Scalar) -> String>(f: &R, style: Style, x: Scalar) -> (r: String)
    requires
        is_rendering(*f),
    ensures
        r@ == rendered(*f, style, x),
{
    f(style, x)
}

/// The decimal digit of a number below ten.
pub open spec fn digit(d: int) -> char {
    if d == 0 {
        '0'
    } else if d == 1 {
        '1'
    } else if d == 2 {
        '2'
    } else if d == 3 {
        '3'
    } else if d == 4 {
        '4'
    } else if d == 5 {
        '5'
    } else if d == 6 {
        '6'
    } else if d == 7 {
        '7'
    } else if d == 8 {
        '8'
    } else {
        '9'
    }
}

/// The decimal digits of `n`, without leading zeros.
pub open spec fn digits(n: nat) -> Seq<char>
    decreases n,
{
    if n < 10 {
        seq![digit(n as int)]
    } else {
        digits(n / 10).push(digit((n % 10) as int))
    }
}

fn digit_text(d: u64) -> (r: &'static str)
    requires
        d < 10,
    ensures
        r@ == seq![digit(d as int)],
{
    proof {
        reveal_strlit("0");
        reveal_strlit("1");
        reveal_strlit("2");
        reveal_strlit("3");
        reveal_strlit("4");
        reveal_strlit("5");
        reveal_strlit("6");
        reveal_strlit("7");
        reveal_strlit("8");
        reveal_strlit("9");
    }
    let r: &'static str = match d {
        0 => "0",
        1 => "1",
        2 => "2",
        3 => "3",
        4 => "4",
        5 => "5",
        6 => "6",
        7 => "7",
        8 => "8",
        _ => "9",
    };
    assert(r@ =~= seq![digit(d as int)]);
    r
}

/// The number in decimal.
pub fn decimal(n: u64) -> (r: String)
    ensures
        r@ == digits(n as nat),
    decreases n,
{
    if n < 10 {
        digit_text(n).to_owned()
    } else {
        let mut s: String = decimal(n / 10);
        s.append(digit_text(n % 10));
        proof {
            assert(s@ =~= digits((n / 10) as nat).push(digit((n % 10) as int)));
        }
        s
    }
}

/// The decimal text of a signed number.
pub open spec fn signed_digits(n: int) -> Seq<char> {
    if n < 0 {
        seq!['-'] + digits((-n) as nat)
    } else {
        digits(n as nat)
    }
}

/// The signed number in decimal.
pub fn signed_decimal(n: i32) -> (r: String)
    ensures
        r@ == signed_digits(n as int),
{
    if n < 0 {
        proof {
            reveal_strlit("-");
        }
        let mut s: String = "-".to_owned();
        let size: i64 = 0 - n as i64;
        let tail: String = decimal(size as u64);
        s.append(tail.as_str());
        assert(s@ =~= signed_digits(n as int));
        s
    } else {
        decimal(n as u64)
    }
}

/// `n` times the same character.
pub open spec fn repeated(c: char, n: nat) -> Seq<char> {
    Seq::new(n, |i: int| c)
}

/// Appends a character `n` times.
pub fn append_repeated(s: &mut String, unit: &str, n: usize)
    requires
        unit@.len() == 1,
    ensures
        final(s)@ == old(s)@ + repeated(unit@[0], n as nat),
{
    let mut i: usize = 0;
    while i < n
        invariant
            i <= n,
            unit@.len() == 1,
            s@ =~= old(s)@ + repeated(unit@[0], i as nat),
        decreases n - i,
    {
        s.append(unit);
        i = i + 1;
    }
}

/// `s` at the left of a field of `width` characters.
pub open spec fn padded(s: Seq<char>, width: nat) -> Seq<char> {
    if s.len() >= width {
        s
    } else {
        s + repeated(' ', (width - s.len()) as nat)
    }
}

/// Puts `s` at the left of a field of `width` characters.
pub fn pad(s: &str, width: usize) -> (r: String)
    ensures
        r@ == padded(s@, width as nat),
{
    let mut out: String = s.to_owned();
    let len: usize = s.unicode_len();
    if len < width {
        proof {
            reveal_strlit(" ");
        }
        append_repeated(&mut out, " ", width - len);
    }
    out
}

/// The texts of a list.
pub open spec fn texts(parts: Seq<String>) -> Seq<Seq<char>> {
    Seq::new(parts.len(), |i: int| parts[i]@)
}

/// The texts one after the other with a separator between them.
pub open spec fn joined_with(parts: Seq<Seq<char>>, sep: Seq<char>) -> Seq<char>
    decreases parts.len(),
{
    if parts.len() == 0 {
        seq![]
    } else if parts.len() == 1 {
        parts[0]
    } else {
        joined_with(parts.drop_last(), sep) + sep + parts.last()
    }
}

/// Joins the texts with a separator between them.
pub fn join(parts: &Vec<String>, sep: &str) -> (r: String)
    ensures
        r@ == joined_with(texts(parts@), sep@),
{
    let mut out: String = String::new();
    let mut i: usize = 0;
    while i < parts.len()
        invariant
            i <= parts@.len(),
            out@ == joined_with(texts(parts@).take(i as int), sep@),
        decreases parts.len() - i,
    {
        if i > 0 {
            out.append(sep);
        }
        out.append(parts[i].as_str());
        proof {
            let now: Seq<Seq<char>> = texts(parts@).take(i + 1);
            assert(now.drop_last() =~= texts(parts@).take(i as int));
            assert(now.last() == parts@[i as int]@);
            assert(out@ =~= joined_with(now, sep@));
        }
        i = i + 1;
    }
    proof {
        assert(texts(parts@).take(parts@.len() as int) =~= texts(parts@));
    }
    out
}

/// The lines, each ended by a line break.
pub open spec fn ended(lines: Seq<Seq<char>>) -> Seq<Seq<char>> {
    Seq::new(lines.len(), |i: int| lines[i].push('\n'))
}

/// The text of a file with these lines.
pub open spec fn file_text(lines: Seq<Seq<char>>) -> Seq<char> {
    joined(ended(lines))
}

/// Writes the lines one after the other, each ended by a line break.
pub fn write_lines(lines: &Vec<String>) -> (r: String)
    ensures
        r@ == file_text(texts(lines@)),
{
    let ghost all: Seq<Seq<char>> = ended(texts(lines@));
    let mut out: String = String::new();
    let mut i: usize = 0;
    proof {
        reveal_strlit("\n");
        assert(out@ =~= flat(all, 0));
    }
    while i < lines.len()
        invariant
            i <= lines@.len(),
            all == ended(texts(lines@)),
            "\n"@.len() == 1,
            "\n"@[0] == '\n',
            out@ == flat(all, i as int),
        decreases lines.len() - i,
    {
        out.append(lines[i].as_str());
        out.append("\n");
        assert(out@ =~= flat(all, i as int) + all[i as int]);
        i = i + 1;
    }
    out
}

/// What a decimal digit stands for.
pub open spec fn digit_value(c: char) -> Option<int> {
    if '0' <= c && c <= '9' {
        Some(c as u32 - '0' as u32)
    } else {
        None
    }
}

/// What a row of decimal digits stands for; the empty row stands for zero.
pub open spec fn digits_value(s: Seq<char>) -> Option<int>
    decreases s.len(),
{
    if s.len() == 0 {
        Some(0)
    } else {
        match (digits_value(s.drop_last()), digit_value(s.last())) {
            (Some(head), Some(d)) => Some(head * 10 + d),
            _ => None,
        }
    }
}

/// What `s` stands for as a count: decimal digits, at least one, after an
/// optional plus sign.
pub open spec fn count_value(s: Seq<char>) -> Option<int> {
    let body = if s.len() > 1 && s[0] == '+' {
        s.skip(1)
    } else {
        s
    };
    if body.len() == 0 {
        None
    } else {
        digits_value(body)
    }
}

/// Reads a count; `None` where the text is none or the count does not fit.
pub fn parse_count(s: &str) -> (r: Option<usize>)
    ensures
        r matches Some(n) ==> count_value(s@) == Some(n as int),
        r is None ==> match count_value(s@) {
            Some(n) => n > usize::MAX,
            None => true,
        },
{
    let len: usize = s.unicode_len();
    let mut i: usize = 0;
    if len > 1 && s.get_char(0) == '+' {
        i = 1;
    }
    if len == 0 {
        return None;
    }
    let start: usize = i;
    let ghost body: Seq<char> = s@.skip(start as int);
    proof {
        assert(s@.skip(0) =~= s@);
        assert(body.take(0).len() == 0);
        assert(count_value(s@) == digits_value(body));
    }
    let mut total: usize = 0;
    while i < len
        invariant
            start <= i <= len == s@.len(),
            body == s@.skip(start as int),
            count_value(s@) == digits_value(body),
            digits_value(body.take(i - start)) == Some(total as int),
        decreases len - i,
    {
        let c: char = s.get_char(i);
        let ghost now: Seq<char> = body.take(i + 1 - start);
        proof {
            assert(now.drop_last() =~= body.take(i - start));
            assert(now.last() == c);
        }
        if !('0' <= c && c <= '9') {
            proof {
                lemma_bad_digit(body, i + 1 - start);
            }
            return None;
        }
        let d: usize = (c as u32 - '0' as u32) as usize;
        if total > (usize::MAX - d) / 10 {
            proof {
                lemma_value_grows(body, i + 1 - start);
                assert(total * 10 + d > usize::MAX) by (nonlinear_arith)
                    requires
                        total > (usize::MAX - d) / 10,
                        d <= 9,
                ;
            }
            return None;
        }
        assert(total * 10 + d <= usize::MAX) by (nonlinear_arith)
            requires
                total <= (usize::MAX - d) / 10,
                d <= 9,
        ;
        total = total * 10 + d;
        i = i + 1;
    }
    proof {
        assert(body.take(len - start) =~= body);
    }
    Some(total)
}

/// A row of digits whose head is no row of digits is none either.
proof fn lemma_bad_digit(s: Seq<char>, k: int)
    requires
        0 <= k <= s.len(),
        digits_value(s.take(k)) is None,
    ensures
        digits_value(s) is None,
    decreases s.len(),
{
    if k == s.len() {
        assert(s.take(k) =~= s);
    } else {
        assert(s.drop_last().take(k) =~= s.take(k));
        lemma_bad_digit(s.drop_last(), k);
    }
}

/// A longer row of digits stands for no smaller number.
proof fn lemma_value_grows(s: Seq<char>, k: int)
    requires
        0 <= k <= s.len(),
    ensures
        digits_value(s) matches Some(n) ==> digits_value(s.take(k)) matches Some(m) && 0 <= m <= n,
    decreases s.len(),
{
    if k < s.len() {
        assert(s.drop_last().take(k) =~= s.take(k));
        lemma_value_grows(s.drop_last(), k);
    } else {
        assert(s.take(k) =~= s);
        if s.len() > 0 {
            lemma_value_grows(s.drop_last(), s.len() - 1);
            assert(s.drop_last().take(s.len() - 1) =~= s.drop_last());
        }
    }
}

/// The decimal digits of a number are read back as the number.
pub proof fn digits_round_trip(n: nat)
    ensures
        digits(n).len() > 0,
        digits_value(digits(n)) == Some(n as int),
        count_value(digits(n)) == Some(n as int),
        digits(n)[0] != '+',
    decreases n,
{
    reveal_with_fuel(digits_value, 2);
    if n < 10 {
        assert(digits(n).drop_last() =~= seq![]);
    } else {
        digits_round_trip(n / 10);
        assert(digits(n).drop_last() =~= digits(n / 10));
        assert(digits(n)[0] == digits(n / 10)[0]);
    }
}

} // verus!
