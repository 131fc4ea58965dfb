//! The text format of an initial cell list: one `x,y` per line, closed by a line
//! reading `END` in any case, or by the end of the input. Surrounding Unicode
//! whitespace is ignored; each coordinate is a decimal `u32`, optionally preceded by `+`.
use crate::cell::Cell;
use vstd::prelude::*;
use vstd::string::StrSliceExecFns;

verus! {

/// What one line of the list holds.
#[derive(Clone, Copy, PartialEq, Eq, Structural, Debug)]
pub enum CellLine {
    /// The closing line.
    End,
    /// A live cell.
    Alive(Cell),
}

/// Why a line was refused.
#[derive(Clone, Copy, PartialEq, Eq, Structural, Debug)]
pub enum InputError {
    /// Not `END` and not two coordinates separated by one comma.
    InvalidFormat,
    /// The coordinates `(x, y)` lie outside the square grid.
    InvalidPosition(u32, u32),
}

/// `c` is Unicode whitespace (the White_Space property).
pub open spec fn is_space(c: char) -> bool {
    let v = c as u32;
    ||| 9 <= v <= 13
    ||| v == 32
    ||| v == 0x85
    ||| v == 0xa0
    ||| v == 0x1680
    ||| 0x2000 <= v <= 0x200a
    ||| v == 0x2028
    ||| v == 0x2029
    ||| v == 0x202f
    ||| v == 0x205f
    ||| v == 0x3000
}

fn is_space_char(c: char) -> (r: bool)
    ensures
        r == is_space(c),
{
    let v = c as u32;
    (9 <= v && v <= 13) || v == 32 || v == 0x85 || v == 0xa0 || v == 0x1680 || (0x2000 <= v && v
        <= 0x200a) || v == 0x2028 || v == 0x2029 || v == 0x202f || v == 0x205f || v == 0x3000
}

pub open spec fn trim_start(s: Seq<char>) -> Seq<char>
    decreases s.len(),
{
    if s.len() > 0 && is_space(s[0]) {
        trim_start(s.drop_first())
    } else {
        s
    }
}

pub open spec fn trim_end(s: Seq<char>) -> Seq<char>
    decreases s.len(),
{
    if s.len() > 0 && is_space(s.last()) {
        trim_end(s.drop_last())
    } else {
        s
    }
}

/// `s` without leading and trailing whitespace.
pub open spec fn trim(s: Seq<char>) -> Seq<char> {
    trim_end(trim_start(s))
}

/// `s` reads `END` in any mix of ASCII cases.
pub open spec fn is_end_word(s: Seq<char>) -> bool {
    &&& s.len() == 3
    &&& (s[0] == 'E' || s[0] == 'e')
    &&& (s[1] == 'N' || s[1] == 'n')
    &&& (s[2] == 'D' || s[2] == 'd')
}

pub open spec fn is_digit(c: char) -> bool {
    48 <= c as u32 && c as u32 <= 57
}

/// The value of a string of decimal digits.
pub open spec fn digits_value(s: Seq<char>) -> nat
    decreases s.len(),
{
    if s.len() == 0 {
        0
    } else {
        digits_value(s.drop_last()) * 10 + (s.last() as u32 - 48) as nat
    }
}

/// The `u32` that `s` spells: an optional `+`, then at least one digit, with a
/// value that fits.
pub open spec fn parse_u32(s: Seq<char>) -> Option<u32> {
    if s.len() > 0 && s[0] == '+' {
        parse_digits(s.drop_first())
    } else {
        parse_digits(s)
    }
}

/// The `u32` that the digits `d` spell: at least one digit, with a value that fits.
pub open spec fn parse_digits(d: Seq<char>) -> Option<u32> {
    if d.len() > 0 && (forall|i: int| 0 <= i < d.len() ==> is_digit(#[trigger] d[i]))
        && digits_value(d) <= u32::MAX {
        Some(digits_value(d) as u32)
    } else {
        None
    }
}

pub open spec fn comma_free(s: Seq<char>) -> bool {
    forall|i: int| 0 <= i < s.len() ==> #[trigger] s[i] != ','
}

/// `p` is the position of the first comma of `s`.
pub open spec fn first_comma(s: Seq<char>, p: int) -> bool {
    0 <= p < s.len() && s[p] == ',' && comma_free(s.take(p))
}

/// What a line holds, or why it is refused, for a grid of side `size`.
pub open spec fn line_meaning(line: Seq<char>, size: u32) -> Result<CellLine, InputError> {
    let t = trim(line);
    if is_end_word(t) {
        Ok(CellLine::End)
    } else if comma_free(t) {
        Err(InputError::InvalidFormat)
    } else {
        let p = choose|p: int| first_comma(t, p);
        if !comma_free(t.skip(p + 1)) {
            Err(InputError::InvalidFormat)
        } else {
            match (parse_u32(t.take(p)), parse_u32(t.skip(p + 1))) {
                (Some(x), Some(y)) => if x < size && y < size {
                    Ok(CellLine::Alive(Cell { x, y }))
                } else {
                    Err(InputError::InvalidPosition(x, y))
                },
                _ => Err(InputError::InvalidFormat),
            }
        }
    }
}

/// The cells that `lines` list, up to the closing line or the end of the input,
/// or the first refusal.
pub open spec fn list_meaning(lines: Seq<Seq<char>>, size: u32) -> Result<Seq<Cell>, InputError>
    decreases lines.len(),
{
    if lines.len() == 0 {
        Ok(Seq::empty())
    } else {
        match line_meaning(lines[0], size) {
            Err(e) => Err(e),
            Ok(CellLine::End) => Ok(Seq::empty()),
            Ok(CellLine::Alive(c)) => match list_meaning(lines.drop_first(), size) {
                Ok(rest) => Ok(seq![c] + rest),
                Err(e) => Err(e),
            },
        }
    }
}

proof fn lemma_trim_start_step(s: Seq<char>, i: int)
    requires
        0 <= i < s.len(),
        is_space(s[i]),
    ensures
        trim_start(s.skip(i)) == trim_start(s.skip(i + 1)),
{
    assert(s.skip(i).drop_first() =~= s.skip(i + 1));
}

proof fn lemma_trim_end_step(s: Seq<char>, j: int)
    requires
        0 < j <= s.len(),
        is_space(s[j - 1]),
    ensures
        trim_end(s.take(j)) == trim_end(s.take(j - 1)),
{
    assert(s.take(j).drop_last() =~= s.take(j - 1));
}

/// The characters of `line`, in order.
fn chars_of(line: &str) -> (r: Vec<char>)
    ensures
        r@ == line@,
{
    let n = line.unicode_len();
    let mut r: Vec<char> = Vec::new();
    let mut i: usize = 0;
    while i < n
        invariant
            i <= n,
            n == line@.len(),
            r@ == line@.take(i as int),
        decreases n - i,
    {
        r.push(line.get_char(i));
        assert(line@.take(i as int + 1) =~= line@.take(i as int).push(line@[i as int]));
        i = i + 1;
    }
    assert(line@.take(n as int) =~= line@);
    r
}

/// The characters of `line` without leading and trailing whitespace.
fn trimmed(line: &Vec<char>) -> (r: Vec<char>)
    ensures
        r@ == trim(line@),
{
    let n = line.len();
    let mut a: usize = 0;
    assert(line@.skip(0) =~= line@);
    while a < n && is_space_char(line[a])
        invariant
            a <= n,
            n == line@.len(),
            trim_start(line@) == trim_start(line@.skip(a as int)),
        decreases n - a,
    {
        proof {
            lemma_trim_start_step(line@, a as int);
        }
        a = a + 1;
    }
    let ghost s = line@.skip(a as int);
    assert(trim_start(s) == s);
    let mut b: usize = n;
    assert(s.take(b - a) =~= s);
    while b > a && is_space_char(line[b - 1])
        invariant
            a <= b <= n,
            n == line@.len(),
            s == line@.skip(a as int),
            trim_end(s) == trim_end(s.take(b - a)),
        decreases b - a,
    {
        proof {
            lemma_trim_end_step(s, (b - a) as int);
        }
        b = b - 1;
    }
    let mut r: Vec<char> = Vec::new();
    let mut k: usize = a;
    while k < b
        invariant
            a <= k <= b,
            b <= n,
            n == line@.len(),
            r@ == line@.subrange(a as int, k as int),
        decreases b - k,
    {
        r.push(line[k]);
        k = k + 1;
    }
    proof {
        assert(s.take(b - a) =~= line@.subrange(a as int, b as int));
        if b > a {
            assert(trim_end(s.take(b - a)) == s.take(b - a));
        } else {
            assert(s.take(b - a) =~= Seq::<char>::empty());
        }
    }
    r
}

/// The `u32` that `s[lo..hi]` spells, if it spells one.
fn parse_u32_range(s: &Vec<char>, lo: usize, hi: usize) -> (r: Option<u32>)
    requires
        lo <= hi <= s@.len(),
    ensures
        r == parse_u32(s@.subrange(lo as int, hi as int)),
{
    let ghost whole = s@.subrange(lo as int, hi as int);
    let mut start = lo;
    if lo < hi && s[lo] == '+' {
        start = lo + 1;
    }
    let ghost d = s@.subrange(start as int, hi as int);
    proof {
        if lo < hi && s@[lo as int] == '+' {
            assert(whole.drop_first() =~= d);
        } else {
            assert(whole =~= d);
        }
        assert(parse_u32(whole) == parse_digits(d));
    }
    if start == hi {
        return None;
    }
    let mut value: u64 = 0;
    let mut too_big = false;
    let mut i: usize = start;
    while i < hi
        invariant
            start <= i <= hi,
            hi <= s@.len(),
            d == s@.subrange(start as int, hi as int),
            d.len() > 0,
            parse_u32(s@.subrange(lo as int, hi as int)) == parse_digits(d),
            forall|j: int| start <= j < i ==> is_digit(#[trigger] s@[j]),
            !too_big ==> value == digits_value(s@.subrange(start as int, i as int)),
            too_big ==> digits_value(s@.subrange(start as int, i as int)) > u32::MAX,
            value <= u32::MAX,
        decreases hi - i,
    {
        let b = s[i] as u32;
        if !(48 <= b && b <= 57) {
            proof {
                assert(d[i - start] as u32 == b);
                assert(!is_digit(d[i - start]));
            }
            return None;
        }
        proof {
            let p = s@.subrange(start as int, i as int + 1);
            assert(p.drop_last() =~= s@.subrange(start as int, i as int));
            assert(digits_value(p) == digits_value(s@.subrange(start as int, i as int)) * 10 + (b
                - 48) as nat);
        }
        if !too_big {
            let next = value * 10 + (b - 48) as u64;
            if next > 0xffff_ffff {
                too_big = true;
            } else {
                value = next;
            }
        } else {
            proof {
                let p = s@.subrange(start as int, i as int);
                assert(digits_value(p) * 10 + (b - 48) as nat >= digits_value(p));
            }
        }
        i = i + 1;
    }
    proof {
        assert(s@.subrange(start as int, i as int) =~= d);
        assert forall|j: int| 0 <= j < d.len() implies is_digit(#[trigger] d[j]) by {
            assert(d[j] == s@[start + j]);
        }
    }
    if too_big {
        None
    } else {
        Some(value as u32)
    }
}

/// What one line of the list holds, for a grid of side `size`.
pub fn parse_cell_line(line: &str, size: u32) -> (r: Result<CellLine, InputError>)
    ensures
        r == line_meaning(line@, size),
{
    let t = trimmed(&chars_of(line));
    if t.len() == 3 && (t[0] == 'E' || t[0] == 'e') && (t[1] == 'N' || t[1] == 'n') && (t[2]
        == 'D' || t[2] == 'd') {
        return Ok(CellLine::End);
    }
    assert(!is_end_word(t@));
    let n = t.len();
    let mut p: usize = 0;
    while p < n && t[p] != ','
        invariant
            p <= n,
            n == t@.len(),
            forall|j: int| 0 <= j < p ==> #[trigger] t@[j] != ',',
        decreases n - p,
    {
        p = p + 1;
    }
    if p == n {
        proof {
            assert(comma_free(t@));
        }
        return Err(InputError::InvalidFormat);
    }
    proof {
        assert(first_comma(t@, p as int));
        assert(!comma_free(t@));
        let q = choose|q: int| first_comma(t@, q);
        if q < p {
            assert(t@[q] == ',');
        }
        if q > p {
            assert(t@.take(q)[p as int] == ',');
        }
        assert(q == p);
    }
    let mut k: usize = p + 1;
    while k < n
        invariant
            p < k <= n,
            n == t@.len(),
            t@ == trim(line@),
            !is_end_word(t@),
            !comma_free(t@),
            (choose|q: int| first_comma(t@, q)) == p,
            forall|j: int| p < j < k ==> #[trigger] t@[j] != ',',
        decreases n - k,
    {
        if t[k] == ',' {
            proof {
                assert(t@.skip(p + 1)[k - p - 1] == ',');
            }
            return Err(InputError::InvalidFormat);
        }
        k = k + 1;
    }
    proof {
        assert forall|j: int| 0 <= j < t@.skip(p + 1).len() implies #[trigger] t@.skip(p + 1)[j]
            != ',' by {
            assert(t@.skip(p + 1)[j] == t@[p + 1 + j]);
        }
        assert(t@.take(p as int) =~= t@.subrange(0, p as int));
        assert(t@.skip(p + 1) =~= t@.subrange(p + 1, n as int));
    }
    let x = parse_u32_range(&t, 0, p);
    let y = parse_u32_range(&t, p + 1, n);
    match (x, y) {
        (Some(x), Some(y)) => if x < size && y < size {
            Ok(CellLine::Alive(Cell::new(x, y)))
        } else {
            Err(InputError::InvalidPosition(x, y))
        },
        _ => Err(InputError::InvalidFormat),
    }
}

/// The cells that `lines` list, up to the closing line or the end of the input,
/// or the first line refused.
pub fn read_initial_cells(size: u32, lines: &Vec<String>) -> (r: Result<Vec<Cell>, InputError>)
    ensures
        match list_meaning(lines.deep_view(), size) {
            Ok(cells) => r is Ok && r.unwrap()@ == cells,
            Err(e) => r == Err::<Vec<Cell>, InputError>(e),
        },
{
    let ghost all = lines.deep_view();
    let mut cells: Vec<Cell> = Vec::new();
    proof {
        assert(all.skip(0) =~= all);
        match list_meaning(all, size) {
            Ok(rest) => {
                assert(cells@ + rest =~= rest);
            },
            Err(_) => {},
        }
    }
    let mut i: usize = 0;
    while i < lines.len()
        invariant
            i <= lines.len(),
            all == lines.deep_view(),
            all.len() == lines@.len(),
            list_meaning(all, size) == match list_meaning(all.skip(i as int), size) {
                Ok(rest) => Ok(cells@ + rest),
                Err(e) => Err(e),
            },
        decreases lines.len() - i,
    {
        let ghost rest = all.skip(i as int);
        proof {
            assert(rest.drop_first() =~= all.skip(i as int + 1));
            assert(rest[0] == lines@[i as int]@);
        }
        match parse_cell_line(lines[i].as_str(), size) {
            Err(e) => {
                return Err(e);
            },
            Ok(CellLine::End) => {
                assert(cells@ + Seq::<Cell>::empty() =~= cells@);
                return Ok(cells);
            },
            Ok(CellLine::Alive(c)) => {
                proof {
                    match list_meaning(all.skip(i as int + 1), size) {
                        Ok(more) => {
                            assert(cells@ + (seq![c] + more) =~= cells@.push(c) + more);
                        },
                        Err(_) => {},
                    }
                }
                cells.push(c);
            },
        }
        i = i + 1;
    }
    proof {
        assert(all.skip(i as int) =~= Seq::<Seq<char>>::empty());
        assert(cells@ + Seq::<Cell>::empty() =~= cells@);
    }
    Ok(cells)
}

} // verus!
