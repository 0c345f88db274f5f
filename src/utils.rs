use vstd::prelude::*;

verus! {

/// Whether `c` is white space as Unicode defines it (what
/// `char::is_whitespace` tests).
pub open spec fn is_space(c: char) -> bool {
    let u = c as u32;
    (9 <= u <= 13) || u == 32 || u == 0x85 || u == 0xA0 || u == 0x1680 || (0x2000 <= u <= 0x200A)
        || u == 0x2028 || u == 0x2029 || u == 0x202F || u == 0x205F || u == 0x3000
}

pub open spec fn is_digit(c: char) -> bool {
    48 <= c as u32 <= 57
}

pub open spec fn digit_value(c: char) -> int {
    c as u32 - 48
}

/// First index from `i` on, before `end`, that is not white space (`end`
/// if none).
pub open spec fn skip_spaces(s: Seq<char>, i: int, end: int) -> int
    decreases end - i,
{
    if 0 <= i < end && i < s.len() && is_space(s[i]) {
        skip_spaces(s, i + 1, end)
    } else {
        i
    }
}

/// First index from `i` on, before `end`, that is white space (`end` if
/// none).
pub open spec fn word_end(s: Seq<char>, i: int, end: int) -> int
    decreases end - i,
{
    if 0 <= i < end && i < s.len() && !is_space(s[i]) {
        word_end(s, i + 1, end)
    } else {
        i
    }
}

/// First index from `i` on at which `s` holds `c` (`s.len()` if none).
pub open spec fn find_from(s: Seq<char>, c: char, i: int) -> int
    decreases s.len() - i,
{
    if 0 <= i < s.len() && s[i] != c {
        find_from(s, c, i + 1)
    } else {
        i
    }
}

/// The decimal value of the digits `s[from .. to]`.
pub open spec fn digits_value(s: Seq<char>, from: int, to: int) -> int
    decreases to - from,
{
    if to <= from {
        0
    } else {
        digits_value(s, from, to - 1) * 10 + digit_value(s[to - 1])
    }
}

/// `s[from .. to]` read as a `usize` the way `str::parse` reads one: an
/// optional `+`, then one or more decimal digits, of a value that fits.
pub open spec fn parse_usize(s: Seq<char>, from: int, to: int) -> Option<usize> {
    let start = if from < to && s[from] == '+' {
        from + 1
    } else {
        from
    };
    if start < to && (forall|i: int| start <= i < to ==> is_digit(#[trigger] s[i]))
        && digits_value(s, start, to) <= usize::MAX {
        Some(digits_value(s, start, to) as usize)
    } else {
        None
    }
}

/// The two dimensions of a header line `<keyword><W> <H>:`: the text between
/// the keyword and the first `:` after it must hold exactly two words, each a
/// `usize`.
pub open spec fn parse_header(keyword: Seq<char>, line: Seq<char>) -> Option<(usize, usize)> {
    let k = keyword.len() as int;
    let colon = find_from(line, ':', k);
    let a0 = skip_spaces(line, k, colon);
    let a1 = word_end(line, a0, colon);
    let b0 = skip_spaces(line, a1, colon);
    let b1 = word_end(line, b0, colon);
    if line.len() >= k && line.subrange(0, k) == keyword && colon < line.len() && a0 < a1 && b0
        < b1 && skip_spaces(line, b1, colon) == colon {
        match (parse_usize(line, a0, a1), parse_usize(line, b0, b1)) {
            (Some(w), Some(h)) => Some((w, h)),
            _ => None,
        }
    } else {
        None
    }
}

/// The characters of `s`, in order.
pub fn chars_of(s: &str) -> (r: Vec<char>)
    ensures
        r@ == s@,
{
    broadcast use vstd::string::axiom_spec_iter;

    let mut out: Vec<char> = Vec::new();
    for c in it: s.chars()
        invariant
            it.seq() == s@,
            out@ == s@.take(it.index() as int),
    {
        out.push(c);
    }
    assert(out@ =~= s@);
    out
}

fn is_space_char(c: char) -> (r: bool)
    ensures
        r == is_space(c),
{
    let u = c as u32;
    (9 <= u && u <= 13) || u == 32 || u == 0x85 || u == 0xA0 || u == 0x1680 || (0x2000 <= u && u
        <= 0x200A) || u == 0x2028 || u == 0x2029 || u == 0x202F || u == 0x205F || u == 0x3000
}

fn skip_spaces_from(s: &Vec<char>, i: usize, end: usize) -> (r: usize)
    requires
        i <= end <= s.len(),
    ensures
        r == skip_spaces(s@, i as int, end as int),
        i <= r <= end,
{
    let mut j = i;
    while j < end && is_space_char(s[j])
        invariant
            i <= j <= end <= s.len(),
            skip_spaces(s@, i as int, end as int) == skip_spaces(s@, j as int, end as int),
        decreases end - j,
    {
        j += 1;
    }
    j
}

fn word_end_from(s: &Vec<char>, i: usize, end: usize) -> (r: usize)
    requires
        i <= end <= s.len(),
    ensures
        r == word_end(s@, i as int, end as int),
        i <= r <= end,
{
    let mut j = i;
    while j < end && !is_space_char(s[j])
        invariant
            i <= j <= end <= s.len(),
            word_end(s@, i as int, end as int) == word_end(s@, j as int, end as int),
        decreases end - j,
    {
        j += 1;
    }
    j
}

fn find_char_from(s: &Vec<char>, c: char, i: usize) -> (r: usize)
    requires
        i <= s.len(),
    ensures
        r == find_from(s@, c, i as int),
        i <= r <= s.len(),
{
    let mut j = i;
    while j < s.len() && s[j] != c
        invariant
            i <= j <= s.len(),
            find_from(s@, c, i as int) == find_from(s@, c, j as int),
        decreases s.len() - j,
    {
        j += 1;
    }
    j
}

proof fn lemma_digits_value_grows(s: Seq<char>, from: int, n1: int, n2: int)
    requires
        from <= n1 <= n2 <= s.len(),
        0 <= from,
        forall|i: int| from <= i < n2 ==> is_digit(#[trigger] s[i]),
    ensures
        0 <= digits_value(s, from, n1) <= digits_value(s, from, n2),
    decreases n2 - n1,
{
    if n1 < n2 {
        lemma_digits_value_grows(s, from, n1, n2 - 1);
        assert(is_digit(s[n2 - 1]));
    } else {
        lemma_digits_value_nonneg(s, from, n1);
    }
}

proof fn lemma_digits_value_nonneg(s: Seq<char>, from: int, to: int)
    requires
        0 <= from,
        to <= s.len(),
        forall|i: int| from <= i < to ==> is_digit(#[trigger] s[i]),
    ensures
        0 <= digits_value(s, from, to),
    decreases to - from,
{
    if from < to {
        lemma_digits_value_nonneg(s, from, to - 1);
        assert(is_digit(s[to - 1]));
    }
}

/// Reads `s[from .. to]` as a `usize`: an optional `+`, then decimal digits.
fn parse_usize_range(s: &Vec<char>, from: usize, to: usize) -> (r: Option<usize>)
    requires
        from <= to <= s.len(),
    ensures
        r == parse_usize(s@, from as int, to as int),
{
    let mut i = from;
    if i < to && s[i] == '+' {
        i += 1;
    }
    let start = i;
    if start == to {
        return None;
    }
    let mut value: usize = 0;
    while i < to
        invariant
            from <= start <= i <= to <= s.len(),
            start < to,
            start == if from < to && s@[from as int] == '+' {
                from + 1
            } else {
                from as int
            },
            forall|j: int| start <= j < i ==> is_digit(#[trigger] s@[j]),
            value == digits_value(s@, start as int, i as int),
        decreases to - i,
    {
        let c = s[i];
        let code = c as u32;
        if code < 48 || code > 57 {
            return None;
        }
        let digit = (code - 48) as usize;
        let next = match value.checked_mul(10) {
            Some(tens) => tens.checked_add(digit),
            None => None,
        };
        match next {
            Some(v) => {
                value = v;
            },
            None => {
                proof {
                    if forall|j: int| start <= j < to ==> is_digit(#[trigger] s@[j]) {
                        lemma_digits_value_grows(s@, start as int, i + 1, to as int);
                    }
                }
                return None;
            },
        }
        i += 1;
    }
    Some(value)
}

/// Reads the dimensions from a header line `<keyword><W> <H>:`.
fn parse_header_line(keyword: &str, line: &str) -> (r: Option<(usize, usize)>)
    ensures
        r == parse_header(keyword@, line@),
{
    let key = chars_of(keyword);
    let s = chars_of(line);
    let k = key.len();
    if s.len() < k {
        return None;
    }
    let mut i: usize = 0;
    while i < k
        invariant
            k == key.len() <= s.len(),
            key@ == keyword@,
            s@ == line@,
            i <= k,
            forall|j: int| 0 <= j < i ==> s@[j] == key@[j],
        decreases k - i,
    {
        if s[i] != key[i] {
            proof {
                assert(s@.subrange(0, k as int)[i as int] != key@[i as int]);
                assert(s@.subrange(0, k as int) != keyword@);
            }
            return None;
        }
        i += 1;
    }
    assert(s@.subrange(0, k as int) =~= key@);
    let colon = find_char_from(&s, ':', k);
    if colon == s.len() {
        return None;
    }
    let a0 = skip_spaces_from(&s, k, colon);
    let a1 = word_end_from(&s, a0, colon);
    let b0 = skip_spaces_from(&s, a1, colon);
    let b1 = word_end_from(&s, b0, colon);
    if a0 == a1 || b0 == b1 || skip_spaces_from(&s, b1, colon) != colon {
        return None;
    }
    match (parse_usize_range(&s, a0, a1), parse_usize_range(&s, b0, b1)) {
        (Some(w), Some(h)) => Some((w, h)),
        _ => None,
    }
}

/// Reads a board header `Anfield <W> <H>:` into its width and height.
pub fn parse_board_header(line: &str) -> (r: Option<(usize, usize)>)
    ensures
        r == parse_header("Anfield "@, line@),
{
    parse_header_line("Anfield ", line)
}

/// Reads a piece header `Piece <W> <H>:` into its width and height.
pub fn parse_piece_header(line: &str) -> (r: Option<(usize, usize)>)
    ensures
        r == parse_header("Piece "@, line@),
{
    parse_header_line("Piece ", line)
}

/// The cells of a board row: the text after its first space (the row number
/// comes before it); `None` if it holds no space.
pub open spec fn row_cells(row: Seq<char>) -> Option<Seq<char>> {
    let p = find_from(row, ' ', 0);
    if p < row.len() {
        Some(row.subrange(p + 1, row.len() as int))
    } else {
        None
    }
}

/// Whether `s` holds the text `p1`.
pub open spec fn mentions_p1(s: Seq<char>) -> bool {
    exists|i: int| 0 <= i && i + 1 < s.len() && #[trigger] s[i] == 'p' && s[i + 1] == '1'
}

/// Reads the cells of a board row `<number> <cells>`.
pub fn board_row_cells(row: &str) -> (r: Option<Vec<char>>)
    ensures
        match r {
            Some(cells) => row_cells(row@) == Some(cells@),
            None => row_cells(row@) is None,
        },
{
    let s = chars_of(row);
    let p = find_char_from(&s, ' ', 0);
    if p == s.len() {
        return None;
    }
    let mut cells: Vec<char> = Vec::new();
    let mut i = p + 1;
    while i < s.len()
        invariant
            p < i <= s.len(),
            cells@ == s@.subrange(p + 1, i as int),
        decreases s.len() - i,
    {
        cells.push(s[i]);
        i += 1;
    }
    Some(cells)
}

/// The player number that the first line of the game gives the bot: 1 if
/// the line holds `p1`, else 2.
pub fn player_number(line: &str) -> (r: u8)
    ensures
        r == if mentions_p1(line@) {
            1u8
        } else {
            2u8
        },
{
    let s = chars_of(line);
    let mut i: usize = 0;
    while i < s.len() && i + 1 < s.len()
        invariant
            s@ == line@,
            i <= s.len(),
            forall|j: int| 0 <= j < i && j + 1 < s.len() ==> !(#[trigger] s@[j] == 'p' && s@[j + 1] == '1'),
        decreases s.len() - i,
    {
        if s[i] == 'p' && s[i + 1] == '1' {
            return 1;
        }
        i += 1;
    }
    2
}

} // verus!
