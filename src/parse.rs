//! Reading the player's input: a board size ("9 9") and a cell label ("B3").
use vstd::prelude::*;
use vstd::string::*;

verus! {

/// The characters that `char::is_whitespace` accepts: Unicode's White_Space
/// property.
pub open spec fn is_space(c: char) -> bool {
    let x = c as u32;
    (0x9 <= x <= 0xd) || x == 0x20 || x == 0x85 || x == 0xa0 || x == 0x1680 || (0x2000 <= x
        <= 0x200a) || x == 0x2028 || x == 0x2029 || x == 0x202f || x == 0x205f || x == 0x3000
}

pub open spec fn is_digit(c: char) -> bool {
    '0' <= c <= '9'
}

pub open spec fn digit_value(c: char) -> nat {
    (c as u32 - '0' as u32) as nat
}

/// The number that a run of decimal digits spells.
pub open spec fn decimal_value(s: Seq<char>) -> nat
    decreases s.len(),
{
    if s.len() == 0 {
        0
    } else {
        decimal_value(s.drop_last()) * 10 + digit_value(s.last())
    }
}

pub open spec fn all_digits(d: Seq<char>) -> bool {
    forall|i: int| 0 <= i < d.len() ==> is_digit(#[trigger] d[i])
}

/// `s` without one leading `+`.
pub open spec fn digits_part(s: Seq<char>) -> Seq<char> {
    if s.len() > 0 && s[0] == '+' {
        s.drop_first()
    } else {
        s
    }
}

/// How `usize::from_str` reads `s`: an optional `+`, then at least one
/// decimal digit, and a value that fits.
pub open spec fn parse_unsigned(s: Seq<char>) -> Option<usize> {
    let d = digits_part(s);
    if d.len() > 0 && all_digits(d) && decimal_value(d) <= usize::MAX {
        Some(decimal_value(d) as usize)
    } else {
        None
    }
}

/// The first index from `i` on that does not hold white space.
pub open spec fn skip_space(s: Seq<char>, i: int) -> int
    decreases s.len() - i,
{
    if 0 <= i < s.len() && is_space(s[i]) {
        skip_space(s, i + 1)
    } else {
        i
    }
}

/// The first index from `i` on that holds white space, or the end.
pub open spec fn skip_word(s: Seq<char>, i: int) -> int
    decreases s.len() - i,
{
    if 0 <= i < s.len() && !is_space(s[i]) {
        skip_word(s, i + 1)
    } else {
        i
    }
}

/// The end of `s.take(j)` once trailing white space is cut off.
pub open spec fn trim_end(s: Seq<char>, j: int) -> int
    decreases j,
{
    if 0 < j <= s.len() && is_space(s[j - 1]) {
        trim_end(s, j - 1)
    } else {
        j
    }
}

/// `s` without white space at either end.
pub open spec fn trimmed(s: Seq<char>) -> Seq<char> {
    let a = skip_space(s, 0);
    let b = trim_end(s, s.len() as int);
    if a < b {
        s.subrange(a, b)
    } else {
        Seq::empty()
    }
}

/// Two numbers separated by white space, with nothing else but white space.
pub open spec fn board_size_of(s: Seq<char>) -> Option<(usize, usize)> {
    let a = skip_space(s, 0);
    let b = skip_word(s, a);
    let c = skip_space(s, b);
    let d = skip_word(s, c);
    let e = skip_space(s, d);
    if a < b && c < d && e == s.len() {
        match (parse_unsigned(s.subrange(a, b)), parse_unsigned(s.subrange(c, d))) {
            (Some(rows), Some(cols)) => Some((rows, cols)),
            _ => None,
        }
    } else {
        None
    }
}

pub open spec fn is_letter(c: char) -> bool {
    ('A' <= c <= 'Z') || ('a' <= c <= 'z')
}

/// The column a letter names, `A` or `a` being the first.
pub open spec fn letter_index(c: char) -> nat {
    if 'a' <= c <= 'z' {
        (c as u32 - 'a' as u32) as nat
    } else {
        (c as u32 - 'A' as u32) as nat
    }
}

/// The zero-based `(row, col)` that a label such as `B3` names: a column
/// letter in either case, then the row counted from one. `None` where the
/// label is malformed or lies off a `rows` by `cols` board.
pub open spec fn coordinate_of(label: Seq<char>, rows: nat, cols: nat) -> Option<(usize, usize)> {
    if label.len() < 2 || !is_letter(label[0]) {
        None
    } else {
        match parse_unsigned(label.drop_first()) {
            Some(n) => if 1 <= n && n - 1 < rows && letter_index(label[0]) < cols {
                Some(((n - 1) as usize, letter_index(label[0]) as usize))
            } else {
                None
            },
            None => None,
        }
    }
}

fn is_space_char(c: char) -> (b: bool)
    ensures
        b == is_space(c),
{
    let x = c as u32;
    (0x9 <= x && x <= 0xd) || x == 0x20 || x == 0x85 || x == 0xa0 || x == 0x1680 || (0x2000 <= x
        && x <= 0x200a) || x == 0x2028 || x == 0x2029 || x == 0x202f || x == 0x205f || x == 0x3000
}

/// The characters of `s`, one by one.
fn chars_of(s: &str) -> (v: Vec<char>)
    ensures
        v@ == s@,
{
    let n = s.unicode_len();
    let mut v: Vec<char> = Vec::new();
    let mut i: usize = 0;
    while i < n
        invariant
            n == s@.len(),
            i <= n,
            v@ =~= s@.take(i as int),
        decreases n - i,
    {
        v.push(s.get_char(i));
        i = i + 1;
    }
    v
}

fn skip_space_from(s: &Vec<char>, i: usize) -> (j: usize)
    requires
        i <= s@.len(),
    ensures
        j == skip_space(s@, i as int),
{
    let mut j = i;
    while j < s.len() && is_space_char(s[j])
        invariant
            i <= j <= s@.len(),
            skip_space(s@, j as int) == skip_space(s@, i as int),
        decreases s@.len() - j,
    {
        j = j + 1;
    }
    j
}

fn skip_word_from(s: &Vec<char>, i: usize) -> (j: usize)
    requires
        i <= s@.len(),
    ensures
        j == skip_word(s@, i as int),
{
    let mut j = i;
    while j < s.len() && !is_space_char(s[j])
        invariant
            i <= j <= s@.len(),
            skip_word(s@, j as int) == skip_word(s@, i as int),
        decreases s@.len() - j,
    {
        j = j + 1;
    }
    j
}

fn trim_end_from(s: &Vec<char>, j: usize) -> (k: usize)
    requires
        j <= s@.len(),
    ensures
        k == trim_end(s@, j as int),
{
    let mut k = j;
    while k > 0 && is_space_char(s[k - 1])
        invariant
            k <= j <= s@.len(),
            trim_end(s@, k as int) == trim_end(s@, j as int),
        decreases k,
    {
        k = k - 1;
    }
    k
}

proof fn lemma_skip_bounds(s: Seq<char>, i: int)
    requires
        0 <= i <= s.len(),
    ensures
        i <= skip_space(s, i) <= s.len(),
        i <= skip_word(s, i) <= s.len(),
    decreases s.len() - i,
{
    if i < s.len() {
        lemma_skip_bounds(s, i + 1);
    }
}

proof fn lemma_trim_end_bounds(s: Seq<char>, j: int)
    requires
        0 <= j <= s.len(),
    ensures
        0 <= trim_end(s, j) <= j,
    decreases j,
{
    if j > 0 {
        lemma_trim_end_bounds(s, j - 1);
    }
}

/// A prefix of a run of digits spells no larger a number.
proof fn lemma_decimal_prefix(s: Seq<char>, k: int)
    requires
        0 <= k <= s.len(),
    ensures
        decimal_value(s.take(k)) <= decimal_value(s),
    decreases s.len(),
{
    if k < s.len() {
        assert(s.drop_last().take(k) =~= s.take(k));
        lemma_decimal_prefix(s.drop_last(), k);
    } else {
        assert(s.take(k) =~= s);
    }
}

/// Reads `s[from..to]` as `usize::from_str` does.
fn parse_unsigned_at(s: &Vec<char>, from: usize, to: usize) -> (r: Option<usize>)
    requires
        from <= to <= s@.len(),
    ensures
        r == parse_unsigned(s@.subrange(from as int, to as int)),
{
    let ghost t = s@.subrange(from as int, to as int);
    let mut i = from;
    if i < to && s[i] == '+' {
        i = i + 1;
    }
    let ghost d = s@.subrange(i as int, to as int);
    assert(d =~= digits_part(t));
    if i == to {
        return None;
    }
    let mut acc: usize = 0;
    let mut k = i;
    while k < to
        invariant
            from <= i <= k <= to <= s@.len(),
            i < to,
            t == s@.subrange(from as int, to as int),
            d == s@.subrange(i as int, to as int),
            d == digits_part(t),
            forall|j: int| 0 <= j < k - i ==> is_digit(#[trigger] d[j]),
            acc == decimal_value(d.take(k - i)),
        decreases to - k,
    {
        let ch = s[k];
        if !('0' <= ch && ch <= '9') {
            assert(!is_digit(d[k - i]));
            assert(!all_digits(d));
            return None;
        }
        let digit = (ch as u32 - '0' as u32) as usize;
        assert(d.take(k - i + 1).drop_last() =~= d.take(k - i));
        match acc.checked_mul(10) {
            Some(m) => match m.checked_add(digit) {
                Some(next) => {
                    acc = next;
                },
                None => {
                    proof {
                        lemma_decimal_prefix(d, k - i + 1);
                    }
                    return None;
                },
            },
            None => {
                proof {
                    lemma_decimal_prefix(d, k - i + 1);
                }
                return None;
            },
        }
        k = k + 1;
    }
    assert(d.take(to - i) =~= d);
    Some(acc)
}

/// Reads a board size: two numbers, rows then columns, separated by white
/// space.
pub fn parse_board_size(input: &str) -> (r: Option<(usize, usize)>)
    ensures
        r == board_size_of(input@),
{
    let s = chars_of(input);
    proof {
        lemma_skip_bounds(s@, 0);
    }
    let a = skip_space_from(&s, 0);
    proof {
        lemma_skip_bounds(s@, a as int);
    }
    let b = skip_word_from(&s, a);
    proof {
        lemma_skip_bounds(s@, b as int);
    }
    let c = skip_space_from(&s, b);
    proof {
        lemma_skip_bounds(s@, c as int);
    }
    let d = skip_word_from(&s, c);
    proof {
        lemma_skip_bounds(s@, d as int);
    }
    let e = skip_space_from(&s, d);
    if !(a < b && c < d && e == s.len()) {
        return None;
    }
    let rows = parse_unsigned_at(&s, a, b);
    let cols = parse_unsigned_at(&s, c, d);
    match (rows, cols) {
        (Some(rows), Some(cols)) => Some((rows, cols)),
        _ => None,
    }
}

/// Reads a cell label such as `B3` (column letter, then the row counted from
/// one), with white space around it allowed, as zero-based `(row, col)` on a
/// `rows` by `cols` board.
pub fn parse_coordinate(input: &str, rows: usize, cols: usize) -> (r: Option<(usize, usize)>)
    ensures
        r == coordinate_of(trimmed(input@), rows as nat, cols as nat),
{
    let s = chars_of(input);
    proof {
        lemma_skip_bounds(s@, 0);
        lemma_trim_end_bounds(s@, s@.len() as int);
    }
    let a = skip_space_from(&s, 0);
    let b = trim_end_from(&s, s.len());
    if a >= b || b - a < 2 {
        return None;
    }
    let ghost label = s@.subrange(a as int, b as int);
    assert(label == trimmed(s@));
    let first = s[a];
    let letter: bool = ('A' <= first && first <= 'Z') || ('a' <= first && first <= 'z');
    if !letter {
        return None;
    }
    let col: u32 = if 'a' <= first && first <= 'z' {
        first as u32 - 'a' as u32
    } else {
        first as u32 - 'A' as u32
    };
    assert(label.drop_first() =~= s@.subrange(a + 1, b as int));
    match parse_unsigned_at(&s, a + 1, b) {
        Some(n) => {
            if n >= 1 && n - 1 < rows && (col as usize) < cols {
                Some((n - 1, col as usize))
            } else {
                None
            }
        },
        None => None,
    }
}

/// Reads a count, such as the number of mines: one number, with white space
/// around it allowed.
pub fn parse_count(input: &str) -> (r: Option<usize>)
    ensures
        r == parse_unsigned(trimmed(input@)),
{
    let s = chars_of(input);
    proof {
        lemma_skip_bounds(s@, 0);
        lemma_trim_end_bounds(s@, s@.len() as int);
    }
    let a = skip_space_from(&s, 0);
    let b = trim_end_from(&s, s.len());
    if a >= b {
        assert(trimmed(s@) =~= Seq::<char>::empty());
        assert(digits_part(trimmed(s@)) =~= Seq::<char>::empty());
        return None;
    }
    parse_unsigned_at(&s, a, b)
}

} // verus!
