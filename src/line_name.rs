use vstd::prelude::*;

verus! {

// A line's display name follows the convention
// `Tram <number>: <from> => [<hop> => ]...<to>`.
// The number runs from after `Tram ` to the last `: ` that still has a
// separator (` => ` or ` = > `) somewhere after it; `from` runs to the first
// such separator; `to` is what follows the last ` => ` after that separator,
// or everything after the separator when there is none.
// No part may hold a line break.

pub open spec fn arrow_at(n: Seq<char>, i: int) -> bool {
    0 <= i && i + 4 <= n.len() && n[i] == ' ' && n[i + 1] == '=' && n[i + 2] == '>' && n[i + 3]
        == ' '
}

pub open spec fn spaced_arrow_at(n: Seq<char>, i: int) -> bool {
    0 <= i && i + 5 <= n.len() && n[i] == ' ' && n[i + 1] == '=' && n[i + 2] == ' ' && n[i + 3]
        == '>' && n[i + 4] == ' '
}

/// A separator between `from` and the rest: ` => ` or ` = > `.
pub open spec fn sep_at(n: Seq<char>, i: int) -> bool {
    arrow_at(n, i) || spaced_arrow_at(n, i)
}

pub open spec fn sep_len(n: Seq<char>, i: int) -> int {
    if spaced_arrow_at(n, i) {
        5
    } else {
        4
    }
}

pub open spec fn colon_at(n: Seq<char>, k: int) -> bool {
    0 <= k && k + 2 <= n.len() && n[k] == ':' && n[k + 1] == ' '
}

pub open spec fn has_tram_prefix(n: Seq<char>) -> bool {
    n.len() >= 5 && n[0] == 'T' && n[1] == 'r' && n[2] == 'a' && n[3] == 'm' && n[4] == ' '
}

/// `: ` at `k` ends the number, and a separator follows somewhere after it.
pub open spec fn number_split(n: Seq<char>, k: int) -> bool {
    5 <= k && colon_at(n, k) && exists|i: int| k + 2 <= i && sep_at(n, i)
}

pub open spec fn name_matches(n: Seq<char>) -> bool {
    has_tram_prefix(n) && !n.contains('\n') && exists|k: int| number_split(n, k)
}

/// Where the number ends: the last `: ` that admits a split.
pub open spec fn number_end(n: Seq<char>) -> int {
    choose|k: int| number_split(n, k) && forall|k2: int| k < k2 ==> !number_split(n, k2)
}

/// The first separator at or after `from`.
pub open spec fn first_sep(n: Seq<char>, from: int) -> int {
    choose|i: int| from <= i && sep_at(n, i) && forall|i2: int| from <= i2 < i ==> !sep_at(n, i2)
}

/// Where `to` starts, given that the text after the first separator starts at `t0`.
pub open spec fn to_start(n: Seq<char>, t0: int) -> int {
    if exists|j: int| t0 <= j && arrow_at(n, j) {
        (choose|j: int| t0 <= j && arrow_at(n, j) && forall|j2: int| j < j2 ==> !arrow_at(n, j2))
            + 4
    } else {
        t0
    }
}

/// The three parts of a conforming name: number text, `from`, `to`.
#[verifier::opaque]
pub open spec fn name_parts(n: Seq<char>) -> Option<(Seq<char>, Seq<char>, Seq<char>)> {
    if name_matches(n) {
        let k = number_end(n);
        let i = first_sep(n, k + 2);
        let t = to_start(n, i + sep_len(n, i));
        Some((n.subrange(5, k), n.subrange(k + 2, i), n.subrange(t, n.len() as int)))
    } else {
        None
    }
}

pub open spec fn is_digit(c: char) -> bool {
    '0' <= c <= '9'
}

pub open spec fn digit_value(c: char) -> nat {
    ((c as u32) - ('0' as u32)) as nat
}

/// The value of a string of decimal digits.
pub open spec fn digits_value(s: Seq<char>) -> nat
    decreases s.len(),
{
    if s.len() == 0 {
        0
    } else {
        digits_value(s.drop_last()) * 10 + digit_value(s.last())
    }
}

/// The digits of an unsigned numeral: an optional leading `+` is dropped.
pub open spec fn numeral_digits(s: Seq<char>) -> Seq<char> {
    if s.len() > 0 && s[0] == '+' {
        s.drop_first()
    } else {
        s
    }
}

/// `s` is a numeral in `0..=255`: an optional `+`, then one or more decimal digits.
pub open spec fn is_byte_numeral(s: Seq<char>) -> bool {
    let d = numeral_digits(s);
    d.len() > 0 && (forall|i: int| 0 <= i < d.len() ==> is_digit(d[i])) && digits_value(d) <= 255
}

pub open spec fn byte_numeral_value(s: Seq<char>) -> nat {
    digits_value(numeral_digits(s))
}

/// What a line's display name yields.
#[derive(Clone, Debug, PartialEq, Eq)]
pub enum LineName {
    /// The name does not follow the convention: the line is dropped.
    Unmatched,
    /// The name follows the convention but its number is not in `0..=255`.
    BadNumber,
    Parsed { number: u8, from: String, to: String },
}

/// What `parse_line_name` returns for a name with characters `n`.
pub open spec fn line_name_result(n: Seq<char>, r: LineName) -> bool {
    match name_parts(n) {
        None => r is Unmatched,
        Some(parts) => if is_byte_numeral(parts.0) {
            r matches LineName::Parsed { number, from, to } && number as nat == byte_numeral_value(
                parts.0,
            ) && from@ == parts.1 && to@ == parts.2
        } else {
            r is BadNumber
        },
    }
}

proof fn lemma_digits_value_grows(s: Seq<char>, m: int)
    requires
        0 <= m <= s.len(),
        forall|i: int| 0 <= i < s.len() ==> is_digit(s[i]),
    ensures
        digits_value(s.subrange(0, m)) <= digits_value(s),
    decreases s.len() - m,
{
    if m < s.len() {
        lemma_digits_value_grows(s, m + 1);
        assert(s.subrange(0, m + 1).drop_last() =~= s.subrange(0, m));
    } else {
        assert(s.subrange(0, m) =~= s);
    }
}

/// Parses `cs[start..end]` as a numeral in `0..=255`.
pub fn parse_byte_numeral(cs: &Vec<char>, start: usize, end: usize) -> (r: Option<u8>)
    requires
        start <= end <= cs.len(),
    ensures
        ({
            let s = cs@.subrange(start as int, end as int);
            match r {
                Some(v) => is_byte_numeral(s) && v as nat == byte_numeral_value(s),
                None => !is_byte_numeral(s),
            }
        }),
{
    let ghost s = cs@.subrange(start as int, end as int);
    let mut i = start;
    if i < end && cs[i] == '+' {
        i = i + 1;
    }
    let ghost d = cs@.subrange(i as int, end as int);
    assert(numeral_digits(s) =~= d);
    if i == end {
        return None;
    }
    let first = i;
    let mut value: u32 = 0;
    while i < end
        invariant
            first <= i <= end <= cs.len(),
            d == cs@.subrange(first as int, end as int),
            numeral_digits(cs@.subrange(start as int, end as int)) == d,
            value <= 255,
            forall|j: int| first <= j < i ==> is_digit(cs@[j]),
            value as nat == digits_value(cs@.subrange(first as int, i as int)),
        decreases end - i,
    {
        let c = cs[i];
        if !('0' <= c && c <= '9') {
            assert(!is_digit(d[i - first]));
            return None;
        }
        let ghost prefix = cs@.subrange(first as int, i + 1);
        assert(prefix.drop_last() =~= cs@.subrange(first as int, i as int));
        value = value * 10 + (c as u32 - '0' as u32);
        i = i + 1;
        if value > 255 {
            proof {
                if forall|j: int| 0 <= j < d.len() ==> is_digit(#[trigger] d[j]) {
                    lemma_digits_value_grows(d, i - first);
                    assert(d.subrange(0, i - first) =~= prefix);
                }
            }
            return None;
        }
    }
    assert(cs@.subrange(first as int, i as int) =~= d);
    Some(value as u8)
}

/// The characters of `s`, one by one.
pub fn chars_of(s: &str) -> (r: Vec<char>)
    ensures
        r@ == s@,
{
    let len = s.unicode_len();
    let mut r: Vec<char> = Vec::new();
    let mut i: usize = 0;
    while i < len
        invariant
            len == s@.len(),
            i <= len,
            r@ == s@.subrange(0, i as int),
        decreases len - i,
    {
        r.push(s.get_char(i));
        i = i + 1;
        assert(r@ =~= s@.subrange(0, i as int));
    }
    assert(s@.subrange(0, len as int) =~= s@);
    r
}

fn is_arrow_at(cs: &Vec<char>, i: usize) -> (r: bool)
    ensures
        r == arrow_at(cs@, i as int),
{
    i <= cs.len() && 4 <= cs.len() - i && cs[i] == ' ' && cs[i + 1] == '=' && cs[i + 2] == '>'
        && cs[i + 3] == ' '
}

fn is_spaced_arrow_at(cs: &Vec<char>, i: usize) -> (r: bool)
    ensures
        r == spaced_arrow_at(cs@, i as int),
{
    i <= cs.len() && 5 <= cs.len() - i && cs[i] == ' ' && cs[i + 1] == '=' && cs[i + 2] == ' '
        && cs[i + 3] == '>' && cs[i + 4] == ' '
}

/// The first separator at or after `from`.
fn find_sep(cs: &Vec<char>, from: usize) -> (r: Option<usize>)
    ensures
        match r {
            Some(i) => from <= i && sep_at(cs@, i as int) && forall|i2: int|
                from <= i2 < i ==> !sep_at(cs@, i2),
            None => forall|i2: int| from <= i2 ==> !sep_at(cs@, i2),
        },
{
    let mut i = from;
    while i < cs.len()
        invariant
            from <= i,
            forall|i2: int| from <= i2 < i ==> !sep_at(cs@, i2),
        decreases cs.len() - i,
    {
        if is_arrow_at(cs, i) || is_spaced_arrow_at(cs, i) {
            return Some(i);
        }
        i = i + 1;
    }
    None
}

/// The last ` => ` at or after `from`.
fn find_last_arrow(cs: &Vec<char>, from: usize) -> (r: Option<usize>)
    ensures
        match r {
            Some(j) => from <= j && arrow_at(cs@, j as int) && forall|j2: int|
                j < j2 ==> !arrow_at(cs@, j2),
            None => forall|j2: int| from <= j2 ==> !arrow_at(cs@, j2),
        },
{
    let mut j = cs.len();
    while j > from
        invariant
            j <= cs.len(),
            forall|j2: int| j <= j2 ==> !arrow_at(cs@, j2),
        decreases j,
    {
        j = j - 1;
        if is_arrow_at(cs, j) {
            return Some(j);
        }
    }
    None
}

fn has_line_break(cs: &Vec<char>) -> (r: bool)
    ensures
        r == cs@.contains('\n'),
{
    let mut p: usize = 0;
    while p < cs.len()
        invariant
            p <= cs.len(),
            forall|q: int| 0 <= q < p ==> cs@[q] != '\n',
        decreases cs.len() - p,
    {
        if cs[p] == '\n' {
            assert(cs@[p as int] == '\n');
            return true;
        }
        p = p + 1;
    }
    false
}

/// The last `: ` (after `Tram `) with a separator after it, and that first separator.
fn find_number_end(cs: &Vec<char>) -> (r: Option<(usize, usize)>)
    ensures
        match r {
            Some((k, i)) => number_split(cs@, k as int) && (forall|k2: int|
                k < k2 ==> !number_split(cs@, k2)) && k + 2 <= i && sep_at(cs@, i as int) && (
            forall|i2: int| k + 2 <= i2 < i ==> !sep_at(cs@, i2)),
            None => forall|k2: int| !number_split(cs@, k2),
        },
{
    let len = cs.len();
    if len < 5 {
        return None;
    }
    let mut k: usize = len;
    while k > 5
        invariant
            len == cs@.len(),
            5 <= k <= len,
            forall|k2: int| k <= k2 ==> !number_split(cs@, k2),
        decreases k,
    {
        let c = k - 1;
        if c + 1 < len && cs[c] == ':' && cs[c + 1] == ' ' {
            match find_sep(cs, c + 2) {
                Some(i) => {
                    return Some((c, i));
                },
                None => {},
            }
        }
        k = c;
    }
    None
}

/// Splits a line's display name into number, `from` and `to`.
pub fn parse_line_name(name: &str) -> (r: LineName)
    ensures
        line_name_result(name@, r),
{
    reveal(name_parts);
    let cs = chars_of(name);
    let ghost n = cs@;
    let len = cs.len();
    if !(len >= 5 && cs[0] == 'T' && cs[1] == 'r' && cs[2] == 'a' && cs[3] == 'm' && cs[4] == ' ') {
        return LineName::Unmatched;
    }
    if has_line_break(&cs) {
        return LineName::Unmatched;
    }
    match find_number_end(&cs) {
        None => {
            assert(!exists|k2: int| number_split(n, k2));
            LineName::Unmatched
        },
        Some((k, i)) => {
            assert(name_matches(n));
            proof {
                let e = number_end(n);
                assert(number_split(n, e) && forall|k2: int| e < k2 ==> !number_split(n, k2));
                assert(e == k);
                let f = first_sep(n, k + 2);
                assert(k + 2 <= f && sep_at(n, f) && forall|i2: int|
                    k + 2 <= i2 < f ==> !sep_at(n, i2));
                assert(f == i);
            }
            let t0 = if is_spaced_arrow_at(&cs, i) {
                i + 5
            } else {
                i + 4
            };
            assert(t0 == i + sep_len(n, i as int));
            let t = match find_last_arrow(&cs, t0) {
                Some(j) => {
                    proof {
                        assert(exists|j2: int| t0 <= j2 && arrow_at(n, j2));
                        let g = choose|j2: int|
                            t0 <= j2 && arrow_at(n, j2) && forall|j3: int|
                                j2 < j3 ==> !arrow_at(n, j3);
                        assert(g == j);
                    }
                    j + 4
                },
                None => t0,
            };
            assert(t == to_start(n, t0 as int));
            match parse_byte_numeral(&cs, 5, k) {
                None => LineName::BadNumber,
                Some(number) => {
                    let from = name.substring_char(k + 2, i).to_owned();
                    let to = name.substring_char(t, len).to_owned();
                    LineName::Parsed { number, from, to }
                },
            }
        },
    }
}

} // verus!
