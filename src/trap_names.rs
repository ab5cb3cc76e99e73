//! Parser for the text list that names the traps: one `HEX,name` pair per
//! line, keyed in the result by the trap's table index.

use std::collections::HashMap;
use vstd::prelude::*;
use vstd::std_specs::iter::IteratorSpec;
use vstd::std_specs::hash::group_hash_axioms;

use crate::traps::{trap_index, trap_to_idx};

verus! {

/// Why a list of trap names could not be read.
#[derive(Debug, PartialEq, Eq)]
pub enum TrapNamesError {
    /// This line has no comma.
    MissingName(String),
    /// This line has more than one comma.
    ExtraField(String),
    /// This trap number is not a hexadecimal `u32`.
    BadNumber(String),
    /// Two lines name the trap at table index `index`.
    Duplicate { index: usize, name: String, existing: String },
}

/// `cur` with one trailing carriage return removed.
pub open spec fn strip_cr(cur: Seq<char>) -> Seq<char> {
    if cur.len() > 0 && cur.last() == '\r' {
        cur.drop_last()
    } else {
        cur
    }
}

/// The lines ended by a newline among the first `i` characters of `text`,
/// each without its newline (and the carriage return before it), and the
/// characters read since the last newline.
pub open spec fn lines_upto(text: Seq<char>, i: nat) -> (Seq<Seq<char>>, Seq<char>)
    decreases i,
{
    if i == 0 {
        (Seq::empty(), Seq::empty())
    } else {
        let (done, cur) = lines_upto(text, (i - 1) as nat);
        if text[i - 1] == '\n' {
            (done.push(strip_cr(cur)), Seq::empty())
        } else {
            (done, cur.push(text[i - 1]))
        }
    }
}

/// The lines of `text`: a last line without a newline counts when it is
/// not empty.
pub open spec fn text_lines(text: Seq<char>) -> Seq<Seq<char>> {
    let (done, cur) = lines_upto(text, text.len());
    if cur.len() == 0 {
        done
    } else {
        done.push(cur)
    }
}

/// The offset of the first `c` in `s`.
pub open spec fn first_index(s: Seq<char>, c: char) -> Option<int>
    decreases s.len(),
{
    if s.len() == 0 {
        None
    } else {
        match first_index(s.drop_last(), c) {
            Some(i) => Some(i),
            None => if s.last() == c {
                Some(s.len() - 1)
            } else {
                None
            },
        }
    }
}

proof fn lemma_first_index_extends(s: Seq<char>, c: char, k: int)
    requires
        0 <= k <= s.len(),
        first_index(s.subrange(0, k), c) is Some,
    ensures
        first_index(s, c) == first_index(s.subrange(0, k), c),
    decreases s.len() - k,
{
    if k < s.len() {
        assert(s.subrange(0, k + 1).drop_last() =~= s.subrange(0, k));
        lemma_first_index_extends(s, c, k + 1);
    } else {
        assert(s.subrange(0, k) =~= s);
    }
}

/// The value of a hexadecimal digit.
pub open spec fn hex_digit(c: char) -> Option<int> {
    if '0' <= c <= '9' {
        Some(c as int - '0' as int)
    } else if 'a' <= c <= 'f' {
        Some(c as int - 'a' as int + 10)
    } else if 'A' <= c <= 'F' {
        Some(c as int - 'A' as int + 10)
    } else {
        None
    }
}

/// The value of a string of hexadecimal digits.
pub open spec fn hex_digits_value(s: Seq<char>) -> int
    decreases s.len(),
{
    if s.len() == 0 {
        0
    } else {
        16 * hex_digits_value(s.drop_last()) + hex_digit(s.last())->Some_0
    }
}

/// `s` without a leading `+`.
pub open spec fn unsigned_digits(s: Seq<char>) -> Seq<char> {
    if s.len() > 0 && s[0] == '+' {
        s.drop_first()
    } else {
        s
    }
}

/// Whether every character of `d` is a hexadecimal digit.
pub open spec fn all_hex(d: Seq<char>) -> bool {
    forall|i: int| 0 <= i < d.len() ==> hex_digit(#[trigger] d[i]) is Some
}

/// A trap number as written in the list: an optional `+`, then one or more
/// hexadecimal digits, for a value that fits in a `u32`.
pub open spec fn parse_hex(s: Seq<char>) -> Option<u32> {
    let d = unsigned_digits(s);
    if d.len() > 0 && all_hex(d) && hex_digits_value(d) <= u32::MAX {
        Some(hex_digits_value(d) as u32)
    } else {
        None
    }
}

/// The table index and the name that a well-formed line gives.
pub open spec fn parse_line(line: Seq<char>) -> Option<(usize, Seq<char>)> {
    match first_index(line, ',') {
        Some(i) => {
            let name = line.subrange(i + 1, line.len() as int);
            match (first_index(name, ','), parse_hex(line.subrange(0, i))) {
                (None, Some(v)) => Some((trap_index(v) as usize, name)),
                _ => None,
            }
        },
        None => None,
    }
}

/// The names that the lines give, by table index; `Err(k)` where line `k` is
/// the first that is malformed or names a trap a second time.
pub open spec fn names_from(lines: Seq<Seq<char>>) -> Result<Map<usize, Seq<char>>, int>
    decreases lines.len(),
{
    if lines.len() == 0 {
        Ok(Map::empty())
    } else {
        let k = lines.len() - 1;
        match names_from(lines.drop_last()) {
            Ok(m) => match parse_line(lines.last()) {
                Some((idx, name)) => if m.contains_key(idx) {
                    Err(k)
                } else {
                    Ok(m.insert(idx, name))
                },
                None => Err(k),
            },
            Err(e) => Err(e),
        }
    }
}

/// Whether `e` is the error for a line that is not of the form `number,name`
/// with a valid number and a name without commas.
pub open spec fn format_error(line: Seq<char>, e: TrapNamesError) -> bool {
    match first_index(line, ',') {
        None => e matches TrapNamesError::MissingName(l) && l@ == line,
        Some(i) => {
            if first_index(line.subrange(i + 1, line.len() as int), ',') is Some {
                e matches TrapNamesError::ExtraField(l) && l@ == line
            } else {
                e matches TrapNamesError::BadNumber(s) && s@ == line.subrange(0, i)
            }
        },
    }
}

/// Whether `e` is the error for `line`, read with the names `m` known.
pub open spec fn line_error(m: Map<usize, Seq<char>>, line: Seq<char>, e: TrapNamesError) -> bool {
    match parse_line(line) {
        None => format_error(line, e),
        Some((idx, name)) => {
            &&& m.contains_key(idx)
            &&& e matches TrapNamesError::Duplicate { index, name: n, existing }
            &&& index == idx
            &&& n@ == name
            &&& existing@ == m[idx]
        },
    }
}

/// The names that a map holds, as character sequences.
pub open spec fn names_view(m: Map<usize, String>) -> Map<usize, Seq<char>> {
    Map::new(|k: usize| m.contains_key(k), |k: usize| m[k]@)
}

/// Relies on `String::push`: appends the character.
#[verifier::external_body]
fn push_char(s: &mut String, c: char)
    ensures
        final(s)@ == old(s)@.push(c),
{
    s.push(c)
}

/// The characters `cs[from..to]` as a string.
fn to_string(cs: &Vec<char>, from: usize, to: usize) -> (r: String)
    requires
        from <= to <= cs@.len(),
    ensures
        r@ == cs@.subrange(from as int, to as int),
{
    let mut r = String::new();
    let mut i = from;
    while i < to
        invariant
            from <= i <= to <= cs@.len(),
            r@ == cs@.subrange(from as int, i as int),
        decreases to - i,
    {
        push_char(&mut r, cs[i]);
        i = i + 1;
        assert(r@ =~= cs@.subrange(from as int, i as int));
    }
    r
}

/// The offset of the first `c` in `cs[from..]`, counted from `from`.
fn find_char(cs: &Vec<char>, from: usize, c: char) -> (r: Option<usize>)
    requires
        from <= cs@.len(),
    ensures
        match first_index(cs@.subrange(from as int, cs@.len() as int), c) {
            Some(i) => r == Some(i as usize) && 0 <= i && from + i < cs@.len(),
            None => r is None,
        },
{
    let ghost s = cs@.subrange(from as int, cs@.len() as int);
    let mut i = from;
    while i < cs.len()
        invariant
            from <= i <= cs@.len(),
            s == cs@.subrange(from as int, cs@.len() as int),
            first_index(s.subrange(0, i - from), c) is None,
        decreases cs@.len() - i,
    {
        let ghost k = i - from;
        assert(s.subrange(0, k + 1).drop_last() =~= s.subrange(0, k));
        if cs[i] == c {
            proof {
                lemma_first_index_extends(s, c, k + 1);
            }
            return Some(i - from);
        }
        i = i + 1;
    }
    assert(s.subrange(0, s.len() as int) =~= s);
    None
}

/// The value of the trap number `cs[from..to]`, as `parse_hex` says.
fn parse_hex_chars(cs: &Vec<char>, from: usize, to: usize) -> (r: Option<u32>)
    requires
        from <= to <= cs@.len(),
    ensures
        r == parse_hex(cs@.subrange(from as int, to as int)),
{
    let ghost s = cs@.subrange(from as int, to as int);
    let mut start = from;
    if from < to && cs[from] == '+' {
        start = from + 1;
    }
    let ghost d = cs@.subrange(start as int, to as int);
    assert(d =~= unsigned_digits(s));
    if start == to {
        return None;
    }
    let mut value: u64 = 0;
    let mut over = false;
    let mut i = start;
    while i < to
        invariant
            start <= i <= to <= cs@.len(),
            start < to,
            s == cs@.subrange(from as int, to as int),
            d == cs@.subrange(start as int, to as int),
            d == unsigned_digits(s),
            forall|j: int| start <= j < i ==> hex_digit(#[trigger] cs@[j]) is Some,
            !over ==> value == hex_digits_value(cs@.subrange(start as int, i as int)),
            !over ==> value <= u32::MAX,
            over ==> hex_digits_value(cs@.subrange(start as int, i as int)) > u32::MAX,
        decreases to - i,
    {
        let c = cs[i];
        let digit: u64 = if '0' <= c && c <= '9' {
            (c as u64) - ('0' as u64)
        } else if 'a' <= c && c <= 'f' {
            (c as u64) - ('a' as u64) + 10
        } else if 'A' <= c && c <= 'F' {
            (c as u64) - ('A' as u64) + 10
        } else {
            assert(d[i - start] == c);
            assert(!all_hex(d));
            return None;
        };
        let ghost prefix = cs@.subrange(start as int, i as int);
        assert(cs@.subrange(start as int, i + 1).drop_last() =~= prefix);
        if !over {
            value = value * 16 + digit;
            if value > u32::MAX as u64 {
                over = true;
            }
        }
        i = i + 1;
    }
    assert(d =~= cs@.subrange(start as int, i as int));
    if over {
        None
    } else {
        Some(value as u32)
    }
}

/// Splits a line at its comma: the offset of the comma and the trap number
/// before it, or the error for a malformed line.
fn split_line(line: &Vec<char>) -> (r: Result<(usize, u32), TrapNamesError>)
    ensures
        match r {
            Ok((comma, v)) => {
                &&& comma < line@.len()
                &&& first_index(line@, ',') == Some(comma as int)
                &&& parse_line(line@) == Some(
                    (trap_index(v) as usize, line@.subrange(comma + 1, line@.len() as int)),
                )
            },
            Err(e) => parse_line(line@) is None && format_error(line@, e),
        },
{
    assert(line@.subrange(0, line@.len() as int) =~= line@);
    assert(line@.len() == line.len());
    let comma = match find_char(line, 0, ',') {
        Some(i) => i,
        None => {
            return Err(TrapNamesError::MissingName(to_string(line, 0, line.len())));
        },
    };
    assert(first_index(line@, ',') == Some(comma as int));
    assert(comma < line@.len());
    match find_char(line, comma + 1, ',') {
        Some(_) => {
            return Err(TrapNamesError::ExtraField(to_string(line, 0, line.len())));
        },
        None => {},
    }
    match parse_hex_chars(line, 0, comma) {
        Some(v) => Ok((comma, v)),
        None => Err(TrapNamesError::BadNumber(to_string(line, 0, comma))),
    }
}

/// Reads one line into `map`: `Ok` with the name added where the line is
/// well formed and names a new trap, else the error for the line.
fn add_line(map: &mut HashMap<usize, String>, line: &Vec<char>) -> (r: Result<(), TrapNamesError>)
    ensures
        match parse_line(line@) {
            Some((idx, name)) => if names_view(old(map)@).contains_key(idx) {
                r matches Err(e) && line_error(names_view(old(map)@), line@, e)
            } else {
                r is Ok && names_view(final(map)@) == names_view(old(map)@).insert(idx, name)
            },
            None => r matches Err(e) && line_error(names_view(old(map)@), line@, e),
        },
{
    broadcast use group_hash_axioms;

    assert(line@.len() == line.len());
    let (comma, value) = match split_line(line) {
        Ok(x) => x,
        Err(e) => {
            return Err(e);
        },
    };
    let idx = trap_to_idx(value);
    let name = to_string(line, comma + 1, line.len());
    let ghost before = map@;
    match map.insert(idx, name) {
        Some(existing) => {
            Err(
                TrapNamesError::Duplicate {
                    index: idx,
                    name: to_string(line, comma + 1, line.len()),
                    existing,
                },
            )
        },
        None => {
            assert(names_view(map@) =~= names_view(before).insert(idx, name@));
            Ok(())
        },
    }
}

proof fn lemma_lines_upto_prefix(text: Seq<char>, n: nat, m: nat)
    requires
        n <= m,
    ensures
        lines_upto(text, n).0.len() <= lines_upto(text, m).0.len(),
        lines_upto(text, m).0.subrange(0, lines_upto(text, n).0.len() as int) == lines_upto(
            text,
            n,
        ).0,
    decreases m - n,
{
    if n < m {
        lemma_lines_upto_prefix(text, n, (m - 1) as nat);
        let a = lines_upto(text, n).0;
        let b = lines_upto(text, (m - 1) as nat).0;
        let c = lines_upto(text, m).0;
        assert(c.subrange(0, a.len() as int) =~= b.subrange(0, a.len() as int));
    } else {
        assert(lines_upto(text, m).0.subrange(0, lines_upto(text, m).0.len() as int)
            =~= lines_upto(text, m).0);
    }
}

proof fn lemma_names_from_prefix(lines: Seq<Seq<char>>, p: nat)
    requires
        p <= lines.len(),
        names_from(lines.subrange(0, p as int)) is Err,
    ensures
        names_from(lines) == names_from(lines.subrange(0, p as int)),
    decreases lines.len() - p,
{
    if p < lines.len() {
        assert(lines.subrange(0, p + 1 as int).drop_last() =~= lines.subrange(0, p as int));
        lemma_names_from_prefix(lines, p + 1);
    } else {
        assert(lines.subrange(0, p as int) =~= lines);
    }
}

/// `cur` with one trailing carriage return removed.
fn strip_cr_vec(cur: Vec<char>) -> (r: Vec<char>)
    ensures
        r@ == strip_cr(cur@),
{
    let mut cur = cur;
    if cur.len() > 0 && cur[cur.len() - 1] == '\r' {
        cur.pop();
    }
    cur
}

/// Reads a list of trap names, one `number,name` per line, the number in
/// hexadecimal: the names by the table index of their trap. Fails at the
/// first line with no comma, with two commas, with a number that is not a
/// hexadecimal `u32`, or naming a trap that an earlier line named.
pub fn read_traps(text: &str) -> (r: Result<HashMap<usize, String>, TrapNamesError>)
    ensures
        match names_from(text_lines(text@)) {
            Ok(m) => r matches Ok(h) && names_view(h@) == m,
            Err(k) => {
                &&& 0 <= k < text_lines(text@).len()
                &&& names_from(text_lines(text@).subrange(0, k)) matches Ok(m)
                &&& r matches Err(e)
                &&& line_error(m, text_lines(text@)[k], e)
            },
        },
{
    broadcast use group_hash_axioms;

    let mut map: HashMap<usize, String> = HashMap::new();
    assert(names_view(map@) =~= Map::<usize, Seq<char>>::empty());
    let mut cur: Vec<char> = Vec::new();
    let mut it = text.chars();
    let ghost mut n: nat = 0;
    let ghost lines = text_lines(text@);
    proof {
        lemma_lines_upto_prefix(text@, 0, text@.len());
    }
    loop
        invariant
            n <= text@.len(),
            lines == text_lines(text@),
            it.remaining() == text@.subrange(n as int, text@.len() as int),
            lines_upto(text@, n).1 == cur@,
            lines_upto(text@, text@.len()).0.len() >= lines_upto(text@, n).0.len(),
            lines_upto(text@, text@.len()).0.subrange(0, lines_upto(text@, n).0.len() as int)
                == lines_upto(text@, n).0,
            names_from(lines_upto(text@, n).0) == Ok::<Map<usize, Seq<char>>, int>(
                names_view(map@),
            ),
        ensures
            n == text@.len(),
            lines_upto(text@, n).1 == cur@,
            names_from(lines_upto(text@, n).0) == Ok::<Map<usize, Seq<char>>, int>(
                names_view(map@),
            ),
        decreases text@.len() - n,
    {
        let ghost done = lines_upto(text@, n).0;
        match it.next() {
            Some(c) => {
                assert(text@[n as int] == c);
                if c == '\n' {
                    let line = strip_cr_vec(cur);
                    let ghost k: int = done.len() as int;
                    assert(lines_upto(text@, n + 1).0 == done.push(line@));
                    proof {
                        lemma_lines_upto_prefix(text@, n + 1, text@.len());
                        let all = lines_upto(text@, text@.len()).0;
                        assert(all.subrange(0, k) =~= all.subrange(0, k + 1).drop_last());
                        assert(lines.subrange(0, k + 1) =~= all.subrange(0, k + 1)) by {
                            if lines_upto(text@, text@.len()).1.len() != 0 {
                                assert(lines.subrange(0, k + 1) =~= all.push(
                                    lines_upto(text@, text@.len()).1,
                                ).subrange(0, k + 1));
                            }
                        }
                        assert(done.push(line@).drop_last() =~= done);
                    }
                    let ghost before = names_view(map@);
                    match add_line(&mut map, &line) {
                        Ok(()) => {},
                        Err(e) => {
                            proof {
                                assert(lines.subrange(0, k + 1) == done.push(line@));
                                assert(names_from(done.push(line@)) == Err::<
                                    Map<usize, Seq<char>>,
                                    int,
                                >(k));
                                lemma_names_from_prefix(lines, (k + 1) as nat);
                                assert(lines.subrange(0, k) =~= done);
                                assert(lines[k] == line@);
                                assert(line_error(before, line@, e));
                            }
                            return Err(e);
                        },
                    }
                    cur = Vec::new();
                    assert(cur@ =~= Seq::<char>::empty());
                } else {
                    cur.push(c);
                }
                proof {
                    n = n + 1;
                    lemma_lines_upto_prefix(text@, n, text@.len());
                }
            },
            None => {
                break;
            },
        }
    }
    let ghost done = lines_upto(text@, n).0;
    assert(lines_upto(text@, text@.len()).0.subrange(0, done.len() as int) =~= done);
    if cur.len() > 0 {
        let ghost k: int = done.len() as int;
        assert(lines == done.push(cur@));
        assert(done.push(cur@).drop_last() =~= done);
        match add_line(&mut map, &cur) {
            Ok(()) => {},
            Err(e) => {
                assert(lines.subrange(0, k) =~= done);
                return Err(e);
            },
        }
    }
    Ok(map)
}

} // verus!
