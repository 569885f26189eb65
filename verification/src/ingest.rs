//! Reading one line of an edge list: two integer labels separated by white
//! space.

use vstd::prelude::*;
use vstd::string::*;

verus! {

/// Why a line of an edge list cannot be read.
#[derive(Clone, Copy, Debug, PartialEq, Eq, Structural)]
pub enum LineError {
    /// A word of the line is not a 32-bit integer in decimal notation.
    BadNumber,
}

/// Whether `c` is white space: a character with the Unicode property
/// `White_Space`.
pub open spec fn is_space(c: char) -> bool {
    let u = c as u32;
    ||| 0x09 <= u <= 0x0d
    ||| u == 0x20
    ||| u == 0x85
    ||| u == 0xa0
    ||| u == 0x1680
    ||| 0x2000 <= u <= 0x200a
    ||| u == 0x2028
    ||| u == 0x2029
    ||| u == 0x202f
    ||| u == 0x205f
    ||| u == 0x3000
}

/// The words of `s`: its longest runs of characters that are not white
/// space, from left to right.
pub open spec fn words(s: Seq<char>) -> Seq<Seq<char>>
    decreases s.len(),
{
    if s.len() == 0 {
        Seq::empty()
    } else {
        let before = words(s.drop_last());
        if is_space(s.last()) {
            before
        } else if s.len() >= 2 && !is_space(s[s.len() - 2]) {
            before.drop_last().push(before.last().push(s.last()))
        } else {
            before.push(seq![s.last()])
        }
    }
}

/// Whether `c` is one of the digits `0` to `9`.
pub open spec fn is_digit(c: char) -> bool {
    0x30 <= c as u32 <= 0x39
}

/// The number that the decimal digits `ds` stand for.
pub open spec fn digits_value(ds: Seq<char>) -> int
    decreases ds.len(),
{
    if ds.len() == 0 {
        0
    } else {
        10 * digits_value(ds.drop_last()) + (ds.last() as u32 - 0x30)
    }
}

/// Whether `word` begins with a minus sign.
pub open spec fn is_negative(word: Seq<char>) -> bool {
    word.len() > 0 && word[0] == '-'
}

/// `word` without its sign, if it begins with one.
pub open spec fn unsigned_part(word: Seq<char>) -> Seq<char> {
    if word.len() > 0 && (word[0] == '-' || word[0] == '+') {
        word.skip(1)
    } else {
        word
    }
}

/// The 32-bit integer that `word` stands for: an optional sign, `+` or `-`,
/// then one or more decimal digits, of a value in the range of `i32`.
pub open spec fn number_of(word: Seq<char>) -> Option<i32> {
    let ds = unsigned_part(word);
    let v = if is_negative(word) {
        -digits_value(ds)
    } else {
        digits_value(ds)
    };
    if ds.len() > 0 && (forall|k: int| 0 <= k < ds.len() ==> is_digit(#[trigger] ds[k])) && i32::MIN
        <= v <= i32::MAX {
        Some(v as i32)
    } else {
        None
    }
}

/// What a line of an edge list holds. A line with a word that is no number
/// cannot be read; a line of exactly two numbers is an edge; any other line
/// holds none.
pub open spec fn edge_of_line(s: Seq<char>) -> Result<Option<(i32, i32)>, LineError> {
    let ws = words(s);
    if exists|k: int| 0 <= k < ws.len() && number_of(#[trigger] ws[k]) is None {
        Err(LineError::BadNumber)
    } else if ws.len() == 2 {
        Ok(Some((number_of(ws[0])->0, number_of(ws[1])->0)))
    } else {
        Ok(None)
    }
}

/// Digits only add to a number: no beginning of a run of digits stands for
/// more than the whole run.
pub proof fn lemma_digits_grow(ds: Seq<char>, k: int)
    requires
        0 <= k <= ds.len(),
        forall|j: int| 0 <= j < ds.len() ==> is_digit(#[trigger] ds[j]),
    ensures
        0 <= digits_value(ds.take(k)) <= digits_value(ds),
    decreases ds.len(),
{
    if ds.len() == 0 {
        assert(ds.take(k) =~= ds);
    } else if k == ds.len() {
        assert(ds.take(k) =~= ds);
        lemma_digits_grow(ds.drop_last(), k - 1);
        assert(ds.drop_last().take(k - 1) =~= ds.drop_last());
        assert(is_digit(ds[ds.len() - 1]));
    } else {
        lemma_digits_grow(ds.drop_last(), k);
        assert(ds.drop_last().take(k) =~= ds.take(k));
        assert(is_digit(ds[ds.len() - 1]));
    }
}

/// Whether `c` is white space.
pub fn is_space_char(c: char) -> (b: bool)
    ensures
        b == is_space(c),
{
    let u = c as u32;
    (0x09 <= u && u <= 0x0d) || u == 0x20 || u == 0x85 || u == 0xa0 || u == 0x1680 || (0x2000 <= u
        && u <= 0x200a) || u == 0x2028 || u == 0x2029 || u == 0x202f || u == 0x205f || u == 0x3000
}

/// Reads `word` as a 32-bit integer in decimal notation.
pub fn parse_number(word: &Vec<char>) -> (r: Option<i32>)
    ensures
        r == number_of(word@),
{
    let n = word.len();
    if n == 0 {
        return None;
    }
    let first = word[0];
    let negative = first == '-';
    let start: usize = if first == '-' || first == '+' {
        1
    } else {
        0
    };
    if start == n {
        return None;
    }
    let ghost ds = unsigned_part(word@);
    assert(ds =~= word@.subrange(start as int, n as int));
    let mut acc: i64 = 0;
    let mut i: usize = start;
    while i < n
        invariant
            n == word@.len(),
            ds == word@.subrange(start as int, n as int),
            ds == unsigned_part(word@),
            negative == is_negative(word@),
            start <= i <= n,
            forall|k: int| 0 <= k < i - start ==> is_digit(#[trigger] ds[k]),
            acc == digits_value(ds.take(i - start)),
            0 <= acc <= 0x8000_0000,
        decreases n - i,
    {
        let c = word[i];
        let u = c as u32;
        if u < 0x30 || u > 0x39 {
            proof {
                assert(ds[i - start] == c);
                assert(!is_digit(ds[i - start]));
            }
            return None;
        }
        let next: i64 = acc * 10 + (u - 0x30) as i64;
        proof {
            assert(ds[i - start] == c);
            assert(ds.take(i + 1 - start).drop_last() =~= ds.take(i - start));
            assert(ds.take(i + 1 - start).last() == c);
            assert(digits_value(ds.take(i + 1 - start)) == next);
        }
        if next > 0x8000_0000 {
            proof {
                if forall|k: int| 0 <= k < ds.len() ==> is_digit(#[trigger] ds[k]) {
                    lemma_digits_grow(ds, i + 1 - start);
                }
            }
            return None;
        }
        acc = next;
        i = i + 1;
    }
    proof {
        assert(ds.take(n - start) =~= ds);
    }
    if negative {
        Some((-acc) as i32)
    } else if acc > 0x7fff_ffff {
        None
    } else {
        Some(acc as i32)
    }
}

/// Reads one line of an edge list. The line is split at white space and each
/// word is read as a 32-bit integer. A word that is none makes the line
/// unreadable; two numbers are an edge; a line with another number of words
/// holds no edge and is to be skipped.
pub fn parse_edge_line(line: &str) -> (r: Result<Option<(i32, i32)>, LineError>)
    ensures
        r == edge_of_line(line@),
{
    let n = line.unicode_len();
    let mut values: Vec<Option<i32>> = Vec::new();
    let mut cur: Vec<char> = Vec::new();
    let mut i: usize = 0;
    while i < n
        invariant
            n == line@.len(),
            0 <= i <= n,
            cur@.len() > 0 <==> i > 0 && !is_space(line@[i - 1]),
            cur@.len() > 0 ==> words(line@.take(i as int)).len() == values@.len() + 1 && words(
                line@.take(i as int),
            ).last() == cur@,
            cur@.len() == 0 ==> words(line@.take(i as int)).len() == values@.len(),
            forall|k: int|
                0 <= k < values@.len() ==> #[trigger] values@[k] == number_of(
                    words(line@.take(i as int))[k],
                ),
        decreases n - i,
    {
        let c = line.get_char(i);
        proof {
            let next = line@.take(i + 1);
            assert(next.drop_last() =~= line@.take(i as int));
            assert(next.last() == c);
            if i > 0 {
                assert(next[next.len() - 2] == line@[i - 1]);
            }
        }
        if is_space_char(c) {
            if cur.len() > 0 {
                let value = parse_number(&cur);
                values.push(value);
                cur = Vec::new();
            }
        } else {
            cur.push(c);
        }
        i = i + 1;
    }
    if cur.len() > 0 {
        let value = parse_number(&cur);
        values.push(value);
    }
    let ghost ws = words(line@);
    proof {
        assert(line@.take(n as int) =~= line@);
    }
    let mut k: usize = 0;
    while k < values.len()
        invariant
            ws == words(line@),
            values@.len() == ws.len(),
            forall|j: int| 0 <= j < values@.len() ==> #[trigger] values@[j] == number_of(ws[j]),
            0 <= k <= values@.len(),
            forall|j: int| 0 <= j < k ==> number_of(#[trigger] ws[j]) is Some,
        decreases values@.len() - k,
    {
        if values[k].is_none() {
            proof {
                assert(number_of(ws[k as int]) is None);
            }
            return Err(LineError::BadNumber);
        }
        k = k + 1;
    }
    if values.len() == 2 {
        match (values[0], values[1]) {
            (Some(a), Some(b)) => Ok(Some((a, b))),
            _ => Ok(None),
        }
    } else {
        Ok(None)
    }
}

} // verus!
