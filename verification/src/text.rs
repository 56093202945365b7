//! Character-level building blocks: splitting text into lines and fields,
//! reading unsigned decimal numbers, and writing them back out.

use vstd::prelude::*;

verus! {

// ---------------------------------------------------------------------------
// Decimal digits
// ---------------------------------------------------------------------------

/// A character that is one of the ten decimal digits.
pub open spec fn is_digit_char(c: char) -> bool {
    48 <= c as u32 <= 57
}

/// The numeric value of a decimal digit character.
pub open spec fn digit_value(c: char) -> int {
    c as u32 - 48
}

/// The digit character for a value below ten.
pub open spec fn digit_char(d: int) -> char {
    if d == 0 {
        '0'
    } else if d == 1 {
        '1'
    } else if d == 2 {
        '2'
    } else if d == 3 {
        '3'
    } else if d == 4 {
        '4'
    } else if d == 5 {
        '5'
    } else if d == 6 {
        '6'
    } else if d == 7 {
        '7'
    } else if d == 8 {
        '8'
    } else {
        '9'
    }
}

pub open spec fn all_digits(s: Seq<char>) -> bool {
    forall|i: int| 0 <= i < s.len() ==> is_digit_char(#[trigger] s[i])
}

/// A non-empty run of decimal digits.
pub open spec fn is_number(s: Seq<char>) -> bool {
    s.len() > 0 && all_digits(s)
}

/// The value of a digit sequence, most significant digit first.
pub open spec fn num_of(s: Seq<char>) -> int
    decreases s.len(),
{
    if s.len() == 0 {
        0
    } else {
        num_of(s.drop_last()) * 10 + digit_value(s.last())
    }
}

pub proof fn lemma_num_of_nonneg(s: Seq<char>)
    requires
        all_digits(s),
    ensures
        num_of(s) >= 0,
    decreases s.len(),
{
    if s.len() > 0 {
        assert(forall|i: int| 0 <= i < s.drop_last().len() ==> s.drop_last()[i] == s[i]);
        lemma_num_of_nonneg(s.drop_last());
    }
}

/// The value of a digit sequence never goes down as more digits follow.
pub proof fn lemma_num_of_prefix(s: Seq<char>, j: int)
    requires
        all_digits(s),
        0 <= j <= s.len(),
    ensures
        num_of(s.subrange(0, j)) <= num_of(s),
    decreases s.len() - j,
{
    if j == s.len() {
        assert(s.subrange(0, j) =~= s);
    } else {
        let p = s.subrange(0, j);
        let q = s.subrange(0, j + 1);
        assert(q.drop_last() =~= p);
        assert(forall|i: int| 0 <= i < p.len() ==> p[i] == s[i]);
        lemma_num_of_nonneg(p);
        assert(num_of(q) == num_of(p) * 10 + digit_value(s[j]));
        lemma_num_of_prefix(s, j + 1);
    }
}

/// A field that reads as a `u64`: non-empty, all digits, and in range.
pub open spec fn is_u64_field(s: Seq<char>) -> bool {
    is_number(s) && num_of(s) <= u64::MAX
}

/// Reads a non-empty, all-digit field as a `u64`; `None` exactly when the
/// field is empty, holds a non-digit, or does not fit.
pub fn parse_u64(s: &str) -> (r: Option<u64>)
    ensures
        match r {
            Some(v) => is_number(s@) && num_of(s@) <= u64::MAX && v as int == num_of(s@),
            None => !(is_number(s@) && num_of(s@) <= u64::MAX),
        },
{
    let n = s.unicode_len();
    if n == 0 {
        return None;
    }
    let mut acc: u64 = 0;
    let mut i: usize = 0;
    while i < n
        invariant
            0 < n == s@.len(),
            0 <= i <= n,
            all_digits(s@.subrange(0, i as int)),
            acc as int == num_of(s@.subrange(0, i as int)),
        decreases n - i,
    {
        let c = s.get_char(i);
        let u = c as u32;
        proof {
            assert(s@.subrange(0, i + 1).drop_last() =~= s@.subrange(0, i as int));
            assert(s@.subrange(0, i + 1).last() == s@[i as int]);
        }
        if u < 48 || u > 57 {
            assert(!is_digit_char(s@[i as int]));
            return None;
        }
        let d = (u - 48) as u64;
        let wide: u128 = (acc as u128) * 10 + (d as u128);
        assert(wide as int == num_of(s@.subrange(0, i + 1)));
        if wide > u64::MAX as u128 {
            proof {
                if is_number(s@) {
                    lemma_num_of_prefix(s@, i + 1);
                }
            }
            return None;
        }
        acc = wide as u64;
        i = i + 1;
    }
    proof {
        assert(s@.subrange(0, n as int) =~= s@);
    }
    Some(acc)
}

// ---------------------------------------------------------------------------
// Splitting on a separator
// ---------------------------------------------------------------------------

/// The views of a sequence of string slices.
pub open spec fn str_views(ts: Seq<&str>) -> Seq<Seq<char>> {
    ts.map_values(|t: &str| t@)
}

/// Splits a character sequence on a separator.  A text with `k` separators
/// yields `k + 1` fields; the empty text yields one empty field.
pub open spec fn split_on(s: Seq<char>, sep: char) -> Seq<Seq<char>>
    decreases s.len(),
{
    if s.len() == 0 {
        seq![Seq::<char>::empty()]
    } else if s.last() == sep {
        split_on(s.drop_last(), sep).push(Seq::<char>::empty())
    } else {
        let r = split_on(s.drop_last(), sep);
        r.update(r.len() - 1, r.last().push(s.last()))
    }
}

pub proof fn lemma_split_on_len(s: Seq<char>, sep: char)
    ensures
        split_on(s, sep).len() >= 1,
    decreases s.len(),
{
    if s.len() > 0 {
        lemma_split_on_len(s.drop_last(), sep);
    }
}

/// Splits a string on a separator character, preserving every field.
pub fn split_str<'a>(s: &'a str, sep: char) -> (r: Vec<&'a str>)
    ensures
        str_views(r@) == split_on(s@, sep),
{
    let n = s.unicode_len();
    let mut r: Vec<&'a str> = Vec::new();
    let mut start: usize = 0;
    let mut i: usize = 0;
    while i < n
        invariant
            0 <= start <= i <= n == s@.len(),
            str_views(r@).push(s@.subrange(start as int, i as int)) =~~= split_on(
                s@.subrange(0, i as int),
                sep,
            ),
        decreases n - i,
    {
        let ghost pre = s@.subrange(0, i as int);
        let c = s.get_char(i);
        proof {
            assert(s@.subrange(0, i + 1).drop_last() =~= pre);
            assert(s@.subrange(0, i + 1).last() == s@[i as int]);
            lemma_split_on_len(pre, sep);
        }
        if c == sep {
            let field = s.substring_char(start, i);
            r.push(field);
            start = i + 1;
            proof {
                assert(str_views(r@).push(Seq::<char>::empty()) =~~= split_on(
                    s@.subrange(0, i + 1),
                    sep,
                ));
                assert(Seq::<char>::empty() =~= s@.subrange(start as int, i + 1));
            }
        } else {
            proof {
                let old_views = str_views(r@).push(s@.subrange(start as int, i as int));
                assert(old_views.last() == s@.subrange(start as int, i as int));
                assert(s@.subrange(start as int, i as int).push(s@[i as int]) =~= s@.subrange(
                    start as int,
                    i + 1,
                ));
                assert(str_views(r@).push(s@.subrange(start as int, i + 1)) =~~= old_views.update(
                    old_views.len() - 1,
                    old_views.last().push(s@[i as int]),
                ));
            }
        }
        i = i + 1;
    }
    let field = s.substring_char(start, n);
    r.push(field);
    proof {
        assert(s@.subrange(0, n as int) =~= s@);
        assert(str_views(r@) =~~= split_on(s@, sep));
    }
    r
}

// ---------------------------------------------------------------------------
// Lines
// ---------------------------------------------------------------------------

/// A line with one trailing carriage return removed, if present.
pub open spec fn strip_cr(line: Seq<char>) -> Seq<char> {
    if line.len() > 0 && line.last() == '\r' {
        line.drop_last()
    } else {
        line
    }
}

/// The lines of a text: newline-separated, a final newline terminates the
/// last line rather than opening an empty one, and a carriage return before
/// a newline is dropped.  The empty text has no lines.
pub open spec fn lines_of(s: Seq<char>) -> Seq<Seq<char>> {
    if s.len() == 0 {
        Seq::empty()
    } else {
        let raw = split_on(s, '\n');
        let kept = if raw.last().len() == 0 {
            raw.drop_last()
        } else {
            raw
        };
        kept.map_values(|l: Seq<char>| strip_cr(l))
    }
}

/// Splits a text into its lines.
pub fn split_lines<'a>(s: &'a str) -> (r: Vec<&'a str>)
    ensures
        str_views(r@) == lines_of(s@),
{
    let n = s.unicode_len();
    let mut out: Vec<&'a str> = Vec::new();
    if n == 0 {
        proof {
            assert(str_views(out@) =~~= lines_of(s@));
        }
        return out;
    }
    let mut parts = split_str(s, '\n');
    proof {
        lemma_split_on_len(s@, '\n');
    }
    let p_last = parts[parts.len() - 1];
    let ghost raw = split_on(s@, '\n');
    if p_last.unicode_len() == 0 {
        parts.pop();
        proof {
            assert(str_views(parts@) =~~= raw.drop_last());
        }
    }
    let ghost kept = if raw.last().len() == 0 {
        raw.drop_last()
    } else {
        raw
    };
    let m = parts.len();
    let mut k: usize = 0;
    while k < m
        invariant
            0 <= k <= m == parts@.len(),
            str_views(parts@) =~~= kept,
            out@.len() == k,
            forall|j: int| 0 <= j < k ==> (#[trigger] out@[j])@ == strip_cr(kept[j]),
        decreases m - k,
    {
        let line = parts[k];
        let len = line.unicode_len();
        if len > 0 && line.get_char(len - 1) == '\r' {
            let clipped = line.substring_char(0, len - 1);
            proof {
                assert(clipped@ =~= strip_cr(kept[k as int]));
            }
            out.push(clipped);
        } else {
            proof {
                assert(line@ == strip_cr(kept[k as int]));
            }
            out.push(line);
        }
        k = k + 1;
    }
    proof {
        assert(str_views(out@) =~~= kept.map_values(|l: Seq<char>| strip_cr(l)));
    }
    out
}

// ---------------------------------------------------------------------------
// Writing decimal numbers
// ---------------------------------------------------------------------------

/// Character-by-character string equality.
pub fn str_eq(a: &str, b: &str) -> (r: bool)
    ensures
        r == (a@ == b@),
{
    let n = a.unicode_len();
    let m = b.unicode_len();
    if n != m {
        return false;
    }
    let mut i: usize = 0;
    while i < n
        invariant
            0 <= i <= n == a@.len(),
            n == b@.len(),
            forall|j: int| 0 <= j < i ==> a@[j] == b@[j],
        decreases n - i,
    {
        if a.get_char(i) != b.get_char(i) {
            return false;
        }
        i = i + 1;
    }
    proof {
        assert(a@ =~= b@);
    }
    true
}

/// The decimal rendering of a non-negative integer, without sign or padding.
pub open spec fn dec_rep(n: int) -> Seq<char>
    decreases n,
{
    if n <= 0 {
        seq!['0']
    } else if n < 10 {
        seq![digit_char(n)]
    } else {
        dec_rep(n / 10).push(digit_char(n % 10))
    }
}

fn digit_char_exec(d: u64) -> (c: char)
    requires
        d < 10,
    ensures
        c == digit_char(d as int),
{
    match d {
        0 => '0',
        1 => '1',
        2 => '2',
        3 => '3',
        4 => '4',
        5 => '5',
        6 => '6',
        7 => '7',
        8 => '8',
        _ => '9',
    }
}

/// Relies on `String::push` from std: it appends exactly the one character
/// `c` at the end of the string and changes nothing else.
#[verifier::external_body]
pub fn push_char(s: &mut String, c: char)
    ensures
        final(s)@ == old(s)@.push(c),
{
    s.push(c);
}

/// Appends the decimal rendering of `n` to `out`.
pub fn append_dec(out: &mut String, n: u64)
    ensures
        final(out)@ == old(out)@ + dec_rep(n as int),
{
    let mut tmp: Vec<char> = Vec::new();
    let mut m: u64 = n;
    loop
        invariant_except_break
            (tmp@.len() == 0 && m == n) || (m >= 1 && dec_rep(n as int) =~= dec_rep(m as int)
                + tmp@.reverse()),
        ensures
            dec_rep(n as int) == tmp@.reverse(),
        decreases m,
    {
        let d = m % 10;
        let c = digit_char_exec(d);
        let ghost pre = tmp@;
        tmp.push(c);
        proof {
            assert(tmp@.reverse() =~= seq![c] + pre.reverse());
        }
        let next = m / 10;
        if next == 0 {
            proof {
                if pre.len() == 0 {
                    assert(dec_rep(n as int) =~= tmp@.reverse());
                } else {
                    assert(dec_rep(m as int) =~= seq![digit_char(m as int)]);
                    assert(dec_rep(n as int) =~= tmp@.reverse());
                }
            }
            break;
        }
        proof {
            assert(dec_rep(m as int) == dec_rep(m as int / 10).push(digit_char(m as int % 10)));
            assert(dec_rep(m as int / 10) + tmp@.reverse() =~= dec_rep(m as int) + pre.reverse());
            if pre.len() == 0 {
                assert(dec_rep(n as int) =~= dec_rep(next as int) + tmp@.reverse());
            } else {
                assert(dec_rep(n as int) =~= dec_rep(next as int) + tmp@.reverse());
            }
        }
        m = next;
    }
    let ghost base = out@;
    let ghost rev = tmp@.reverse();
    let total = tmp.len();
    let mut j: usize = total;
    while j > 0
        invariant
            0 <= j <= total == tmp@.len(),
            rev == tmp@.reverse(),
            dec_rep(n as int) == rev,
            out@ == base + rev.subrange(0, total - j),
        decreases j,
    {
        let c = tmp[j - 1];
        proof {
            assert(rev[total - j] == tmp@[j - 1]);
            assert(rev.subrange(0, total - j + 1) =~= rev.subrange(0, total - j).push(tmp@[j - 1]));
        }
        push_char(out, c);
        j = j - 1;
    }
    proof {
        assert(rev.subrange(0, total as int) =~= rev);
    }
}

// ---------------------------------------------------------------------------
// Letter case
// ---------------------------------------------------------------------------

/// An ASCII lowercase letter raised to its uppercase form; every other
/// character is kept as it is.
pub open spec fn upper_char(c: char) -> char {
    if 97 <= c as u32 <= 122 {
        (((c as u32) - 32) as u8) as char
    } else {
        c
    }
}

pub fn to_upper_char(c: char) -> (r: char)
    ensures
        r == upper_char(c),
{
    let u = c as u32;
    if 97 <= u && u <= 122 {
        ((u - 32) as u8) as char
    } else {
        c
    }
}

} // verus!
