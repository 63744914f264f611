//! What the system says of the memory of the process.

use vstd::prelude::*;
use vstd::slice::slice_subrange;

verus! {

/// Whether a character is white space, as Unicode has it.
pub open spec fn is_space(c: char) -> bool {
    let v = c as u32;
    ||| 0x09 <= v <= 0x0d
    ||| v == 0x20
    ||| v == 0x85
    ||| v == 0xa0
    ||| v == 0x1680
    ||| 0x2000 <= v <= 0x200a
    ||| v == 0x2028
    ||| v == 0x2029
    ||| v == 0x202f
    ||| v == 0x205f
    ||| v == 0x3000
}

/// The text without white space at the start.
pub open spec fn trimmed_start(s: Seq<char>) -> Seq<char>
    decreases s.len(),
{
    if s.len() > 0 && is_space(s[0]) {
        trimmed_start(s.skip(1))
    } else {
        s
    }
}

/// The text without white space at the end.
pub open spec fn trimmed_end(s: Seq<char>) -> Seq<char>
    decreases s.len(),
{
    if s.len() > 0 && is_space(s.last()) {
        trimmed_end(s.drop_last())
    } else {
        s
    }
}

/// The text without any ` kB` at the end.
pub open spec fn without_unit(s: Seq<char>) -> Seq<char>
    decreases s.len(),
{
    if s.len() >= 3 && s.skip(s.len() - 3) == seq![' ', 'k', 'B'] {
        without_unit(s.take(s.len() - 3))
    } else {
        s
    }
}

/// Whether a character is a decimal digit.
pub open spec fn is_digit(c: char) -> bool {
    0x30 <= c as u32 <= 0x39
}

/// Whether all characters are decimal digits.
pub open spec fn all_digits(s: Seq<char>) -> bool {
    forall|i: int| 0 <= i < s.len() ==> is_digit(#[trigger] s[i])
}

/// The number that decimal digits stand for.
pub open spec fn digits_value(s: Seq<char>) -> nat
    decreases s.len(),
{
    if s.len() == 0 {
        0
    } else {
        digits_value(s.drop_last()) * 10 + (s.last() as u32 - 0x30) as nat
    }
}

/// The digits behind a plus sign, if there is one.
pub open spec fn without_plus(s: Seq<char>) -> Seq<char> {
    if s.len() > 0 && s[0] == '+' {
        s.skip(1)
    } else {
        s
    }
}

/// The number that a text stands for; zero if it stands for none that fits in 64 bits.
pub open spec fn number_or_zero(s: Seq<char>) -> u64 {
    let d = without_plus(s);
    if d.len() > 0 && all_digits(d) && digits_value(d) <= u64::MAX {
        digits_value(d) as u64
    } else {
        0
    }
}

/// The number of kilobytes that a field stands for.
pub open spec fn kilobytes(field: Seq<char>) -> u64 {
    number_or_zero(without_unit(trimmed_end(trimmed_start(field))))
}

/// What is known of the memory, in kilobytes: in use, reserved, and the most ever reserved.
#[derive(Debug, Clone, Copy, PartialEq, Eq, Structural)]
pub struct ProcMem {
    pub rss: u64,
    pub vsize: u64,
    pub peak: u64,
}

/// What is known of the memory after one more line.
pub open spec fn with_line(m: ProcMem, line: Seq<char>) -> ProcMem {
    if "VmRSS:"@.is_prefix_of(line) {
        ProcMem { rss: kilobytes(line.skip("VmRSS:"@.len() as int)), ..m }
    } else if "VmSize:"@.is_prefix_of(line) {
        ProcMem { vsize: kilobytes(line.skip("VmSize:"@.len() as int)), ..m }
    } else if "VmPeak:"@.is_prefix_of(line) {
        ProcMem { peak: kilobytes(line.skip("VmPeak:"@.len() as int)), ..m }
    } else {
        m
    }
}

/// What is known of the memory after lines.
pub open spec fn with_lines(lines: Seq<Seq<char>>) -> ProcMem
    decreases lines.len(),
{
    if lines.len() == 0 {
        ProcMem { rss: 0, vsize: 0, peak: 0 }
    } else {
        with_line(with_lines(lines.drop_last()), lines.last())
    }
}

/// The lines of a text, each up to a line feed; a carriage return before it is white space at the
/// end of the line.
pub open spec fn lines_of(text: Seq<char>) -> Seq<Seq<char>>
    decreases text.len(),
{
    if text.len() == 0 {
        seq![Seq::empty()]
    } else {
        let front = lines_of(text.drop_last());
        if text.last() == '\n' {
            front.push(Seq::empty())
        } else {
            front.drop_last().push(front.last().push(text.last()))
        }
    }
}

/// A text has at least one line.
proof fn lemma_lines(text: Seq<char>)
    ensures
        lines_of(text).len() > 0,
    decreases text.len(),
{
    if text.len() > 0 {
        lemma_lines(text.drop_last());
    }
}

fn space(c: char) -> (r: bool)
    ensures
        r == is_space(c),
{
    let v: u32 = c as u32;
    (0x09 <= v && v <= 0x0d) || v == 0x20 || v == 0x85 || v == 0xa0 || v == 0x1680 || (0x2000 <= v
        && v <= 0x200a) || v == 0x2028 || v == 0x2029 || v == 0x202f || v == 0x205f || v == 0x3000
}

/// The number that a text stands for; zero if it stands for none that fits in 64 bits.
fn parse_number(s: &[char]) -> (r: u64)
    ensures
        r == number_or_zero(s@),
{
    let n: usize = s.len();
    let start: usize = if n > 0 && s[0] == '+' {
        1
    } else {
        0
    };
    let ghost d = without_plus(s@);
    assert(d =~= s@.skip(start as int));
    if start == n {
        return 0;
    }
    let mut value: u64 = 0;
    let mut i: usize = start;
    assert(d.take(0) =~= Seq::empty());
    while i < n
        invariant
            start <= i <= n == s@.len(),
            d == s@.skip(start as int),
            d == without_plus(s@),
            start < n,
            all_digits(d.take(i - start)),
            value == digits_value(d.take(i - start)),
        decreases n - i,
    {
        let c: char = s[i];
        let v: u32 = c as u32;
        let ghost k = i - start;
        proof {
            assert(d[k] == c);
            assert(d.take(k + 1).drop_last() =~= d.take(k));
        }
        if v < 0x30 || v > 0x39 {
            assert(!all_digits(d));
            return 0;
        }
        let digit: u64 = (v - 0x30) as u64;
        if value > (u64::MAX - digit) / 10 {
            proof {
                assert(digits_value(d.take(k + 1)) > u64::MAX);
                assert(d.take(k + 1).len() == k + 1);
                lemma_digits_grow(d, k + 1);
            }
            return 0;
        }
        value = value * 10 + digit;
        i = i + 1;
        proof {
            assert forall|j: int| 0 <= j < d.take(k + 1).len() implies is_digit(
                #[trigger] d.take(k + 1)[j],
            ) by {
                if j < k {
                    assert(d.take(k)[j] == d.take(k + 1)[j]);
                }
            }
        }
    }
    assert(d.take(n - start) =~= d);
    value
}

/// More digits do not make a number smaller.
proof fn lemma_digits_grow(d: Seq<char>, n: int)
    requires
        0 <= n <= d.len(),
    ensures
        all_digits(d) ==> digits_value(d.take(n)) <= digits_value(d),
    decreases d.len() - n,
{
    if n == d.len() {
        assert(d.take(n) =~= d);
    } else {
        lemma_digits_grow(d, n + 1);
        assert(d.take(n + 1).drop_last() =~= d.take(n));
        if all_digits(d) {
            assert(is_digit(d[n]));
        }
    }
}

/// The number of kilobytes that a field stands for.
fn parse_kilobytes(field: &[char]) -> (r: u64)
    ensures
        r == kilobytes(field@),
{
    let n: usize = field.len();
    let mut lo: usize = 0;
    assert(field@.skip(0) =~= field@);
    while lo < n && space(field[lo])
        invariant
            lo <= n == field@.len(),
            trimmed_start(field@.skip(lo as int)) == trimmed_start(field@),
        decreases n - lo,
    {
        assert(field@.skip(lo as int).skip(1) =~= field@.skip(lo + 1));
        lo = lo + 1;
    }
    let ghost s = trimmed_start(field@);
    assert(s =~= field@.subrange(lo as int, n as int));
    let mut hi: usize = n;
    while hi > lo && space(field[hi - 1])
        invariant
            lo <= hi <= n == field@.len(),
            trimmed_end(field@.subrange(lo as int, hi as int)) == trimmed_end(s),
        decreases hi,
    {
        assert(field@.subrange(lo as int, hi as int).drop_last() =~= field@.subrange(
            lo as int,
            hi - 1,
        ));
        hi = hi - 1;
    }
    let ghost t = trimmed_end(s);
    assert(t =~= field@.subrange(lo as int, hi as int));
    while hi - lo >= 3 && field[hi - 3] == ' ' && field[hi - 2] == 'k' && field[hi - 1] == 'B'
        invariant
            lo <= hi <= n == field@.len(),
            without_unit(field@.subrange(lo as int, hi as int)) == without_unit(t),
        decreases hi,
    {
        proof {
            let u = field@.subrange(lo as int, hi as int);
            assert(u.skip(u.len() - 3) =~= seq![' ', 'k', 'B']);
            assert(u.take(u.len() - 3) =~= field@.subrange(lo as int, hi - 3));
        }
        hi = hi - 3;
    }
    proof {
        let u = field@.subrange(lo as int, hi as int);
        if u.len() >= 3 && u.skip(u.len() - 3) == seq![' ', 'k', 'B'] {
            assert(u.skip(u.len() - 3)[0] == ' ');
            assert(u.skip(u.len() - 3)[1] == 'k');
            assert(u.skip(u.len() - 3)[2] == 'B');
        }
    }
    parse_number(slice_subrange(field, lo, hi))
}

/// The characters of a text.
fn chars_of(text: &str) -> (r: Vec<char>)
    ensures
        r@ == text@,
{
    let mut out: Vec<char> = Vec::new();
    for c in iter: text.chars()
        invariant
            iter.seq() == text@,
            out@ == text@.take(iter.index()),
    {
        out.push(c);
        assert(text@.take(iter.index() + 1) =~= text@.take(iter.index()).push(c));
    }
    assert(text@.take(text@.len() as int) =~= text@);
    out
}

/// What is behind a label at the start of a line, if the line has it.
fn behind<'a>(line: &'a [char], label: &str) -> (r: Option<&'a [char]>)
    ensures
        match r {
            Some(rest) => label@.is_prefix_of(line@) && rest@ == line@.skip(label@.len() as int),
            None => !label@.is_prefix_of(line@),
        },
{
    let wanted = chars_of(label);
    let n: usize = wanted.len();
    if line.len() < n {
        return None;
    }
    let mut i: usize = 0;
    while i < n
        invariant
            i <= n == wanted@.len() <= line@.len(),
            wanted@ == label@,
            forall|j: int| 0 <= j < i ==> wanted@[j] == line@[j],
        decreases n - i,
    {
        if wanted[i] != line[i] {
            assert(line@.subrange(0, n as int)[i as int] != label@[i as int]);
            return None;
        }
        i = i + 1;
    }
    assert(label@ =~= line@.subrange(0, n as int));
    let rest = slice_subrange(line, n, line.len());
    assert(rest@ =~= line@.skip(n as int));
    Some(rest)
}

/// What is known of the memory after one more line.
fn read_line(m: ProcMem, line: &[char]) -> (r: ProcMem)
    ensures
        r == with_line(m, line@),
{
    let mut m = m;
    if let Some(v) = behind(line, "VmRSS:") {
        m.rss = parse_kilobytes(v);
    } else if let Some(v) = behind(line, "VmSize:") {
        m.vsize = parse_kilobytes(v);
    } else if let Some(v) = behind(line, "VmPeak:") {
        m.peak = parse_kilobytes(v);
    }
    m
}

/// Reads what is known of the memory from a status text. Nothing is known where there is no such
/// text: it could not be read, or is not UTF-8.
pub fn read_proc_mem(status: Option<&str>) -> (r: ProcMem)
    ensures
        r == match status {
            Some(text) => with_lines(lines_of(text@)),
            None => ProcMem { rss: 0, vsize: 0, peak: 0 },
        },
{
    let mut m = ProcMem { rss: 0, vsize: 0, peak: 0 };
    let text = match status {
        Some(text) => text,
        None => {
            return m;
        },
    };
    let chars = chars_of(text);
    let mut line: Vec<char> = Vec::new();
    let mut i: usize = 0;
    proof {
        assert(chars@.take(0) =~= Seq::empty());
        assert(lines_of(chars@.take(0)).drop_last() =~= Seq::empty());
        assert(line@ =~= lines_of(chars@.take(0)).last());
    }
    while i < chars.len()
        invariant
            i <= chars@.len(),
            m == with_lines(lines_of(chars@.take(i as int)).drop_last()),
            line@ == lines_of(chars@.take(i as int)).last(),
        decreases chars@.len() - i,
    {
        let c: char = chars[i];
        let ghost front = lines_of(chars@.take(i as int));
        let ghost next = lines_of(chars@.take(i + 1));
        proof {
            assert(chars@.take(i + 1).drop_last() =~= chars@.take(i as int));
            assert(chars@.take(i + 1).last() == c);
            lemma_lines(chars@.take(i as int));
        }
        if c == '\n' {
            m = read_line(m, &line);
            line = Vec::new();
            assert(next.drop_last() =~= front);
        } else {
            line.push(c);
            assert(next.drop_last() =~= front.drop_last());
        }
        i = i + 1;
    }
    proof {
        assert(chars@.take(i as int) =~= text@);
        lemma_lines(text@);
    }
    read_line(m, &line)
}

} // verus!
