//! Text-format parsing for MovingAI `.map` files.
//!
//! A `.map` file consists of header lines (`type <tag>`, `height <n>`,
//! `width <n>`), a line reading `map`, and the grid rows themselves. The
//! spec functions here give line splitting, field splitting, trimming and
//! number parsing exact meanings, and [`parse_map`] is proved to assemble
//! the map that those meanings dictate.

use vstd::prelude::*;
use vstd::string::StrSliceExecFns;

verus! {

use crate::Map2D;
use crate::MapError;
use crate::MovingAiMap;

broadcast use vstd::seq_lib::group_seq_properties;

/// The index of the first occurrence of `c` in `s`, or `s.len()` if `c`
/// does not occur.
pub open spec fn spec_first_occ(s: Seq<char>, c: char) -> int
    decreases s.len(),
{
    if s.len() == 0 {
        0
    } else if s[0] == c {
        0
    } else {
        1 + spec_first_occ(s.drop_first(), c)
    }
}

/// `spec_first_occ` is characterized by scanning: it is the unique index
/// bounded by the length whose prefix is free of `c` and which holds `c`
/// if it is a proper index.
pub proof fn lemma_first_occ_is(s: Seq<char>, c: char, j: int)
    requires
        0 <= j <= s.len(),
        j < s.len() ==> s[j] == c,
        forall|k: int| 0 <= k < j ==> s[k] != c,
    ensures
        spec_first_occ(s, c) == j,
    decreases s.len(),
{
    if s.len() == 0 {
    } else if s[0] == c {
    } else {
        lemma_first_occ_is(s.drop_first(), c, j - 1);
    }
}

/// Basic bounds of `spec_first_occ`, and that the prefix before it is
/// free of `c`.
pub proof fn lemma_first_occ_props(s: Seq<char>, c: char)
    ensures
        0 <= spec_first_occ(s, c) <= s.len(),
        spec_first_occ(s, c) < s.len() ==> s[spec_first_occ(s, c)] == c,
        forall|k: int| 0 <= k < spec_first_occ(s, c) ==> s[k] != c,
    decreases s.len(),
{
    if s.len() == 0 {
    } else if s[0] == c {
    } else {
        lemma_first_occ_props(s.drop_first(), c);
    }
}

/// A line terminated by `\r\n` loses the carriage return.
pub open spec fn spec_strip_cr(s: Seq<char>) -> Seq<char> {
    if s.len() > 0 && s.last() == '\r' {
        s.drop_last()
    } else {
        s
    }
}

/// The lines of `s`: split at `\n`, with a `\r` immediately before the
/// `\n` removed, and with no empty line after a final line terminator.
pub open spec fn spec_lines(s: Seq<char>) -> Seq<Seq<char>>
    decreases s.len(),
    via spec_lines_decreases
{
    if s.len() == 0 {
        Seq::empty()
    } else {
        let i = spec_first_occ(s, '\n');
        if i == s.len() {
            seq![s]
        } else {
            seq![spec_strip_cr(s.take(i))] + spec_lines(s.skip(i + 1))
        }
    }
}

#[via_fn]
proof fn spec_lines_decreases(s: Seq<char>) {
    lemma_first_occ_props(s, '\n');
}

/// The fields of `s` when split at every occurrence of `sep`; empty
/// fields are kept, and the result always has at least one field.
pub open spec fn spec_split(s: Seq<char>, sep: char) -> Seq<Seq<char>>
    decreases s.len(),
    via spec_split_decreases
{
    let i = spec_first_occ(s, sep);
    if i == s.len() {
        seq![s]
    } else {
        seq![s.take(i)] + spec_split(s.skip(i + 1), sep)
    }
}

#[via_fn]
proof fn spec_split_decreases(s: Seq<char>, sep: char) {
    lemma_first_occ_props(s, sep);
}

/// Splitting at the only occurrence of `sep` yields exactly two fields.
pub proof fn lemma_split_single(s: Seq<char>, sep: char, i: int)
    requires
        0 <= i < s.len(),
        s[i] == sep,
        forall|k: int| 0 <= k < s.len() && k != i ==> s[k] != sep,
    ensures
        spec_split(s, sep) == seq![s.take(i), s.skip(i + 1)],
{
    lemma_first_occ_is(s, sep, i);
    let rest = s.skip(i + 1);
    lemma_first_occ_is(rest, sep, rest.len() as int);
    assert(spec_split(rest, sep) == seq![rest]);
    assert(spec_split(s, sep) == seq![s.take(i)] + seq![rest]);
    assert(seq![s.take(i)] + seq![rest] =~= seq![s.take(i), rest]);
}

/// Splitting a sequence without `sep` yields it as the single field.
pub proof fn lemma_split_no_sep(s: Seq<char>, sep: char)
    requires
        forall|k: int| 0 <= k < s.len() ==> s[k] != sep,
    ensures
        spec_split(s, sep) == seq![s],
{
    lemma_first_occ_is(s, sep, s.len() as int);
}

/// With two or more occurrences of `sep` the split has at least three
/// fields.
pub proof fn lemma_split_many(s: Seq<char>, sep: char, i: int, j: int)
    requires
        0 <= i < j < s.len(),
        s[i] == sep,
        s[j] == sep,
        forall|k: int| 0 <= k < i ==> s[k] != sep,
    ensures
        spec_split(s, sep).len() >= 3,
{
    lemma_first_occ_is(s, sep, i);
    let rest = s.skip(i + 1);
    assert(spec_split(s, sep) == seq![s.take(i)] + spec_split(rest, sep));
    lemma_first_occ_props(rest, sep);
    let f = spec_first_occ(rest, sep);
    assert(rest[j - i - 1] == sep);
    assert(f < rest.len());
    let rest2 = rest.skip(f + 1);
    assert(spec_split(rest, sep) == seq![rest.take(f)] + spec_split(rest2, sep));
    assert(spec_split(rest2, sep).len() >= 1) by {
        lemma_first_occ_props(rest2, sep);
        if spec_first_occ(rest2, sep) == rest2.len() {
            assert(spec_split(rest2, sep) == seq![rest2]);
        } else {
            assert(spec_split(rest2, sep) == seq![rest2.take(spec_first_occ(rest2, sep))]
                + spec_split(rest2.skip(spec_first_occ(rest2, sep) + 1), sep));
        }
    }
}

/// Collect the characters of a string slice into a vector.
pub fn chars_of(s: &str) -> (r: Vec<char>)
    ensures
        r@ == s@,
{
    let n = s.unicode_len();
    let mut out: Vec<char> = Vec::new();
    let mut i: usize = 0;
    while i < n
        invariant
            i <= n,
            n == s@.len(),
            out@ == s@.take(i as int),
        decreases n - i,
    {
        let c = s.get_char(i);
        out.push(c);
        proof {
            assert(s@.take(i + 1) =~= s@.take(i as int).push(s@[i as int]));
        }
        i += 1;
    }
    proof {
        assert(s@.take(n as int) =~= s@);
    }
    out
}

/// The characters with the Unicode `White_Space` property, which are the
/// characters that trimming removes.
pub open spec fn spec_is_ws(c: char) -> bool {
    c == ' ' || c == '\t' || c == '\n' || c == '\r' || c == '\u{b}' || c == '\u{c}' || c
        == '\u{85}' || c == '\u{a0}' || c == '\u{1680}' || c == '\u{2000}' || c == '\u{2001}' || c
        == '\u{2002}' || c == '\u{2003}' || c == '\u{2004}' || c == '\u{2005}' || c == '\u{2006}'
        || c == '\u{2007}' || c == '\u{2008}' || c == '\u{2009}' || c == '\u{200a}' || c
        == '\u{2028}' || c == '\u{2029}' || c == '\u{202f}' || c == '\u{205f}' || c == '\u{3000}'
}

/// `s` without leading whitespace.
pub open spec fn spec_trim_start(s: Seq<char>) -> Seq<char>
    decreases s.len(),
{
    if s.len() > 0 && spec_is_ws(s[0]) {
        spec_trim_start(s.drop_first())
    } else {
        s
    }
}

/// `s` without trailing whitespace.
pub open spec fn spec_trim_end(s: Seq<char>) -> Seq<char>
    decreases s.len(),
{
    if s.len() > 0 && spec_is_ws(s.last()) {
        spec_trim_end(s.drop_last())
    } else {
        s
    }
}

/// `s` without leading and trailing whitespace.
pub open spec fn spec_trim(s: Seq<char>) -> Seq<char> {
    spec_trim_end(spec_trim_start(s))
}

/// Trimming the start skips exactly the leading run of whitespace.
proof fn lemma_trim_start_skip(s: Seq<char>, j: int)
    requires
        0 <= j <= s.len(),
        forall|k: int| 0 <= k < j ==> spec_is_ws(s[k]),
        j < s.len() ==> !spec_is_ws(s[j]),
    ensures
        spec_trim_start(s) == s.skip(j),
    decreases s.len(),
{
    if j == 0 {
        assert(s.skip(0) =~= s);
    } else {
        lemma_trim_start_skip(s.drop_first(), j - 1);
        assert(s.drop_first().skip(j - 1) =~= s.skip(j));
    }
}

/// Trimming the end keeps exactly the prefix before the trailing run of
/// whitespace.
proof fn lemma_trim_end_take(s: Seq<char>, j: int)
    requires
        0 <= j <= s.len(),
        forall|k: int| j <= k < s.len() ==> spec_is_ws(s[k]),
        j > 0 ==> !spec_is_ws(s[j - 1]),
    ensures
        spec_trim_end(s) == s.take(j),
    decreases s.len(),
{
    if j == s.len() {
        assert(s.take(j) =~= s);
    } else {
        lemma_trim_end_take(s.drop_last(), j);
        assert(s.drop_last().take(j) =~= s.take(j));
    }
}

fn is_ws_char(c: char) -> (r: bool)
    ensures
        r == spec_is_ws(c),
{
    c == ' ' || c == '\t' || c == '\n' || c == '\r' || c == '\u{b}' || c == '\u{c}' || c
        == '\u{85}' || c == '\u{a0}' || c == '\u{1680}' || c == '\u{2000}' || c == '\u{2001}' || c
        == '\u{2002}' || c == '\u{2003}' || c == '\u{2004}' || c == '\u{2005}' || c == '\u{2006}'
        || c == '\u{2007}' || c == '\u{2008}' || c == '\u{2009}' || c == '\u{200a}' || c
        == '\u{2028}' || c == '\u{2029}' || c == '\u{202f}' || c == '\u{205f}' || c == '\u{3000}'
}

/// Whether `v`, with surrounding whitespace removed, reads exactly `s`.
pub(crate) fn trim_matches(v: &Vec<char>, s: &str) -> (r: bool)
    ensures
        r == (spec_trim(v@) == s@),
{
    let n = v.len();
    let mut lo: usize = 0;
    while lo < n && is_ws_char(v[lo])
        invariant
            lo <= n,
            n == v@.len(),
            forall|k: int| 0 <= k < lo ==> spec_is_ws(v@[k]),
        decreases n - lo,
    {
        lo += 1;
    }
    let mut hi: usize = n;
    while hi > lo && is_ws_char(v[hi - 1])
        invariant
            lo <= hi <= n,
            n == v@.len(),
            forall|k: int| hi <= k < n ==> spec_is_ws(v@[k]),
        decreases hi,
    {
        hi -= 1;
    }
    proof {
        lemma_trim_start_skip(v@, lo as int);
        let t = v@.skip(lo as int);
        lemma_trim_end_take(t, hi - lo);
        assert(t.take(hi - lo) =~= v@.subrange(lo as int, hi as int));
    }
    let mid = subrange_vec(v, lo, hi);
    chars_eq_str(&mid, s)
}

/// `c` is a decimal digit.
pub open spec fn spec_is_digit(c: char) -> bool {
    '0' as int <= c as int <= '9' as int
}

/// The numeric value of a decimal digit.
pub open spec fn spec_digit_val(c: char) -> int {
    c as int - '0' as int
}

/// `s` is a non-empty run of decimal digits.
pub open spec fn spec_digits_ok(s: Seq<char>) -> bool {
    s.len() > 0 && forall|k: int| 0 <= k < s.len() ==> spec_is_digit(s[k])
}

/// The value of a run of decimal digits, most significant first.
pub open spec fn spec_digits_val(s: Seq<char>) -> int
    decreases s.len(),
{
    if s.len() == 0 {
        0
    } else {
        spec_digits_val(s.drop_last()) * 10 + spec_digit_val(s.last())
    }
}

/// What `str::parse::<usize>` yields on `s`: an optional leading `+`,
/// then at least one decimal digit, and a value that fits in `usize`.
pub open spec fn spec_parse_usize(s: Seq<char>) -> Option<usize> {
    let d = if s.len() > 0 && s[0] == '+' {
        s.drop_first()
    } else {
        s
    };
    if spec_digits_ok(d) && spec_digits_val(d) <= usize::MAX {
        Some(spec_digits_val(d) as usize)
    } else {
        None
    }
}

/// The value of a digit run is nonnegative.
proof fn lemma_digits_val_nonneg(s: Seq<char>)
    requires
        forall|k: int| 0 <= k < s.len() ==> spec_is_digit(s[k]),
    ensures
        spec_digits_val(s) >= 0,
    decreases s.len(),
{
    if s.len() > 0 {
        lemma_digits_val_nonneg(s.drop_last());
        assert(spec_digits_val(s.drop_last()) * 10 >= 0) by (nonlinear_arith)
            requires
                spec_digits_val(s.drop_last()) >= 0,
        ;
    }
}

/// Extending a digit run to the right never decreases its value.
proof fn lemma_digits_val_monotone(s: Seq<char>, k: int)
    requires
        0 <= k <= s.len(),
        forall|j: int| 0 <= j < s.len() ==> spec_is_digit(s[j]),
    ensures
        spec_digits_val(s) >= spec_digits_val(s.take(k)),
    decreases s.len(),
{
    if k == s.len() {
        assert(s.take(k) =~= s);
    } else {
        let d = s.drop_last();
        lemma_digits_val_monotone(d, k);
        assert(d.take(k) =~= s.take(k));
        lemma_digits_val_nonneg(d);
        assert(spec_digits_val(d) * 10 >= spec_digits_val(d)) by (nonlinear_arith)
            requires
                spec_digits_val(d) >= 0,
        ;
    }
}

/// Parse a run of decimal digits, with an optional leading `+`, as
/// `str::parse::<usize>` would.
#[verifier::rlimit(50)]
pub(crate) fn parse_usize_chars(v: &Vec<char>) -> (r: Option<usize>)
    ensures
        r == spec_parse_usize(v@),
{
    let n = v.len();
    let start: usize = if n > 0 && v[0] == '+' {
        1
    } else {
        0
    };
    let ghost d = if v@.len() > 0 && v@[0] == '+' {
        v@.drop_first()
    } else {
        v@
    };
    proof {
        assert(d =~= v@.skip(start as int));
    }
    if start >= n {
        return None;
    }
    let mut acc: usize = 0;
    let mut i: usize = start;
    while i < n
        invariant
            start <= i <= n,
            n == v@.len(),
            d == v@.skip(start as int),
            d == (if v@.len() > 0 && v@[0] == '+' {
                v@.drop_first()
            } else {
                v@
            }),
            forall|k: int| start <= k < i ==> spec_is_digit(v@[k]),
            acc == spec_digits_val(d.take(i - start)),
        decreases n - i,
    {
        let c = v[i];
        proof {
            assert(d[i - start] == v@[i as int]);
        }
        if c < '0' || c > '9' {
            proof {
                assert(!spec_is_digit(d[i - start]));
                assert(!spec_digits_ok(d));
            }
            return None;
        }
        let dv = (c as u32 - '0' as u32) as usize;
        proof {
            let t1 = d.take(i - start + 1);
            assert(t1 =~= d.take(i - start).push(d[i - start]));
            assert(t1.drop_last() =~= d.take(i - start));
            assert(t1.last() == d[i - start]);
            assert(spec_digits_val(t1) == spec_digits_val(d.take(i - start)) * 10 + spec_digit_val(
                d[i - start],
            ));
            assert(spec_digit_val(d[i - start]) == dv as int);
        }
        let next = match acc.checked_mul(10) {
            Some(m) => m.checked_add(dv),
            None => None,
        };
        match next {
            Some(m) => {
                acc = m;
            },
            None => {
                proof {
                    if spec_digits_ok(d) {
                        lemma_digits_val_nonneg(d.take(i - start));
                        lemma_digits_val_monotone(d, i - start + 1);
                        assert(spec_digits_val(d.take(i - start + 1)) > usize::MAX);
                        assert(spec_digits_val(d) > usize::MAX);
                    }
                }
                return None;
            },
        }
        i += 1;
    }
    proof {
        assert(d.take(n - start) =~= d);
    }
    Some(acc)
}

/// Find the first occurrence of `c` in `v` at or after `from`, returning
/// `v.len()` when there is none.
pub(crate) fn find_char(v: &Vec<char>, from: usize, c: char) -> (r: usize)
    requires
        from <= v@.len(),
    ensures
        from <= r <= v@.len(),
        r - from == spec_first_occ(v@.skip(from as int), c),
        r < v@.len() ==> v@[r as int] == c,
        forall|k: int| from <= k < r ==> v@[k] != c,
{
    let n = v.len();
    let mut i: usize = from;
    while i < n
        invariant
            from <= i <= n,
            n == v@.len(),
            forall|k: int| from <= k < i ==> v@[k] != c,
        decreases n - i,
    {
        if v[i] == c {
            proof {
                lemma_first_occ_is(v@.skip(from as int), c, i - from);
            }
            return i;
        }
        i += 1;
    }
    proof {
        lemma_first_occ_is(v@.skip(from as int), c, n - from);
    }
    n
}

/// Copy the characters of `v` between `start` and `end` into a fresh
/// vector.
pub(crate) fn subrange_vec(v: &Vec<char>, start: usize, end: usize) -> (r: Vec<char>)
    requires
        start <= end <= v@.len(),
    ensures
        r@ == v@.subrange(start as int, end as int),
{
    let mut out: Vec<char> = Vec::new();
    let mut i: usize = start;
    while i < end
        invariant
            start <= i <= end <= v@.len(),
            out@ == v@.subrange(start as int, i as int),
        decreases end - i,
    {
        out.push(v[i]);
        proof {
            assert(v@.subrange(start as int, i + 1) =~= v@.subrange(start as int, i as int).push(
                v@[i as int],
            ));
        }
        i += 1;
    }
    out
}

/// All the given lines joined, in order, with the line breaks gone: the
/// grid rows of a `.map` file form one flat row-major cell sequence.
pub open spec fn spec_concat_lines(lines: Seq<Seq<char>>) -> Seq<char>
    decreases lines.len(),
{
    if lines.len() == 0 {
        Seq::empty()
    } else {
        lines[0] + spec_concat_lines(lines.drop_first())
    }
}

/// Concatenation of a line sequence starts with its first line.
proof fn lemma_concat_cons(l: Seq<char>, rest: Seq<Seq<char>>)
    ensures
        spec_concat_lines(seq![l] + rest) == l + spec_concat_lines(rest),
{
    let s = seq![l] + rest;
    assert(s.len() > 0);
    assert(s[0] == l);
    assert(s.drop_first() =~= rest);
}

/// How the header lines of a `.map` file are folded into the map's
/// components, starting from the running values `mt` (topology tag),
/// `h` and `w`. A line reading `map` (after trimming) ends the header;
/// the remaining lines joined together are the cells. A header line with
/// exactly two space-separated fields sets `type`, `height` or `width`;
/// a `height` or `width` value that does not parse as a `usize` is an
/// error, reported as `None`. Anything else is ignored.
pub open spec fn spec_fold_header(
    lines: Seq<Seq<char>>,
    mt: Seq<char>,
    h: usize,
    w: usize,
) -> Option<(Seq<char>, usize, usize, Seq<char>)>
    decreases lines.len(),
{
    if lines.len() == 0 {
        Some((mt, h, w, Seq::empty()))
    } else {
        let line = lines[0];
        let rest = lines.drop_first();
        if spec_trim(line) == "map"@ {
            Some((mt, h, w, spec_concat_lines(rest)))
        } else {
            let fields = spec_split(line, ' ');
            if fields.len() == 2 {
                if fields[0] == "type"@ {
                    spec_fold_header(rest, fields[1], h, w)
                } else if fields[0] == "height"@ {
                    match spec_parse_usize(fields[1]) {
                        Some(n) => spec_fold_header(rest, mt, n, w),
                        None => None,
                    }
                } else if fields[0] == "width"@ {
                    match spec_parse_usize(fields[1]) {
                        Some(n) => spec_fold_header(rest, mt, h, n),
                        None => None,
                    }
                } else {
                    spec_fold_header(rest, mt, h, w)
                }
            } else {
                spec_fold_header(rest, mt, h, w)
            }
        }
    }
}

/// The components of the map described by the text `s`: the topology
/// tag, height, width, and flat cell sequence, or `None` when a numeric
/// header field is malformed. The running values start from a zero-sized
/// grid tagged `empty`.
pub open spec fn spec_parse_map(s: Seq<char>) -> Option<(Seq<char>, usize, usize, Seq<char>)> {
    spec_fold_header(spec_lines(s), "empty"@, 0, 0)
}

/// Extract the line starting at `pos` and the position just past its
/// line terminator, consuming one element of `spec_lines`.
fn next_line(v: &Vec<char>, pos: usize) -> (r: (Vec<char>, usize))
    requires
        pos < v@.len(),
    ensures
        pos < r.1 <= v@.len(),
        spec_lines(v@.skip(pos as int)) == seq![r.0@] + spec_lines(v@.skip(r.1 as int)),
{
    let n = v.len();
    let e = find_char(v, pos, '\n');
    let endl = if e < n && e > pos && v[e - 1] == '\r' {
        e - 1
    } else {
        e
    };
    let line = subrange_vec(v, pos, endl);
    let newpos = if e < n {
        e + 1
    } else {
        n
    };
    proof {
        let suffix = v@.skip(pos as int);
        let i = e - pos;
        assert(suffix.len() == n - pos);
        assert(i == spec_first_occ(suffix, '\n'));
        if e == n {
            assert(spec_lines(suffix) == seq![suffix]);
            assert(line@ =~= suffix);
            assert(v@.skip(n as int).len() == 0);
            assert(spec_lines(v@.skip(n as int)) == Seq::<Seq<char>>::empty());
            assert(seq![line@] + Seq::<Seq<char>>::empty() =~= seq![line@]);
        } else {
            assert(spec_lines(suffix) == seq![spec_strip_cr(suffix.take(i))] + spec_lines(
                suffix.skip(i + 1),
            ));
            let taken = suffix.take(i);
            assert(taken =~= v@.subrange(pos as int, e as int));
            if e > pos && v@[e - 1] == '\r' {
                assert(taken.len() > 0 && taken.last() == '\r');
                assert(spec_strip_cr(taken) == taken.drop_last());
                assert(taken.drop_last() =~= v@.subrange(pos as int, endl as int));
            } else {
                assert(spec_strip_cr(taken) == taken);
            }
            assert(line@ == spec_strip_cr(taken));
            assert(suffix.skip(i + 1) =~= v@.skip(newpos as int));
        }
    }
    (line, newpos)
}

/// Compare a character vector against a string slice.
pub(crate) fn chars_eq_str(v: &Vec<char>, s: &str) -> (r: bool)
    ensures
        r == (v@ == s@),
{
    let n = s.unicode_len();
    if v.len() != n {
        return false;
    }
    let mut i: usize = 0;
    while i < n
        invariant
            i <= n,
            n == s@.len(),
            v@.len() == n,
            forall|k: int| 0 <= k < i ==> v@[k] == s@[k],
        decreases n - i,
    {
        if v[i] != s.get_char(i) {
            return false;
        }
        i += 1;
    }
    proof {
        assert(v@ =~= s@);
    }
    true
}

/// Parse a string in the MovingAI `.map` format.
///
/// The header lines set the topology tag, the height and the width; the
/// lines after the `map` marker are joined into the flat cell sequence.
/// A malformed `height` or `width` number fails with
/// [`MapError::InvalidNumber`], and a cell sequence whose length differs
/// from `width * height` fails with [`MapError::DimensionMismatch`].
#[verifier::rlimit(50)]
pub fn parse_map(contents: &str) -> (r: Result<MovingAiMap, MapError>)
    ensures
        match spec_parse_map(contents@) {
            Option::None => r == Err::<MovingAiMap, MapError>(MapError::InvalidNumber),
            Option::Some(parts) => {
                if parts.3.len() == parts.2 * parts.1 {
                    &&& r is Ok
                    &&& r->Ok_0.inv()
                    &&& r->Ok_0.spec_map_type() == parts.0
                    &&& r->Ok_0.spec_height() == parts.1
                    &&& r->Ok_0.spec_width() == parts.2
                    &&& r->Ok_0.spec_cells() == parts.3
                } else {
                    r == Err::<MovingAiMap, MapError>(MapError::DimensionMismatch)
                }
            },
        },
{
    let v = chars_of(contents);
    let n = v.len();
    let mut map_type: Vec<char> = chars_of("empty");
    let mut height: usize = 0;
    let mut width: usize = 0;
    let mut cells: Vec<char> = Vec::new();
    let mut in_map = false;
    let mut pos: usize = 0;
    proof {
        assert(map_type@ == "empty"@);
        assert(v@.skip(0) =~= v@);
    }
    while pos < n
        invariant
            n == v@.len(),
            v@ == contents@,
            pos <= n,
            !in_map ==> {
                &&& cells@ == Seq::<char>::empty()
                &&& spec_parse_map(contents@) == spec_fold_header(
                    spec_lines(v@.skip(pos as int)),
                    map_type@,
                    height,
                    width,
                )
            },
            in_map ==> spec_parse_map(contents@) == Some(
                (
                    map_type@,
                    height,
                    width,
                    cells@ + spec_concat_lines(spec_lines(v@.skip(pos as int))),
                ),
            ),
        decreases n - pos,
    {
        let (mut line, newpos) = next_line(&v, pos);
        let ghost rest_lines = spec_lines(v@.skip(newpos as int));
        proof {
            assert((seq![line@] + rest_lines)[0] == line@);
            assert((seq![line@] + rest_lines).drop_first() =~= rest_lines);
        }
        if in_map {
            let ghost cells0 = cells@;
            let ghost line0 = line@;
            proof {
                lemma_concat_cons(line0, rest_lines);
            }
            cells.append(&mut line);
            proof {
                assert(cells0 + (line0 + spec_concat_lines(rest_lines)) =~= cells@
                    + spec_concat_lines(rest_lines));
            }
        } else {
            if trim_matches(&line, "map") {
                in_map = true;
                proof {
                    assert(cells@ + spec_concat_lines(rest_lines) =~= spec_concat_lines(
                        rest_lines,
                    ));
                }
            } else {
                let len = line.len();
                let sp = find_char(&line, 0, ' ');
                if sp < len {
                    let sp2 = find_char(&line, sp + 1, ' ');
                    if sp2 < len {
                        proof {
                            lemma_split_many(line@, ' ', sp as int, sp2 as int);
                        }
                    } else {
                        proof {
                            lemma_split_single(line@, ' ', sp as int);
                        }
                        let key = subrange_vec(&line, 0, sp);
                        let value = subrange_vec(&line, sp + 1, len);
                        proof {
                            assert(key@ =~= line@.take(sp as int));
                            assert(value@ =~= line@.skip(sp + 1));
                        }
                        if chars_eq_str(&key, "type") {
                            map_type = value;
                        } else if chars_eq_str(&key, "height") {
                            match parse_usize_chars(&value) {
                                Some(h) => {
                                    height = h;
                                },
                                None => {
                                    return Err(MapError::InvalidNumber);
                                },
                            }
                        } else if chars_eq_str(&key, "width") {
                            match parse_usize_chars(&value) {
                                Some(w) => {
                                    width = w;
                                },
                                None => {
                                    return Err(MapError::InvalidNumber);
                                },
                            }
                        }
                    }
                } else {
                    proof {
                        lemma_split_no_sep(line@, ' ');
                    }
                }
            }
        }
        pos = newpos;
    }
    proof {
        assert(v@.skip(n as int).len() == 0);
        assert(spec_lines(v@.skip(n as int)) == Seq::<Seq<char>>::empty());
        if in_map {
            assert(cells@ + spec_concat_lines(Seq::<Seq<char>>::empty()) =~= cells@);
        }
    }
    match MovingAiMap::make(map_type, height, width, cells) {
        Ok(m) => Ok(m),
        Err(_) => Err(MapError::DimensionMismatch),
    }
}

} // verus!
