//! Byte-level text helpers shared by the parsers: a mathematical view of a
//! list of output lines, line counting, prefix and substring tests, and
//! parsing of comma-separated decimal integers.

use vstd::prelude::*;

verus! {

/// The mathematical view of a list of output lines: each line as a byte
/// sequence.
pub open spec fn lines_view(lines: Seq<Vec<u8>>) -> Seq<Seq<u8>> {
    lines.map_values(|l: Vec<u8>| l@)
}

/// How many of the lines are non-blank (non-empty).
pub open spec fn spec_count_nonblank(lines: Seq<Seq<u8>>) -> nat
    decreases lines.len(),
{
    if lines.len() == 0 {
        0
    } else {
        spec_count_nonblank(lines.drop_last()) + if lines.last().len() > 0 {
            1nat
        } else {
            0nat
        }
    }
}

/// Counts the non-blank lines of a captured output.
pub fn count_nonblank_lines(lines: &Vec<Vec<u8>>) -> (count: usize)
    ensures
        count == spec_count_nonblank(lines_view(lines@)),
{
    let ghost all = lines_view(lines@);
    let mut count: usize = 0;
    let mut i: usize = 0;
    while i < lines.len()
        invariant
            i <= lines.len(),
            all == lines_view(lines@),
            all.len() == lines.len(),
            count <= i,
            count == spec_count_nonblank(all.take(i as int)),
        decreases lines.len() - i,
    {
        proof {
            assert(all.take(i + 1).drop_last() =~= all.take(i as int));
            assert(all.take(i + 1).last() == lines@[i as int]@);
        }
        if lines[i].len() > 0 {
            count = count + 1;
        }
        i = i + 1;
    }
    proof {
        assert(all.take(lines.len() as int) =~= all);
    }
    count
}

/// `p` occurs as a contiguous run somewhere in `s`.
pub open spec fn contains_seq(s: Seq<u8>, p: Seq<u8>) -> bool {
    exists|i: int| 0 <= i && i + p.len() <= s.len() && #[trigger] s.subrange(i, i + p.len()) == p
}

/// `s` begins with `p`.
pub open spec fn begins_with_seq(s: Seq<u8>, p: Seq<u8>) -> bool {
    p.len() <= s.len() && s.subrange(0, p.len() as int) == p
}

/// Whether the run of `line` starting at `at` equals `pat`.
fn run_matches(line: &Vec<u8>, at: usize, pat: &Vec<u8>) -> (r: bool)
    requires
        at + pat@.len() <= line@.len(),
    ensures
        r == (line@.subrange(at as int, at + pat@.len()) == pat@),
{
    let n = line.len();
    let m = pat.len();
    let mut j: usize = 0;
    while j < m
        invariant
            j <= m,
            n == line@.len(),
            m == pat@.len(),
            at + m <= n,
            forall|t: int| 0 <= t < j ==> line@[at + t] == pat@[t],
        decreases m - j,
    {
        if line[at + j] != pat[j] {
            proof {
                assert(line@.subrange(at as int, at + pat@.len())[j as int] != pat@[j as int]);
            }
            return false;
        }
        j = j + 1;
    }
    proof {
        assert(line@.subrange(at as int, at + pat@.len()) =~= pat@);
    }
    true
}

/// Whether `pat` occurs anywhere in `line`.
fn contains_pattern(line: &Vec<u8>, pat: &Vec<u8>) -> (r: bool)
    ensures
        r == contains_seq(line@, pat@),
{
    if pat.len() == 0 {
        proof {
            assert(line@.subrange(0, 0 + pat@.len() as int) =~= pat@);
        }
        return true;
    }
    if pat.len() > line.len() {
        return false;
    }
    let last = line.len() - pat.len();
    let mut i: usize = 0;
    while i <= last
        invariant
            i <= last + 1,
            pat@.len() >= 1,
            line@.len() <= usize::MAX,
            last == line@.len() - pat@.len(),
            forall|t: int| 0 <= t < i ==> #[trigger] line@.subrange(t, t + pat@.len()) != pat@,
        decreases last + 1 - i,
    {
        if run_matches(line, i, pat) {
            return true;
        }
        i = i + 1;
    }
    false
}

/// Whether `line` begins with `pat`.
pub(crate) fn begins_with_pattern(line: &Vec<u8>, pat: &Vec<u8>) -> (r: bool)
    ensures
        r == begins_with_seq(line@, pat@),
{
    if pat.len() > line.len() {
        false
    } else {
        run_matches(line, 0, pat)
    }
}

/// ASCII whitespace, as trimmed from the ends of a list token.
pub open spec fn is_space(b: u8) -> bool {
    b == 32 || b == 9 || b == 10 || b == 13 || b == 12
}

/// `s` without its leading whitespace.
pub open spec fn trim_left(s: Seq<u8>) -> Seq<u8>
    decreases s.len(),
{
    if s.len() > 0 && is_space(s[0]) {
        trim_left(s.skip(1))
    } else {
        s
    }
}

/// `s` without its trailing whitespace.
pub open spec fn trim_right(s: Seq<u8>) -> Seq<u8>
    decreases s.len(),
{
    if s.len() > 0 && is_space(s.last()) {
        trim_right(s.drop_last())
    } else {
        s
    }
}

/// `s` without leading or trailing whitespace.
pub open spec fn trim_spec(s: Seq<u8>) -> Seq<u8> {
    trim_right(trim_left(s))
}

/// An ASCII decimal digit.
pub open spec fn is_digit(b: u8) -> bool {
    48 <= b && b <= 57
}

/// Every byte of `s` is a decimal digit.
pub open spec fn all_digits(s: Seq<u8>) -> bool {
    forall|i: int| 0 <= i < s.len() ==> is_digit(#[trigger] s[i])
}

/// The numeric value of a digit byte.
pub open spec fn digit_of(b: u8) -> nat {
    if is_digit(b) {
        (b - 48) as nat
    } else {
        0
    }
}

/// The decimal value of a digit string.
pub open spec fn dec_val(s: Seq<u8>) -> nat
    decreases s.len(),
{
    if s.len() == 0 {
        0
    } else {
        dec_val(s.drop_last()) * 10 + digit_of(s.last())
    }
}

/// A token parses as a device index when, after trimming, it is a non-empty
/// digit string whose value fits the index type.
pub open spec fn token_valid(t: Seq<u8>) -> bool {
    let c = trim_spec(t);
    c.len() > 0 && all_digits(c) && dec_val(c) <= usize::MAX
}

/// The device index a valid token denotes.
pub open spec fn token_value(t: Seq<u8>) -> usize {
    dec_val(trim_spec(t)) as usize
}

/// `s` split at every comma; one more token than commas, in order.
pub open spec fn split_commas(s: Seq<u8>) -> Seq<Seq<u8>>
    decreases s.len(),
{
    if s.len() == 0 {
        seq![Seq::<u8>::empty()]
    } else if s[0] == 44 {
        seq![Seq::<u8>::empty()] + split_commas(s.skip(1))
    } else {
        let rest = split_commas(s.skip(1));
        seq![seq![s[0]] + rest[0]] + rest.skip(1)
    }
}

/// The parse of a device-list line: the value of every comma-separated
/// token, or nothing when some token is not a well-formed index.
pub open spec fn parse_devices_line(s: Seq<u8>) -> Option<Seq<usize>> {
    let toks = split_commas(s);
    if forall|i: int| 0 <= i < toks.len() ==> token_valid(#[trigger] toks[i]) {
        Some(Seq::new(toks.len(), |i: int| token_value(toks[i])))
    } else {
        None
    }
}

/// A comma-free string is its own single token.
proof fn lemma_split_no_comma(s: Seq<u8>)
    requires
        forall|j: int| 0 <= j < s.len() ==> s[j] != 44,
    ensures
        split_commas(s) == seq![s],
    decreases s.len(),
{
    if s.len() > 0 {
        assert forall|j: int| 0 <= j < s.skip(1).len() implies s.skip(1)[j] != 44 by {
            assert(s.skip(1)[j] == s[j + 1]);
        }
        lemma_split_no_comma(s.skip(1));
        assert(seq![s[0]] + s.skip(1) =~= s);
        assert(seq![s.skip(1)].skip(1) =~= Seq::<Seq<u8>>::empty());
        assert(split_commas(s) =~= seq![s]);
    } else {
        assert(s =~= Seq::<u8>::empty());
        assert(split_commas(s) =~= seq![s]);
    }
}

/// Splitting at the first comma: the head token is everything before it,
/// the rest is the split of everything after it.
proof fn lemma_split_at_comma(s: Seq<u8>, k: int)
    requires
        0 <= k < s.len(),
        s[k] == 44,
        forall|j: int| 0 <= j < k ==> s[j] != 44,
    ensures
        split_commas(s) == seq![s.take(k)] + split_commas(s.skip(k + 1)),
    decreases k,
{
    if k == 0 {
        assert(s.take(0) =~= Seq::<u8>::empty());
        assert(split_commas(s) =~= seq![s.take(0)] + split_commas(s.skip(1)));
    } else {
        let tail = s.skip(1);
        assert(tail[k - 1] == s[k]);
        assert forall|j: int| 0 <= j < k - 1 implies tail[j] != 44 by {
            assert(tail[j] == s[j + 1]);
        }
        lemma_split_at_comma(tail, k - 1);
        assert(tail.take(k - 1) =~= s.take(k).skip(1));
        assert(tail.skip(k) =~= s.skip(k + 1));
        let rest = split_commas(tail);
        assert(rest == seq![tail.take(k - 1)] + split_commas(tail.skip(k)));
        assert(rest[0] == tail.take(k - 1));
        assert(seq![s[0]] + rest[0] =~= s.take(k));
        assert(rest.skip(1) =~= split_commas(s.skip(k + 1)));
        assert(split_commas(s) =~= seq![s.take(k)] + split_commas(s.skip(k + 1)));
    }
}

/// The value of a prefix of a digit string never exceeds the whole.
proof fn lemma_dec_val_prefix_le(s: Seq<u8>, i: int)
    requires
        0 <= i <= s.len(),
    ensures
        dec_val(s.take(i)) <= dec_val(s),
    decreases s.len() - i,
{
    if i < s.len() {
        assert(s.take(i + 1).drop_last() =~= s.take(i));
        assert(dec_val(s.take(i + 1)) == dec_val(s.take(i)) * 10 + digit_of(s.take(i + 1).last()));
        assert(dec_val(s.take(i)) * 10 >= dec_val(s.take(i)));
        lemma_dec_val_prefix_le(s, i + 1);
        assert(s.take(s.len() as int) =~= s);
    } else {
        assert(s.take(i) =~= s);
    }
}

fn is_space_byte(b: u8) -> (r: bool)
    ensures
        r == is_space(b),
{
    b == 32 || b == 9 || b == 10 || b == 13 || b == 12
}

/// Trimming exactly strips a whitespace prefix.
proof fn lemma_trim_left_at(s: Seq<u8>, lo: int)
    requires
        0 <= lo <= s.len(),
        forall|j: int| 0 <= j < lo ==> is_space(#[trigger] s[j]),
        lo == s.len() || !is_space(s[lo]),
    ensures
        trim_left(s) == s.skip(lo),
    decreases lo,
{
    if lo == 0 {
        assert(s.skip(0) =~= s);
    } else {
        let tail = s.skip(1);
        assert forall|j: int| 0 <= j < lo - 1 implies is_space(#[trigger] tail[j]) by {
            assert(tail[j] == s[j + 1]);
        }
        assert(lo - 1 == tail.len() || !is_space(tail[lo - 1]));
        lemma_trim_left_at(tail, lo - 1);
        assert(tail.skip(lo - 1) =~= s.skip(lo));
    }
}

/// Trimming exactly strips a whitespace suffix.
proof fn lemma_trim_right_at(s: Seq<u8>, hi: int)
    requires
        0 <= hi <= s.len(),
        forall|j: int| hi <= j < s.len() ==> is_space(#[trigger] s[j]),
        hi == 0 || !is_space(s[hi - 1]),
    ensures
        trim_right(s) == s.take(hi),
    decreases s.len() - hi,
{
    if hi == s.len() {
        assert(s.take(hi) =~= s);
    } else {
        assert(is_space(s.last()));
        let head = s.drop_last();
        assert forall|j: int| hi <= j < head.len() implies is_space(#[trigger] head[j]) by {
            assert(head[j] == s[j]);
        }
        lemma_trim_right_at(head, hi);
        assert(head.take(hi) =~= s.take(hi));
    }
}

/// Strips leading and trailing whitespace from a token.
fn trim_bytes(tok: &Vec<u8>) -> (t: Vec<u8>)
    ensures
        t@ == trim_spec(tok@),
{
    let n = tok.len();
    let mut lo: usize = 0;
    while lo < n && is_space_byte(tok[lo])
        invariant
            lo <= n,
            n == tok@.len(),
            forall|j: int| 0 <= j < lo ==> is_space(#[trigger] tok@[j]),
        decreases n - lo,
    {
        lo = lo + 1;
    }
    let mut hi: usize = n;
    while hi > lo && is_space_byte(tok[hi - 1])
        invariant
            lo <= hi <= n,
            n == tok@.len(),
            forall|j: int| hi <= j < n ==> is_space(#[trigger] tok@[j]),
        decreases hi,
    {
        hi = hi - 1;
    }
    proof {
        lemma_trim_left_at(tok@, lo as int);
        let stripped = tok@.skip(lo as int);
        assert forall|j: int| hi - lo <= j < stripped.len() implies is_space(
            #[trigger] stripped[j],
        ) by {
            assert(stripped[j] == tok@[j + lo]);
        }
        if hi > lo {
            assert(stripped[hi - lo - 1] == tok@[hi - 1]);
        }
        lemma_trim_right_at(stripped, hi - lo);
        assert(stripped.take(hi - lo) =~= tok@.subrange(lo as int, hi as int));
    }
    let mut t: Vec<u8> = Vec::new();
    let mut j: usize = lo;
    while j < hi
        invariant
            lo <= j <= hi <= n,
            n == tok@.len(),
            t@ == tok@.subrange(lo as int, j as int),
        decreases hi - j,
    {
        t.push(tok[j]);
        proof {
            assert(t@ =~= tok@.subrange(lo as int, j + 1));
        }
        j = j + 1;
    }
    t
}

/// Parses one comma-separated token as a device index: trimmed, it must be a
/// non-empty digit string whose value fits.
fn parse_usize_token(tok: &Vec<u8>) -> (r: Option<usize>)
    ensures
        (match r {
            Some(v) => token_valid(tok@) && v == token_value(tok@),
            None => !token_valid(tok@),
        }),
{
    let t = trim_bytes(tok);
    let m = t.len();
    if m == 0 {
        return None;
    }
    let mut acc: usize = 0;
    let mut j: usize = 0;
    while j < m
        invariant
            j <= m,
            m == t@.len(),
            t@ == trim_spec(tok@),
            forall|i: int| 0 <= i < j ==> is_digit(#[trigger] t@[i]),
            acc == dec_val(t@.take(j as int)),
        decreases m - j,
    {
        let b = t[j];
        proof {
            assert(t@.take(j + 1).drop_last() =~= t@.take(j as int));
            assert(t@.take(j + 1).last() == t@[j as int]);
        }
        if b < 48 || b > 57 {
            proof {
                assert(!is_digit(t@[j as int]));
            }
            return None;
        }
        let wide = (acc as u128) * 10 + ((b - 48) as u128);
        proof {
            assert(dec_val(t@.take(j + 1)) == wide);
        }
        if wide > (usize::MAX as u128) {
            proof {
                lemma_dec_val_prefix_le(t@, j + 1);
            }
            return None;
        }
        acc = wide as usize;
        j = j + 1;
    }
    proof {
        assert(t@.take(m as int) =~= t@);
    }
    Some(acc)
}

/// Splits the suffix of `line` starting at `start` into its comma-separated
/// tokens.
fn split_from(line: &Vec<u8>, start: usize) -> (toks: Vec<Vec<u8>>)
    requires
        start <= line@.len(),
    ensures
        lines_view(toks@) == split_commas(line@.skip(start as int)),
    decreases line@.len() - start,
{
    let n = line.len();
    let mut i: usize = start;
    while i < n && line[i] != 44
        invariant
            start <= i <= n,
            n == line@.len(),
            forall|j: int| start <= j < i ==> line@[j] != 44,
        decreases n - i,
    {
        i = i + 1;
    }
    let mut tok: Vec<u8> = Vec::new();
    let mut j: usize = start;
    while j < i
        invariant
            start <= j <= i <= n,
            n == line@.len(),
            tok@ == line@.subrange(start as int, j as int),
        decreases i - j,
    {
        tok.push(line[j]);
        proof {
            assert(tok@ =~= line@.subrange(start as int, j + 1));
        }
        j = j + 1;
    }
    let ghost suffix = line@.skip(start as int);
    if i == n {
        proof {
            assert forall|j2: int| 0 <= j2 < suffix.len() implies suffix[j2] != 44 by {
                assert(suffix[j2] == line@[j2 + start]);
            }
            lemma_split_no_comma(suffix);
            assert(tok@ =~= suffix);
        }
        let mut toks: Vec<Vec<u8>> = Vec::new();
        toks.push(tok);
        proof {
            assert(lines_view(toks@) =~= split_commas(suffix));
        }
        toks
    } else {
        let mut toks = split_from(line, i + 1);
        toks.insert(0, tok);
        proof {
            let k = i - start;
            assert(suffix[k] == line@[i as int]);
            assert forall|j2: int| 0 <= j2 < k implies suffix[j2] != 44 by {
                assert(suffix[j2] == line@[j2 + start]);
            }
            lemma_split_at_comma(suffix, k as int);
            assert(suffix.take(k as int) =~= tok@);
            assert(suffix.skip(k + 1) =~= line@.skip(i + 1));
            assert(lines_view(toks@) =~= split_commas(suffix));
        }
        toks
    }
}

/// Parses a device-list line: every comma-separated token, whitespace
/// trimmed, must be a decimal device index.
pub fn parse_devices_line_bytes(line: &Vec<u8>) -> (r: Option<Vec<usize>>)
    ensures
        (match r {
            Some(v) => parse_devices_line(line@) == Some(v@),
            None => parse_devices_line(line@) is None,
        }),
{
    proof {
        assert(line@.skip(0) =~= line@);
    }
    let toks = split_from(line, 0);
    let ghost spec_toks = split_commas(line@);
    let mut vals: Vec<usize> = Vec::new();
    let mut k: usize = 0;
    while k < toks.len()
        invariant
            k <= toks.len(),
            lines_view(toks@) == spec_toks,
            spec_toks == split_commas(line@),
            vals@.len() == k,
            forall|i: int| 0 <= i < k ==> token_valid(#[trigger] spec_toks[i]),
            forall|i: int| 0 <= i < k ==> vals@[i] == token_value(#[trigger] spec_toks[i]),
        decreases toks.len() - k,
    {
        proof {
            assert(spec_toks[k as int] == toks@[k as int]@);
        }
        match parse_usize_token(&toks[k]) {
            Some(v) => {
                vals.push(v);
            },
            None => {
                proof {
                    assert(!token_valid(spec_toks[k as int]));
                }
                return None;
            },
        }
        k = k + 1;
    }
    proof {
        assert(vals@ =~= Seq::new(spec_toks.len(), |i: int| token_value(spec_toks[i])));
    }
    Some(vals)
}

/// The tool's phrase for a connected device pair.
pub open spec fn connected_phrase() -> Seq<u8> {
    seq![105u8, 115u8, 32u8, 99u8, 111u8, 110u8, 110u8, 101u8, 99u8, 116u8, 101u8, 100u8]
}

/// The tool's phrase for a pair sharing one interconnect switch.
pub open spec fn switch_phrase() -> Seq<u8> {
    seq![
        97u8, 32u8, 115u8, 105u8, 110u8, 103u8, 108u8, 101u8, 32u8, 80u8, 67u8, 73u8, 101u8,
        32u8, 115u8, 119u8, 105u8, 116u8, 99u8, 104u8,
    ]
}

fn connected_phrase_bytes() -> (v: Vec<u8>)
    ensures
        v@ == connected_phrase(),
{
    let mut v: Vec<u8> = Vec::new();
    v.push(105);
    v.push(115);
    v.push(32);
    v.push(99);
    v.push(111);
    v.push(110);
    v.push(110);
    v.push(101);
    v.push(99);
    v.push(116);
    v.push(101);
    v.push(100);
    proof {
        assert(v@ =~= connected_phrase());
    }
    v
}

fn switch_phrase_bytes() -> (v: Vec<u8>)
    ensures
        v@ == switch_phrase(),
{
    let mut v: Vec<u8> = Vec::new();
    v.push(97);
    v.push(32);
    v.push(115);
    v.push(105);
    v.push(110);
    v.push(103);
    v.push(108);
    v.push(101);
    v.push(32);
    v.push(80);
    v.push(67);
    v.push(73);
    v.push(101);
    v.push(32);
    v.push(115);
    v.push(119);
    v.push(105);
    v.push(116);
    v.push(99);
    v.push(104);
    proof {
        assert(v@ =~= switch_phrase());
    }
    v
}

/// A pairwise-topology report line claims connectivity when it holds both
/// the "connected" phrase and the "single switch" phrase.
pub open spec fn spec_pair_connected(line: Seq<u8>) -> bool {
    contains_seq(line, connected_phrase()) && contains_seq(line, switch_phrase())
}

/// Decides whether a pairwise-topology report line claims that the two
/// probed devices are connected through a single interconnect switch.
pub fn pair_line_connected(line: &Vec<u8>) -> (r: bool)
    ensures
        r == spec_pair_connected(line@),
{
    let connected = connected_phrase_bytes();
    let switch = switch_phrase_bytes();
    contains_pattern(line, &connected) && contains_pattern(line, &switch)
}

} // verus!
