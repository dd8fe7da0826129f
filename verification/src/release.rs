//! The text processing behind cutting a release: reading the workspace
//! version out of a manifest, bumping it, and opening a new section in the
//! changelog. Running git and cargo, and reading and writing the files, is the
//! caller's part.
use vstd::prelude::*;

use crate::numbers::{decimal, decimal_chars, parse_u32, read_u32};
use crate::text::{
    chars_equal, chars_of, has_substring, matches_at, occurs_at, push_all, starts_with, string_of,
};

verus! {

/// Whether `c` has the Unicode White_Space property, which is what
/// `char::is_whitespace` tests: tab through carriage return, space, next line,
/// no-break space, ogham space mark, the spaces U+2000 to U+200A, the line and
/// paragraph separators, narrow no-break space, medium mathematical space and
/// ideographic space.
pub open spec fn whitespace(c: char) -> bool {
    let u = c as u32;
    ||| 0x09 <= u <= 0x0D
    ||| u == 0x20
    ||| u == 0x85
    ||| u == 0xA0
    ||| u == 0x1680
    ||| 0x2000 <= u <= 0x200A
    ||| u == 0x2028
    ||| u == 0x2029
    ||| u == 0x202F
    ||| u == 0x205F
    ||| u == 0x3000
}

/// Whether `c` is whitespace, as `char::is_whitespace` decides it.
pub fn is_whitespace(c: char) -> (r: bool)
    ensures
        r == whitespace(c),
{
    let u = c as u32;
    (0x09 <= u && u <= 0x0D) || u == 0x20 || u == 0x85 || u == 0xA0 || u == 0x1680 || (0x2000
        <= u && u <= 0x200A) || u == 0x2028 || u == 0x2029 || u == 0x202F || u == 0x205F || u
        == 0x3000
}

/// `s` without a final carriage return.
pub open spec fn strip_cr(s: Seq<char>) -> Seq<char> {
    if s.len() > 0 && s.last() == '\r' {
        s.drop_last()
    } else {
        s
    }
}

/// The lines finished so far, and the line in progress, after reading `text`.
pub open spec fn lines_acc(text: Seq<char>) -> (Seq<Seq<char>>, Seq<char>)
    decreases text.len(),
{
    if text.len() == 0 {
        (seq![], seq![])
    } else {
        let (done, current) = lines_acc(text.drop_last());
        if text.last() == '\n' {
            (done.push(strip_cr(current)), seq![])
        } else {
            (done, current.push(text.last()))
        }
    }
}

/// The lines of `text`, as `str::lines` gives them: split at each `\n`, a
/// `\r` just before it dropped, and no empty line after a final `\n`.
pub open spec fn lines(text: Seq<char>) -> Seq<Seq<char>> {
    let (done, current) = lines_acc(text);
    if current.len() > 0 {
        done.push(current)
    } else {
        done
    }
}

/// The views of a list of character vectors.
pub open spec fn char_rows(rows: Seq<Vec<char>>) -> Seq<Seq<char>> {
    rows.map_values(|r: Vec<char>| r@)
}

/// The characters without a final carriage return.
fn without_cr(mut s: Vec<char>) -> (r: Vec<char>)
    ensures
        r@ == strip_cr(s@),
{
    let n = s.len();
    if n > 0 && s[n - 1] == '\r' {
        s.pop();
    }
    s
}

/// The lines of `text`, as `str::lines` gives them.
pub fn split_lines(text: &Vec<char>) -> (r: Vec<Vec<char>>)
    ensures
        char_rows(r@) == lines(text@),
{
    let mut done: Vec<Vec<char>> = Vec::new();
    let mut current: Vec<char> = Vec::new();
    assert(text@.take(0) =~= Seq::<char>::empty());
    for k in 0..text.len()
        invariant
            (char_rows(done@), current@) == lines_acc(text@.take(k as int)),
    {
        proof {
            assert(text@.take(k + 1).drop_last() =~= text@.take(k as int));
            assert(text@.take(k + 1).last() == text@[k as int]);
        }
        let c = text[k];
        if c == '\n' {
            let finished = without_cr(current);
            done.push(finished);
            current = Vec::new();
            assert(char_rows(done@) =~= lines_acc(text@.take(k + 1)).0);
            assert(current@ =~= lines_acc(text@.take(k + 1)).1);
        } else {
            current.push(c);
            assert(char_rows(done@) =~= lines_acc(text@.take(k + 1)).0);
        }
    }
    assert(text@.take(text@.len() as int) =~= text@);
    if current.len() > 0 {
        done.push(current);
        assert(char_rows(done@) =~= lines(text@));
    }
    done
}

/// `s` without leading whitespace.
pub open spec fn trim_start(s: Seq<char>) -> Seq<char>
    decreases s.len(),
{
    if s.len() > 0 && whitespace(s[0]) {
        trim_start(s.drop_first())
    } else {
        s
    }
}

/// `s` without trailing whitespace.
pub open spec fn trim_end(s: Seq<char>) -> Seq<char>
    decreases s.len(),
{
    if s.len() > 0 && whitespace(s.last()) {
        trim_end(s.drop_last())
    } else {
        s
    }
}

/// `s` without leading or trailing whitespace, as `str::trim` gives it.
pub open spec fn trim(s: Seq<char>) -> Seq<char> {
    trim_end(trim_start(s))
}

/// Where the trimmed text lies in `s`.
fn trim_bounds(s: &Vec<char>) -> (r: (usize, usize))
    ensures
        r.0 <= r.1 <= s@.len(),
        s@.subrange(r.0 as int, r.1 as int) == trim(s@),
{
    let n = s.len();
    let mut a: usize = 0;
    assert(s@.skip(0) =~= s@);
    while a < n && is_whitespace(s[a])
        invariant
            a <= n == s@.len(),
            trim_start(s@) == trim_start(s@.skip(a as int)),
        decreases n - a,
    {
        assert(s@.skip(a as int).drop_first() =~= s@.skip(a + 1));
        a = a + 1;
    }
    assert(trim_start(s@.skip(a as int)) == s@.skip(a as int));
    let ghost t = s@.skip(a as int);
    let mut b: usize = n;
    assert(t.take(t.len() as int) =~= t);
    while b > a && is_whitespace(s[b - 1])
        invariant
            a <= b <= n == s@.len(),
            t == s@.skip(a as int),
            trim_end(t) == trim_end(t.take(b - a)),
        decreases b,
    {
        assert(t.take(b - a).drop_last() =~= t.take(b - a - 1));
        assert(t.take(b - a).last() == s@[b - 1]);
        b = b - 1;
    }
    assert(trim_end(t.take(b - a)) == t.take(b - a));
    assert(s@.subrange(a as int, b as int) =~= t.take(b - a));
    (a, b)
}

/// The pieces finished so far, and the piece in progress, after reading `s`
/// split at `sep`.
pub open spec fn split_acc(s: Seq<char>, sep: char) -> (Seq<Seq<char>>, Seq<char>)
    decreases s.len(),
{
    if s.len() == 0 {
        (seq![], seq![])
    } else {
        let (done, current) = split_acc(s.drop_last(), sep);
        if s.last() == sep {
            (done.push(current), seq![])
        } else {
            (done, current.push(s.last()))
        }
    }
}

/// The pieces of `s` between the occurrences of `sep`, as `str::split` gives
/// them: one more than there are separators.
pub open spec fn split_on(s: Seq<char>, sep: char) -> Seq<Seq<char>> {
    split_acc(s, sep).0.push(split_acc(s, sep).1)
}

/// The pieces of `s` between the occurrences of `sep`.
fn split_chars(s: &Vec<char>, sep: char) -> (r: Vec<Vec<char>>)
    ensures
        char_rows(r@) == split_on(s@, sep),
{
    let mut done: Vec<Vec<char>> = Vec::new();
    let mut current: Vec<char> = Vec::new();
    assert(s@.take(0) =~= Seq::<char>::empty());
    for k in 0..s.len()
        invariant
            (char_rows(done@), current@) == split_acc(s@.take(k as int), sep),
    {
        proof {
            assert(s@.take(k + 1).drop_last() =~= s@.take(k as int));
            assert(s@.take(k + 1).last() == s@[k as int]);
        }
        let c = s[k];
        if c == sep {
            done.push(current);
            current = Vec::new();
            assert(char_rows(done@) =~= split_acc(s@.take(k + 1), sep).0);
            assert(current@ =~= split_acc(s@.take(k + 1), sep).1);
        } else {
            current.push(c);
            assert(char_rows(done@) =~= split_acc(s@.take(k + 1), sep).0);
        }
    }
    assert(s@.take(s@.len() as int) =~= s@);
    done.push(current);
    assert(char_rows(done@) =~= split_on(s@, sep));
    done
}

/// Which part of a version `major.minor.patch` a release bumps.
#[derive(Debug, Clone, Copy, PartialEq, Eq)]
pub enum BumpKind {
    /// `x.y.z` becomes `x+1.0.0`.
    Major,
    /// `x.y.z` becomes `x.y+1.0`.
    Minor,
    /// `x.y.z` becomes `x.y.z+1`.
    Patch,
}

/// What reading `v` as a version gives: it is split at `.`, and its first
/// three pieces read as `u32` numbers; pieces after the third are ignored.
pub open spec fn parse_version(v: Seq<char>) -> Option<(u32, u32, u32)> {
    let parts = split_on(v, '.');
    if parts.len() >= 3 {
        match (parse_u32(parts[0]), parse_u32(parts[1]), parse_u32(parts[2])) {
            (Some(a), Some(b), Some(c)) => Some((a, b, c)),
            _ => None,
        }
    } else {
        None
    }
}

/// The version after a bump of `kind`, unless the bumped number overflows.
pub open spec fn bumped(kind: BumpKind, v: (u32, u32, u32)) -> Option<(u32, u32, u32)> {
    match kind {
        BumpKind::Major => if v.0 < u32::MAX {
            Some(((v.0 + 1) as u32, 0u32, 0u32))
        } else {
            None
        },
        BumpKind::Minor => if v.1 < u32::MAX {
            Some((v.0, (v.1 + 1) as u32, 0u32))
        } else {
            None
        },
        BumpKind::Patch => if v.2 < u32::MAX {
            Some((v.0, v.1, (v.2 + 1) as u32))
        } else {
            None
        },
    }
}

/// Version `v` comes before version `w`: by major, then minor, then patch.
pub open spec fn version_lt(v: (u32, u32, u32), w: (u32, u32, u32)) -> bool {
    ||| v.0 < w.0
    ||| v.0 == w.0 && v.1 < w.1
    ||| v.0 == w.0 && v.1 == w.1 && v.2 < w.2
}

/// What each bump does to `major.minor.patch`: a major bump gives
/// `major+1.0.0`, a minor bump `major.minor+1.0`, a patch bump
/// `major.minor.patch+1`; only a number that would overflow stops it. The
/// bumped version always comes after the old one.
pub proof fn law_bump_parts(kind: BumpKind, v: (u32, u32, u32))
    ensures
        kind == BumpKind::Major ==> (v.0 < u32::MAX <==> bumped(kind, v) is Some),
        kind == BumpKind::Minor ==> (v.1 < u32::MAX <==> bumped(kind, v) is Some),
        kind == BumpKind::Patch ==> (v.2 < u32::MAX <==> bumped(kind, v) is Some),
        bumped(kind, v) matches Some(w) ==> version_lt(v, w) && match kind {
            BumpKind::Major => w.0 == v.0 + 1 && w.1 == 0 && w.2 == 0,
            BumpKind::Minor => w.0 == v.0 && w.1 == v.1 + 1 && w.2 == 0,
            BumpKind::Patch => w.0 == v.0 && w.1 == v.1 && w.2 == v.2 + 1,
        },
{
}

/// A version written `major.minor.patch`.
pub open spec fn version_text(v: (u32, u32, u32)) -> Seq<char> {
    decimal(v.0 as nat) + seq!['.'] + decimal(v.1 as nat) + seq!['.'] + decimal(v.2 as nat)
}

/// Splitting text that ends in a run without the separator puts that run at
/// the end of the last piece.
proof fn lemma_split_no_sep(p: Seq<char>, q: Seq<char>, sep: char)
    requires
        forall|i: int| 0 <= i < q.len() ==> q[i] != sep,
    ensures
        split_acc(p + q, sep) == (split_acc(p, sep).0, split_acc(p, sep).1 + q),
    decreases q.len(),
{
    if q.len() == 0 {
        assert(p + q =~= p);
        assert(split_acc(p, sep).1 + q =~= split_acc(p, sep).1);
    } else {
        let qd = q.drop_last();
        assert((p + q).drop_last() =~= p + qd);
        assert((p + q).last() == q.last());
        lemma_split_no_sep(p, qd, sep);
        assert(split_acc(p, sep).1 + qd.push(q.last()) =~= split_acc(p, sep).1 + q);
        assert(qd.push(q.last()) =~= q);
    }
}

/// A number's decimal digits read back as the number.
proof fn lemma_parse_decimal(n: u32)
    ensures
        parse_u32(decimal(n as nat)) == Some(n),
        forall|i: int| 0 <= i < decimal(n as nat).len() ==> decimal(n as nat)[i] != '.',
{
    let d = decimal(n as nat);
    crate::numbers::lemma_decimal_reads_back(n as nat);
    assert(crate::numbers::is_digit(d[0]));
    assert(crate::numbers::unsigned_digits(d) == d);
    assert forall|i: int| 0 <= i < d.len() implies d[i] != '.' by {
        assert(crate::numbers::is_digit(d[i]));
    }
}

/// A version written out reads back as the same version.
pub proof fn law_version_text_reads_back(v: (u32, u32, u32))
    ensures
        parse_version(version_text(v)) == Some(v),
{
    let a = decimal(v.0 as nat);
    let b = decimal(v.1 as nat);
    let c = decimal(v.2 as nat);
    lemma_parse_decimal(v.0);
    lemma_parse_decimal(v.1);
    lemma_parse_decimal(v.2);
    let e = Seq::<char>::empty();
    let dot = seq!['.'];
    assert(split_acc(e, '.') == (Seq::<Seq<char>>::empty(), e));
    lemma_split_no_sep(e, a, '.');
    assert(e + a =~= a);
    assert(split_acc(e, '.').1 + a =~= a);
    let t1 = a + dot;
    assert(t1.drop_last() =~= a);
    assert(split_acc(t1, '.') == (seq![a], e));
    lemma_split_no_sep(t1, b, '.');
    assert(e + b =~= b);
    let t2 = t1 + b + dot;
    assert(t2.drop_last() =~= t1 + b);
    assert(split_acc(t2, '.').0 =~= seq![a, b]);
    assert(split_acc(t2, '.').1 =~= e);
    lemma_split_no_sep(t2, c, '.');
    assert(e + c =~= c);
    assert(version_text(v) =~= t2 + c);
    let parts = split_on(version_text(v), '.');
    assert(parts =~= seq![a, b, c]);
}

/// Reads a version the way the release tooling does.
fn read_version(v: &Vec<char>) -> (r: Option<(u32, u32, u32)>)
    ensures
        r == parse_version(v@),
{
    let parts = split_chars(v, '.');
    if parts.len() < 3 {
        return None;
    }
    proof {
        assert(char_rows(parts@)[0] == parts@[0]@);
        assert(char_rows(parts@)[1] == parts@[1]@);
        assert(char_rows(parts@)[2] == parts@[2]@);
        assert(parts@[0]@.subrange(0, parts@[0]@.len() as int) =~= parts@[0]@);
        assert(parts@[1]@.subrange(0, parts@[1]@.len() as int) =~= parts@[1]@);
        assert(parts@[2]@.subrange(0, parts@[2]@.len() as int) =~= parts@[2]@);
    }
    let a = read_u32(&parts[0], 0, parts[0].len());
    let b = read_u32(&parts[1], 0, parts[1].len());
    let c = read_u32(&parts[2], 0, parts[2].len());
    match (a, b, c) {
        (Some(a), Some(b), Some(c)) => Some((a, b, c)),
        _ => None,
    }
}

/// The version after a bump of `kind`.
fn bump(kind: BumpKind, v: (u32, u32, u32)) -> (r: Option<(u32, u32, u32)>)
    ensures
        r == bumped(kind, v),
{
    match kind {
        BumpKind::Major => if v.0 < u32::MAX {
            Some((v.0 + 1, 0, 0))
        } else {
            None
        },
        BumpKind::Minor => if v.1 < u32::MAX {
            Some((v.0, v.1 + 1, 0))
        } else {
            None
        },
        BumpKind::Patch => if v.2 < u32::MAX {
            Some((v.0, v.1, v.2 + 1))
        } else {
            None
        },
    }
}

/// A version written `major.minor.patch`.
fn write_version(v: (u32, u32, u32)) -> (r: Vec<char>)
    ensures
        r@ == version_text(v),
{
    let mut r = decimal_chars(v.0);
    r.push('.');
    let minor = decimal_chars(v.1);
    push_all(&mut r, &minor);
    r.push('.');
    let patch = decimal_chars(v.2);
    push_all(&mut r, &patch);
    r
}

impl BumpKind {
    /// Reads `major`, `minor` or `patch`.
    pub fn parse(text: &str) -> (r: Option<BumpKind>)
        ensures
            r == (if text@ == "major"@ {
                Some(BumpKind::Major)
            } else if text@ == "minor"@ {
                Some(BumpKind::Minor)
            } else if text@ == "patch"@ {
                Some(BumpKind::Patch)
            } else {
                None
            }),
    {
        let t = chars_of(text);
        if chars_equal(&t, &chars_of("major")) {
            Some(BumpKind::Major)
        } else if chars_equal(&t, &chars_of("minor")) {
            Some(BumpKind::Minor)
        } else if chars_equal(&t, &chars_of("patch")) {
            Some(BumpKind::Patch)
        } else {
            None
        }
    }
}

/// The index of the first `c` in `s`, or `-1` when there is none.
pub open spec fn first_index_of(s: Seq<char>, c: char) -> int
    decreases s.len(),
{
    if s.len() == 0 {
        -1
    } else if s[0] == c {
        0
    } else if first_index_of(s.drop_first(), c) < 0 {
        -1
    } else {
        first_index_of(s.drop_first(), c) + 1
    }
}

/// The index of the last `c` in `s`, or `-1` when there is none.
pub open spec fn last_index_of(s: Seq<char>, c: char) -> int
    decreases s.len(),
{
    if s.len() == 0 {
        -1
    } else if s.last() == c {
        s.len() - 1
    } else {
        last_index_of(s.drop_last(), c)
    }
}

/// What the first-index function means.
proof fn lemma_first_index(s: Seq<char>, c: char)
    ensures
        -1 <= first_index_of(s, c) < s.len(),
        first_index_of(s, c) == -1 ==> forall|j: int| 0 <= j < s.len() ==> s[j] != c,
        first_index_of(s, c) >= 0 ==> s[first_index_of(s, c)] == c && forall|j: int|
            0 <= j < first_index_of(s, c) ==> s[j] != c,
    decreases s.len(),
{
    if s.len() > 0 && s[0] != c {
        lemma_first_index(s.drop_first(), c);
        assert forall|j: int| 1 <= j < s.len() implies s[j] == s.drop_first()[j - 1] by {}
    }
}

/// What the last-index function means.
proof fn lemma_last_index(s: Seq<char>, c: char)
    ensures
        -1 <= last_index_of(s, c) < s.len(),
        last_index_of(s, c) == -1 ==> forall|j: int| 0 <= j < s.len() ==> s[j] != c,
        last_index_of(s, c) >= 0 ==> s[last_index_of(s, c)] == c && forall|j: int|
            last_index_of(s, c) < j < s.len() ==> s[j] != c,
    decreases s.len(),
{
    if s.len() > 0 && s.last() != c {
        lemma_last_index(s.drop_last(), c);
        assert forall|j: int| 0 <= j < s.len() - 1 implies s[j] == s.drop_last()[j] by {}
    }
}

/// The index of the first `c` in `s`.
fn find_first(s: &Vec<char>, c: char) -> (r: Option<usize>)
    ensures
        match r {
            None => first_index_of(s@, c) == -1,
            Some(i) => first_index_of(s@, c) == i && i < s@.len(),
        },
{
    proof {
        lemma_first_index(s@, c);
    }
    for i in 0..s.len()
        invariant
            forall|j: int| 0 <= j < i ==> s@[j] != c,
            -1 <= first_index_of(s@, c) < s@.len(),
            first_index_of(s@, c) == -1 ==> forall|j: int| 0 <= j < s@.len() ==> s@[j] != c,
            first_index_of(s@, c) >= 0 ==> s@[first_index_of(s@, c)] == c && forall|j: int|
                0 <= j < first_index_of(s@, c) ==> s@[j] != c,
    {
        if s[i] == c {
            return Some(i);
        }
    }
    None
}

/// The index of the last `c` in `s`.
fn find_last(s: &Vec<char>, c: char) -> (r: Option<usize>)
    ensures
        match r {
            None => last_index_of(s@, c) == -1,
            Some(i) => last_index_of(s@, c) == i && i < s@.len(),
        },
{
    proof {
        lemma_last_index(s@, c);
    }
    let mut i = s.len();
    while i > 0
        invariant
            i <= s@.len(),
            forall|j: int| i <= j < s@.len() ==> s@[j] != c,
            -1 <= last_index_of(s@, c) < s@.len(),
            last_index_of(s@, c) == -1 ==> forall|j: int| 0 <= j < s@.len() ==> s@[j] != c,
            last_index_of(s@, c) >= 0 ==> s@[last_index_of(s@, c)] == c && forall|j: int|
                last_index_of(s@, c) < j < s@.len() ==> s@[j] != c,
        decreases i,
    {
        if s[i - 1] == c {
            return Some(i - 1);
        }
        i = i - 1;
    }
    None
}

/// The section a line leaves the manifest in: a line that trims to
/// `[workspace.package]` opens the workspace package section, any other line
/// starting with `[` closes it, and other lines leave it as it was.
pub open spec fn section_after(in_section: bool, line: Seq<char>) -> bool {
    if trim(line) == "[workspace.package]"@ {
        true
    } else if line.len() > 0 && line[0] == '[' {
        false
    } else {
        in_section
    }
}

/// The line starts with `version = "`.
pub open spec fn is_version_line(line: Seq<char>) -> bool {
    line.len() >= "version = \""@.len() && line.take("version = \""@.len() as int) == "version = \""@
}

/// The text between the first and the last `"` of a line; `None` where the
/// release tooling cannot slice it out.
pub open spec fn version_in(line: Seq<char>) -> Option<Seq<char>> {
    let start = first_index_of(line, '"') + 1;
    let end = last_index_of(line, '"');
    if 0 < start <= end {
        Some(line.subrange(start, end))
    } else {
        None
    }
}

/// The text between the first and the last `"` of a line.
fn quoted_part(line: &Vec<char>) -> (r: Option<Vec<char>>)
    ensures
        match r {
            None => version_in(line@) is None,
            Some(v) => version_in(line@) == Some(v@),
        },
{
    let first = find_first(line, '"');
    let last = find_last(line, '"');
    match (first, last) {
        (Some(f), Some(l)) => {
            if f < l {
                let mut v: Vec<char> = Vec::new();
                let mut k = f + 1;
                while k < l
                    invariant
                        f + 1 <= k <= l < line@.len(),
                        v@ == line@.subrange(f + 1, k as int),
                    decreases l - k,
                {
                    v.push(line[k]);
                    k = k + 1;
                    assert(v@ =~= line@.subrange(f + 1, k as int));
                }
                Some(v)
            } else {
                None
            }
        },
        _ => None,
    }
}

/// The section a line leaves the manifest in.
fn next_section(in_section: bool, line: &Vec<char>, header: &Vec<char>) -> (r: bool)
    requires
        header@ == "[workspace.package]"@,
    ensures
        r == section_after(in_section, line@),
{
    let (a, b) = trim_bounds(line);
    let mut trimmed: Vec<char> = Vec::new();
    let mut k = a;
    while k < b
        invariant
            a <= k <= b <= line@.len(),
            trimmed@ == line@.subrange(a as int, k as int),
        decreases b - k,
    {
        trimmed.push(line[k]);
        k = k + 1;
        assert(trimmed@ =~= line@.subrange(a as int, k as int));
    }
    if chars_equal(&trimmed, header) {
        true
    } else if line.len() > 0 && line[0] == '[' {
        false
    } else {
        in_section
    }
}

/// What scanning a manifest for its workspace version has gathered so far.
pub struct ManifestScan {
    /// The scan is inside the `[workspace.package]` section.
    pub in_section: bool,
    /// The manifest as rewritten so far.
    pub content: Seq<char>,
    /// Each version line's old version and the version it was bumped to.
    pub changes: Seq<(Seq<char>, Seq<char>)>,
    /// A version line could not be read or bumped.
    pub failed: bool,
}

/// The scan before any line.
pub open spec fn scan_start() -> ManifestScan {
    ManifestScan { in_section: false, content: seq![], changes: seq![], failed: false }
}

/// What one line does to the scan. Every line is copied with a newline,
/// except a version line of the workspace package section, which is written
/// again with its version bumped; a version that cannot be read or bumped
/// fails the scan for good.
pub open spec fn manifest_step(scan: ManifestScan, line: Seq<char>, kind: BumpKind) -> ManifestScan {
    if scan.failed {
        scan
    } else {
        let inside = section_after(scan.in_section, line);
        if inside && is_version_line(line) {
            match version_in(line) {
                None => ManifestScan { failed: true, ..scan },
                Some(old) => match parse_version(old) {
                    None => ManifestScan { failed: true, ..scan },
                    Some(v) => match bumped(kind, v) {
                        None => ManifestScan { failed: true, ..scan },
                        Some(nv) => ManifestScan {
                            in_section: inside,
                            content: scan.content + "version = \""@ + version_text(nv) + "\"\n"@,
                            changes: scan.changes.push((old, version_text(nv))),
                            failed: false,
                        },
                    },
                },
            }
        } else {
            ManifestScan {
                in_section: inside,
                content: scan.content + line + seq!['\n'],
                changes: scan.changes,
                failed: false,
            }
        }
    }
}

/// The scan after the given lines.
pub open spec fn manifest_scan(ls: Seq<Seq<char>>, kind: BumpKind) -> ManifestScan
    decreases ls.len(),
{
    if ls.len() == 0 {
        scan_start()
    } else {
        manifest_step(manifest_scan(ls.drop_last(), kind), ls.last(), kind)
    }
}

/// Once failed, a scan stays failed.
proof fn lemma_scan_failure_stays(ls: Seq<Seq<char>>, i: int, kind: BumpKind)
    requires
        0 <= i <= ls.len(),
        manifest_scan(ls.take(i), kind).failed,
    ensures
        manifest_scan(ls, kind).failed,
    decreases ls.len() - i,
{
    if i < ls.len() {
        assert(ls.take(i + 1).drop_last() =~= ls.take(i));
        lemma_scan_failure_stays(ls, i + 1, kind);
    } else {
        assert(ls.take(i) =~= ls);
    }
}

/// Why a manifest could not give a version.
#[derive(Debug, Clone, Copy, PartialEq, Eq)]
pub enum ManifestError {
    /// No version line in the `[workspace.package]` section.
    NoVersion,
    /// A version line whose version cannot be read, or bumped without overflow.
    MalformedVersion,
}

/// One version line's change.
#[derive(Debug, Clone, PartialEq, Eq)]
pub struct VersionChange {
    /// The version before.
    pub from: String,
    /// The version after.
    pub to: String,
}

/// A manifest with its workspace version bumped.
#[derive(Debug, Clone, PartialEq, Eq)]
pub struct BumpedManifest {
    /// The rewritten manifest.
    pub content: String,
    /// The new version.
    pub version: String,
    /// Each version line's change, in order.
    pub changes: Vec<VersionChange>,
}

/// The views of a list of changes.
pub open spec fn changes_view(changes: Seq<VersionChange>) -> Seq<(Seq<char>, Seq<char>)> {
    changes.map_values(|c: VersionChange| (c.from@, c.to@))
}

/// Bumps the workspace version in a manifest: every version line of the
/// `[workspace.package]` section gets its version bumped, and every line
/// comes out ended by a newline. The new version is that of the last version
/// line.
pub fn bump_manifest(manifest: &str, kind: BumpKind) -> (r: Result<BumpedManifest, ManifestError>)
    ensures
        ({
            let scan = manifest_scan(lines(manifest@), kind);
            if scan.failed {
                r == Err::<BumpedManifest, ManifestError>(ManifestError::MalformedVersion)
            } else if scan.changes.len() == 0 {
                r == Err::<BumpedManifest, ManifestError>(ManifestError::NoVersion)
            } else {
                r matches Ok(b) && b.content@ == scan.content && b.version@ == scan.changes.last().1
                    && changes_view(b.changes@) == scan.changes
            }
        }),
{
    let text = chars_of(manifest);
    let rows = split_lines(&text);
    let ghost ls = lines(manifest@);
    let header = chars_of("[workspace.package]");
    let prefix = chars_of("version = \"");
    let mut in_section = false;
    let mut content: Vec<char> = Vec::new();
    let mut changes: Vec<VersionChange> = Vec::new();
    assert(ls.take(0) =~= Seq::<Seq<char>>::empty());
    assert(changes_view(changes@) =~= Seq::<(Seq<char>, Seq<char>)>::empty());
    for i in 0..rows.len()
        invariant
            ls == lines(manifest@),
            char_rows(rows@) == ls,
            header@ == "[workspace.package]"@,
            prefix@ == "version = \""@,
            manifest_scan(ls.take(i as int), kind) == (ManifestScan {
                in_section,
                content: content@,
                changes: changes_view(changes@),
                failed: false,
            }),
    {
        let line = &rows[i];
        proof {
            assert(ls.take(i + 1).drop_last() =~= ls.take(i as int));
            assert(ls.take(i + 1).last() == line@);
        }
        let inside = next_section(in_section, line, &header);
        if inside && starts_with(line, &prefix) {
            let old = match quoted_part(line) {
                Some(v) => v,
                None => {
                    proof {
                        lemma_scan_failure_stays(ls, i + 1, kind);
                    }
                    return Err(ManifestError::MalformedVersion);
                },
            };
            let parsed = match read_version(&old) {
                Some(v) => v,
                None => {
                    proof {
                        assert(version_in(line@) == Some(old@));
                        assert(manifest_scan(ls.take(i + 1), kind) == manifest_step(manifest_scan(ls.take(i as int), kind), line@, kind));
                        assert(manifest_scan(ls.take(i + 1), kind).failed);
                        lemma_scan_failure_stays(ls, i + 1, kind);
                    }
                    return Err(ManifestError::MalformedVersion);
                },
            };
            let next = match bump(kind, parsed) {
                Some(v) => v,
                None => {
                    proof {
                        assert(version_in(line@) == Some(old@));
                        assert(parse_version(old@) == Some(parsed));
                        assert(manifest_scan(ls.take(i + 1), kind) == manifest_step(manifest_scan(ls.take(i as int), kind), line@, kind));
                        assert(manifest_scan(ls.take(i + 1), kind).failed);
                        lemma_scan_failure_stays(ls, i + 1, kind);
                    }
                    return Err(ManifestError::MalformedVersion);
                },
            };
            let written = write_version(next);
            push_all(&mut content, &prefix);
            push_all(&mut content, &written);
            content.push('"');
            content.push('\n');
            let ghost before = changes@;
            changes.push(VersionChange { from: string_of(&old), to: string_of(&written) });
            proof {
                reveal_strlit("\"\n");
                assert(changes_view(changes@) =~= changes_view(before).push((old@, written@)));
                assert(content@ =~= manifest_scan(ls.take(i as int), kind).content + "version = \""@ + version_text(next) + "\"\n"@);
            }
        } else {
            push_all(&mut content, line);
            content.push('\n');
            assert(content@ =~= manifest_scan(ls.take(i as int), kind).content + line@ + seq!['\n']);
        }
        in_section = inside;
    }
    assert(ls.take(ls.len() as int) =~= ls);
    let count = changes.len();
    if count == 0 {
        return Err(ManifestError::NoVersion);
    }
    let version = string_of(&chars_of(changes[count - 1].to.as_str()));
    Ok(BumpedManifest { content: string_of(&content), version, changes })
}

/// What looking for the workspace version has found so far: `None` while
/// still looking, then what the first version line of the workspace package
/// section holds (itself `None` where it cannot be sliced out).
pub struct VersionSearch {
    /// The search is inside the `[workspace.package]` section.
    pub in_section: bool,
    /// What the first version line held, once one was seen.
    pub found: Option<Option<Seq<char>>>,
}

/// What one line does to the search; it stops at the first version line.
pub open spec fn search_step(search: VersionSearch, line: Seq<char>) -> VersionSearch {
    if search.found is Some {
        search
    } else {
        let inside = section_after(search.in_section, line);
        if inside && is_version_line(line) {
            VersionSearch { in_section: inside, found: Some(version_in(line)) }
        } else {
            VersionSearch { in_section: inside, found: None }
        }
    }
}

/// The search after the given lines.
pub open spec fn version_search(ls: Seq<Seq<char>>) -> VersionSearch
    decreases ls.len(),
{
    if ls.len() == 0 {
        VersionSearch { in_section: false, found: None }
    } else {
        search_step(version_search(ls.drop_last()), ls.last())
    }
}

/// Once the version is found, later lines change nothing.
proof fn lemma_search_found_stays(ls: Seq<Seq<char>>, i: int)
    requires
        0 <= i <= ls.len(),
        version_search(ls.take(i)).found is Some,
    ensures
        version_search(ls) == version_search(ls.take(i)),
    decreases ls.len() - i,
{
    if i < ls.len() {
        assert(ls.take(i + 1).drop_last() =~= ls.take(i));
        lemma_search_found_stays(ls, i + 1);
    } else {
        assert(ls.take(i) =~= ls);
    }
}

/// The workspace version of a manifest: what the first version line of the
/// `[workspace.package]` section holds between its first and last quotes.
pub fn workspace_version(manifest: &str) -> (r: Result<String, ManifestError>)
    ensures
        match version_search(lines(manifest@)).found {
            None => r == Err::<String, ManifestError>(ManifestError::NoVersion),
            Some(None) => r == Err::<String, ManifestError>(ManifestError::MalformedVersion),
            Some(Some(v)) => if v.len() == 0 {
                r == Err::<String, ManifestError>(ManifestError::NoVersion)
            } else {
                r matches Ok(s) && s@ == v
            },
        },
{
    let text = chars_of(manifest);
    let rows = split_lines(&text);
    let ghost ls = lines(manifest@);
    let header = chars_of("[workspace.package]");
    let prefix = chars_of("version = \"");
    let mut in_section = false;
    assert(ls.take(0) =~= Seq::<Seq<char>>::empty());
    for i in 0..rows.len()
        invariant
            ls == lines(manifest@),
            char_rows(rows@) == ls,
            header@ == "[workspace.package]"@,
            prefix@ == "version = \""@,
            version_search(ls.take(i as int)) == (VersionSearch { in_section, found: None }),
    {
        let line = &rows[i];
        proof {
            assert(ls.take(i + 1).drop_last() =~= ls.take(i as int));
            assert(ls.take(i + 1).last() == line@);
        }
        let inside = next_section(in_section, line, &header);
        if inside && starts_with(line, &prefix) {
            proof {
                lemma_search_found_stays(ls, i + 1);
            }
            return match quoted_part(line) {
                Some(v) => if v.len() == 0 {
                    Err(ManifestError::NoVersion)
                } else {
                    Ok(string_of(&v))
                },
                None => Err(ManifestError::MalformedVersion),
            };
        }
        in_section = inside;
    }
    assert(ls.take(ls.len() as int) =~= ls);
    Err(ManifestError::NoVersion)
}

/// `needle` first occurs in `hay` at `i`.
pub open spec fn first_occurrence(hay: Seq<char>, needle: Seq<char>, i: int) -> bool {
    &&& occurs_at(hay, needle, i)
    &&& forall|j: int| 0 <= j < i ==> !occurs_at(hay, needle, j)
}

/// The changelog header that opens a release's section under the new
/// unreleased one.
pub open spec fn release_header(version: Seq<char>, date: Seq<char>) -> Seq<char> {
    "## [Unreleased]\n\n## ["@ + version + "] - "@ + date
}

/// Opens a changelog section for `version`, released on `date`: the first
/// `## [Unreleased]` header is followed by a new, empty one and becomes the
/// release's header. `None` when the changelog has no such header.
pub fn release_changelog(changelog: &str, version: &str, date: &str) -> (r: Option<String>)
    ensures
        !has_substring(changelog@, "## [Unreleased]"@) ==> r is None,
        forall|i: int|
            first_occurrence(changelog@, "## [Unreleased]"@, i) ==> (r matches Some(s) && s@
                == changelog@.take(i) + release_header(version@, date@) + changelog@.skip(
                i + "## [Unreleased]"@.len(),
            )),
{
    let c = chars_of(changelog);
    let h = chars_of("## [Unreleased]");
    let n = c.len();
    let m = h.len();
    proof {
        reveal_strlit("## [Unreleased]");
    }
    let mut at: usize = 0;
    while at < n && m <= n - at
        invariant
            at <= n,
            m == 15,
            c@ == changelog@,
            h@ == "## [Unreleased]"@,
            n == c@.len(),
            m == h@.len(),
            forall|j: int| 0 <= j < at ==> !occurs_at(c@, h@, j),
        decreases n - at,
    {
        if matches_at(&c, &h, at) {
            let mut out: Vec<char> = Vec::new();
            let mut k: usize = 0;
            while k < at
                invariant
                    k <= at <= n == c@.len(),
                    out@ == c@.take(k as int),
                decreases at - k,
            {
                out.push(c[k]);
                k = k + 1;
                assert(out@ =~= c@.take(k as int));
            }
            let header = chars_of("## [Unreleased]\n\n## [");
            push_all(&mut out, &header);
            push_all(&mut out, &chars_of(version));
            push_all(&mut out, &chars_of("] - "));
            push_all(&mut out, &chars_of(date));
            let ghost head = out@;
            let mut k = at + m;
            while k < n
                invariant
                    at + m <= k <= n == c@.len(),
                    out@ == head + c@.subrange(at + m, k as int),
                decreases n - k,
            {
                out.push(c[k]);
                k = k + 1;
                assert(out@ =~= head + c@.subrange(at + m, k as int));
            }
            proof {
                assert(c@.subrange(at + m, n as int) =~= c@.skip(at + m));
                assert forall|i: int| first_occurrence(changelog@, "## [Unreleased]"@, i) implies i == at by {
                    if i > at {
                        assert(!occurs_at(changelog@, "## [Unreleased]"@, at as int));
                    }
                }
            }
            return Some(string_of(&out));
        }
        at = at + 1;
    }
    proof {
        assert forall|i: int| !occurs_at(changelog@, "## [Unreleased]"@, i) by {
            if 0 <= i < at {
            }
        }
    }
    None
}

} // verus!
