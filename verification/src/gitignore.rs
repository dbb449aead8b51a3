//! Ignore-file patterns: which lines of an ignore file are patterns, what a
//! pattern says, and whether a set of patterns ignores a path.

use vstd::prelude::*;
use crate::text::{
    append_chars, contains, contains_seq, drop_slashes, drop_slashes_to, range_eq, skip_slashes,
    skip_slashes_from, slice_of, to_chars,
};

verus! {

/// Whether `c` is white space (the Unicode property `White_Space`).
pub open spec fn is_space(c: char) -> bool {
    let u = c as u32;
    ||| 0x09 <= u <= 0x0D
    ||| u == 0x20
    ||| u == 0x85
    ||| u == 0xA0
    ||| u == 0x1680
    ||| 0x2000 <= u <= 0x200A
    ||| u == 0x2028
    ||| u == 0x2029
    ||| u == 0x202F
    ||| u == 0x205F
    ||| u == 0x3000
}

/// The first position of `line` at or after `i` that holds no white space.
pub open spec fn skip_space(line: Seq<char>, i: int) -> int
    decreases line.len() - i,
{
    if 0 <= i < line.len() && is_space(line[i]) {
        skip_space(line, i + 1)
    } else {
        i
    }
}

/// Whether a line of an ignore file is a pattern: it holds something besides
/// white space, and the first such character is not `#`.
pub open spec fn is_pattern_line(line: Seq<char>) -> bool {
    let i = skip_space(line, 0);
    i < line.len() && line[i] != '#'
}

/// What an ignore pattern says.
pub ghost struct PatternView {
    /// The pattern began with `!`: a path it matches is not ignored.
    pub negated: bool,
    /// After the `!`, the pattern began with `/`: it is compared with the
    /// path relative to the base directory.
    pub anchored: bool,
    /// The pattern ended with `/`: it speaks of directories.
    pub directory_only: bool,
    /// The pattern without the `!`, and without the `/` at both ends.
    pub body: Seq<char>,
}

/// The pattern that the line `raw` stands for.
pub open spec fn parse_spec(raw: Seq<char>) -> PatternView {
    let negated = raw.len() > 0 && raw[0] == '!';
    let start: int = if negated { 1 } else { 0 };
    let lo = skip_slashes(raw, start);
    let hi = drop_slashes(raw, lo, raw.len() as int);
    PatternView {
        negated,
        anchored: lo > start,
        directory_only: lo < raw.len() && raw.last() == '/',
        body: raw.subrange(lo, hi),
    }
}

/// Whether the wildcard pattern `p`, from position `i`, matches all of the
/// text `t` from position `j`: `*` stands for any run of characters, also
/// none; `?` for any one character; any other character for itself.
pub open spec fn wild_at(p: Seq<char>, t: Seq<char>, i: int, j: int) -> bool
    decreases p.len() - i, t.len() - j,
{
    if i < 0 || j < 0 {
        false
    } else if i >= p.len() {
        j >= t.len()
    } else if p[i] == '*' {
        wild_at(p, t, i + 1, j) || (j < t.len() && wild_at(p, t, i, j + 1))
    } else {
        j < t.len() && (p[i] == '?' || p[i] == t[j]) && wild_at(p, t, i + 1, j + 1)
    }
}

/// Whether the wildcard pattern `p` matches the whole of `t`.
pub open spec fn wildcard_match(p: Seq<char>, t: Seq<char>) -> bool {
    wild_at(p, t, 0, 0)
}

/// `/` followed by `body`.
pub open spec fn slash_before(body: Seq<char>) -> Seq<char> {
    seq!['/'] + body
}

/// Whether the pattern `p` matches an entry, whatever its `negated` says.
pub open spec fn applies(
    p: PatternView,
    filename: Seq<char>,
    relative: Seq<char>,
    is_dir: bool,
) -> bool {
    if p.anchored {
        relative == p.body
    } else if p.directory_only && is_dir {
        filename == p.body || contains_seq(relative, slash_before(p.body).push('/'))
    } else {
        wildcard_match(p.body, filename) || contains_seq(relative, slash_before(p.body))
    }
}

/// The verdict of the first pattern from position `i` on that matches the
/// entry: ignored unless that pattern is negated. Not ignored where none
/// matches.
pub open spec fn verdict_from(
    pats: Seq<PatternView>,
    i: int,
    filename: Seq<char>,
    relative: Seq<char>,
    is_dir: bool,
) -> bool
    decreases pats.len() - i,
{
    if i < 0 || i >= pats.len() {
        false
    } else if applies(pats[i], filename, relative, is_dir) {
        !pats[i].negated
    } else {
        verdict_from(pats, i + 1, filename, relative, is_dir)
    }
}

/// Whether the patterns `pats` ignore the entry.
pub open spec fn ignores(
    pats: Seq<PatternView>,
    filename: Seq<char>,
    relative: Seq<char>,
    is_dir: bool,
) -> bool {
    verdict_from(pats, 0, filename, relative, is_dir)
}

/// Where the last component of `path[..k]` begins.
pub open spec fn name_start(path: Seq<char>, k: int) -> int
    decreases k,
{
    if 0 < k <= path.len() && path[k - 1] != '/' {
        name_start(path, k - 1)
    } else {
        k
    }
}

/// The last component of `path`: what follows its last `/`.
pub open spec fn file_name_of(path: Seq<char>) -> Seq<char> {
    path.subrange(name_start(path, path.len() as int), path.len() as int)
}

/// `path` lies at or below `base`: it begins with `base`, and what follows
/// begins a new component.
pub open spec fn is_below(path: Seq<char>, base: Seq<char>) -> bool {
    &&& base.len() <= path.len()
    &&& path.subrange(0, base.len() as int) == base
    &&& (base.len() == 0 || base.len() == path.len() || base.last() == '/' || path[base.len() as int]
        == '/')
}

/// `path` as seen from `base`: what follows `base` in it, without the `/` in
/// front. Empty where `path` does not lie below `base`.
pub open spec fn relative_to(path: Seq<char>, base: Seq<char>) -> Seq<char> {
    if is_below(path, base) {
        path.subrange(skip_slashes(path, base.len() as int), path.len() as int)
    } else {
        Seq::empty()
    }
}

/// The patterns among the first `n` of `lines`, in order.
pub open spec fn loaded_upto(lines: Seq<String>, n: int) -> Seq<PatternView>
    decreases n,
{
    if n <= 0 || n > lines.len() {
        Seq::empty()
    } else if is_pattern_line(lines[n - 1]@) {
        loaded_upto(lines, n - 1).push(parse_spec(lines[n - 1]@))
    } else {
        loaded_upto(lines, n - 1)
    }
}

/// The patterns that the lines of an ignore file hold, in order.
pub open spec fn loaded(lines: Seq<String>) -> Seq<PatternView> {
    loaded_upto(lines, lines.len() as int)
}

/// An ignore pattern, taken apart.
pub struct IgnorePattern {
    pub negated: bool,
    pub anchored: bool,
    pub directory_only: bool,
    pub body: Vec<char>,
}

impl View for IgnorePattern {
    type V = PatternView;

    open spec fn view(&self) -> PatternView {
        PatternView {
            negated: self.negated,
            anchored: self.anchored,
            directory_only: self.directory_only,
            body: self.body@,
        }
    }
}

fn space_char(c: char) -> (r: bool)
    ensures
        r == is_space(c),
{
    let u: u32 = c as u32;
    (0x09 <= u && u <= 0x0D) || u == 0x20 || u == 0x85 || u == 0xA0 || u == 0x1680 || (0x2000 <= u
        && u <= 0x200A) || u == 0x2028 || u == 0x2029 || u == 0x202F || u == 0x205F || u == 0x3000
}

/// Whether a line of an ignore file is a pattern.
pub fn pattern_line(line: &Vec<char>) -> (r: bool)
    ensures
        r == is_pattern_line(line@),
{
    let mut i: usize = 0;
    while i < line.len() && space_char(line[i])
        invariant
            i <= line@.len(),
            skip_space(line@, i as int) == skip_space(line@, 0),
        decreases line@.len() - i,
    {
        i += 1;
    }
    i < line.len() && line[i] != '#'
}

impl IgnorePattern {
    /// Takes the pattern `raw` apart.
    pub fn parse(raw: &Vec<char>) -> (p: IgnorePattern)
        ensures
            p@ == parse_spec(raw@),
    {
        let n: usize = raw.len();
        let negated: bool = n > 0 && raw[0] == '!';
        let start: usize = if negated { 1 } else { 0 };
        let lo: usize = skip_slashes_from(raw, start);
        let hi: usize = drop_slashes_to(raw, lo, n);
        let directory_only: bool = lo < n && raw[n - 1] == '/';
        let body: Vec<char> = slice_of(raw, lo, hi);
        IgnorePattern { negated, anchored: lo > start, directory_only, body }
    }

    /// Whether the pattern matches an entry with the given file name and
    /// relative path, whatever `negated` says.
    pub fn applies_to(&self, filename: &Vec<char>, relative: &Vec<char>, is_dir: bool) -> (r: bool)
        ensures
            r == applies(self@, filename@, relative@, is_dir),
    {
        if self.anchored {
            let r: bool = range_eq(relative, 0, relative.len(), &self.body);
            assert(relative@.subrange(0, relative@.len() as int) == relative@);
            r
        } else {
            let mut needle: Vec<char> = Vec::new();
            needle.push('/');
            append_chars(&mut needle, &self.body);
            assert(needle@ == slash_before(self.body@));
            if self.directory_only && is_dir {
                if range_eq(filename, 0, filename.len(), &self.body) {
                    assert(filename@.subrange(0, filename@.len() as int) == filename@);
                    return true;
                }
                assert(filename@.subrange(0, filename@.len() as int) == filename@);
                needle.push('/');
                contains(relative, &needle)
            } else {
                wildcard(&self.body, filename) || contains(relative, &needle)
            }
        }
    }
}

/// Whether the wildcard pattern `p` matches the whole of `t`. Works row by
/// row from the end of the pattern, in time `p.len() * t.len()`.
pub fn wildcard(p: &Vec<char>, t: &Vec<char>) -> (r: bool)
    ensures
        r == wildcard_match(p@, t@),
{
    let pl: usize = p.len();
    let tl: usize = t.len();
    let mut next: Vec<bool> = Vec::new();
    let mut k: usize = 0;
    while k < tl
        invariant
            k <= tl,
            tl == t@.len(),
            pl == p@.len(),
            next@.len() == k,
            forall|j: int| 0 <= j < k ==> next@[j] == wild_at(p@, t@, pl as int, j),
        decreases tl - k,
    {
        next.push(false);
        k += 1;
    }
    let mut next_end: bool = true;
    let mut i: usize = pl;
    while i > 0
        invariant
            i <= pl,
            tl == t@.len(),
            pl == p@.len(),
            next@.len() == tl,
            forall|j: int| 0 <= j < tl ==> next@[j] == wild_at(p@, t@, i as int, j),
            next_end == wild_at(p@, t@, i as int, tl as int),
        decreases i,
    {
        let c: char = p[i - 1];
        let star: bool = c == '*';
        let end: bool = star && next_end;
        let mut row: Vec<bool> = next.clone();
        let mut j: usize = tl;
        while j > 0
            invariant
                0 < i <= pl,
                j <= tl,
                tl == t@.len(),
                pl == p@.len(),
                c == p@[i - 1],
                star == (c == '*'),
                next@.len() == tl,
                row@.len() == tl,
                forall|x: int| 0 <= x < tl ==> next@[x] == wild_at(p@, t@, i as int, x),
                next_end == wild_at(p@, t@, i as int, tl as int),
                end == wild_at(p@, t@, i - 1, tl as int),
                forall|x: int| j <= x < tl ==> row@[x] == wild_at(p@, t@, i - 1, x),
            decreases j,
        {
            let after: bool = if j == tl { end } else { row[j] };
            let diag: bool = if j == tl { next_end } else { next[j] };
            let v: bool = if star {
                next[j - 1] || after
            } else {
                (c == '?' || c == t[j - 1]) && diag
            };
            row.set(j - 1, v);
            j -= 1;
        }
        next = row;
        next_end = end;
        i -= 1;
    }
    if tl == 0 {
        next_end
    } else {
        next[0]
    }
}

/// The last component of `path`.
pub fn file_name(path: &Vec<char>) -> (r: Vec<char>)
    ensures
        r@ == file_name_of(path@),
{
    let n: usize = path.len();
    let mut k: usize = n;
    while k > 0 && path[k - 1] != '/'
        invariant
            k <= n,
            n == path@.len(),
            name_start(path@, k as int) == name_start(path@, n as int),
        decreases k,
    {
        k -= 1;
    }
    slice_of(path, k, n)
}

/// `path` as seen from `base`.
pub fn relative_path(path: &Vec<char>, base: &Vec<char>) -> (r: Vec<char>)
    ensures
        r@ == relative_to(path@, base@),
{
    let n: usize = path.len();
    let b: usize = base.len();
    if b > n || !range_eq(path, 0, b, base) {
        return Vec::new();
    }
    if b == 0 || b == n || base[b - 1] == '/' || path[b] == '/' {
        let lo: usize = skip_slashes_from(path, b);
        slice_of(path, lo, n)
    } else {
        Vec::new()
    }
}

/// The ignore patterns in force for one base directory.
pub struct GitignoreManager {
    patterns: Vec<IgnorePattern>,
}

impl GitignoreManager {
    /// The patterns held, in the order of their lines.
    pub closed spec fn patterns(&self) -> Seq<PatternView> {
        Seq::new(self.patterns@.len(), |i: int| self.patterns@[i]@)
    }

    /// A manager without patterns: it ignores nothing.
    pub fn new() -> (m: Self)
        ensures
            m.patterns() == Seq::<PatternView>::empty(),
    {
        let m = Self { patterns: Vec::new() };
        assert(m.patterns() =~= Seq::<PatternView>::empty());
        m
    }

    /// Replaces the patterns held by those among `lines`, the lines of the
    /// base directory's ignore file: blank lines and comments are left out.
    /// A missing or unreadable file has no lines.
    pub fn load_patterns(&mut self, lines: &Vec<String>)
        ensures
            final(self).patterns() == loaded(lines@),
    {
        let mut pats: Vec<IgnorePattern> = Vec::new();
        let mut n: usize = 0;
        while n < lines.len()
            invariant
                n <= lines@.len(),
                pats@.len() == loaded_upto(lines@, n as int).len(),
                forall|i: int| 0 <= i < pats@.len() ==> pats@[i]@ == loaded_upto(lines@, n as int)[i],
            decreases lines@.len() - n,
        {
            let raw: Vec<char> = to_chars(lines[n].as_str());
            if pattern_line(&raw) {
                pats.push(IgnorePattern::parse(&raw));
            }
            n += 1;
        }
        self.patterns = pats;
        assert(self.patterns() =~= loaded(lines@));
    }

    /// Whether the patterns held ignore the entry at `path`, seen from
    /// `base_dir`. `is_dir` says whether the entry is a directory.
    pub fn matches(&self, path: &str, base_dir: &str, is_dir: bool) -> (r: bool)
        ensures
            r == ignores(
                self.patterns(),
                file_name_of(path@),
                relative_to(path@, base_dir@),
                is_dir,
            ),
    {
        if self.patterns.len() == 0 {
            return false;
        }
        let p: Vec<char> = to_chars(path);
        let b: Vec<char> = to_chars(base_dir);
        let filename: Vec<char> = file_name(&p);
        let relative: Vec<char> = relative_path(&p, &b);
        let mut i: usize = 0;
        while i < self.patterns.len()
            invariant
                i <= self.patterns@.len(),
                self.patterns().len() == self.patterns@.len(),
                filename@ == file_name_of(path@),
                relative@ == relative_to(path@, base_dir@),
                verdict_from(self.patterns(), i as int, filename@, relative@, is_dir) == ignores(
                    self.patterns(),
                    filename@,
                    relative@,
                    is_dir,
                ),
            decreases self.patterns@.len() - i,
        {
            assert(self.patterns()[i as int] == self.patterns@[i as int]@);
            if self.patterns[i].applies_to(&filename, &relative, is_dir) {
                return !self.patterns[i].negated;
            }
            i += 1;
        }
        false
    }

    /// The verdict of the one pattern `pattern` on an entry: whether it
    /// matches the entry and is not negated.
    pub fn matches_pattern(
        &self,
        filename: &str,
        relative_path: &str,
        pattern: &str,
        is_dir: bool,
    ) -> (r: bool)
        ensures
            r == (applies(parse_spec(pattern@), filename@, relative_path@, is_dir) && !parse_spec(
                pattern@,
            ).negated),
    {
        let raw: Vec<char> = to_chars(pattern);
        let p: IgnorePattern = IgnorePattern::parse(&raw);
        let f: Vec<char> = to_chars(filename);
        let rel: Vec<char> = to_chars(relative_path);
        p.applies_to(&f, &rel, is_dir) && !p.negated
    }

    /// Whether the wildcard pattern `pattern` matches the whole of `filename`.
    pub fn matches_filename_pattern(&self, filename: &str, pattern: &str) -> (r: bool)
        ensures
            r == wildcard_match(pattern@, filename@),
    {
        let p: Vec<char> = to_chars(pattern);
        let t: Vec<char> = to_chars(filename);
        wildcard(&p, &t)
    }
}

} // verus!
