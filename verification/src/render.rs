//! What a listing is: which entries of a directory are listed and in what
//! order, the lines that a tree gives, and its counts.

use vstd::prelude::*;
use crate::config::Config;
use crate::entry::{DirEntry, RootDir};
use crate::gitignore::{file_name_of, ignores, loaded, relative_to, PatternView};
use crate::text::{at_most, decimal, lemma_less_total, less};

verus! {

/// One line of a listing.
pub ghost struct Line {
    /// The nesting level of the directory whose entry this is; 0 for the
    /// top-level directory and for its entries.
    pub level: nat,
    /// Whether the line stands for a directory.
    pub is_dir: bool,
    /// The entry's name; for the top-level directory, its path.
    pub name: Seq<char>,
    /// The line as shown, without its line break.
    pub text: Seq<char>,
}

/// The name `.git`.
pub open spec fn git_name() -> Seq<char> {
    seq!['.', 'g', 'i', 't']
}

/// Whether the entry `e` of a tree based at `base` is listed.
pub open spec fn included(cfg: Config, pats: Seq<PatternView>, e: DirEntry, base: Seq<char>) -> bool {
    &&& cfg.all || !(e.name@.len() > 0 && e.name@[0] == '.')
    &&& !cfg.dirs_only || e.is_dir
    &&& !cfg.gitignore || e.name@ != git_name()
    &&& !cfg.gitignore || !ignores(
        pats,
        file_name_of(e.path@),
        relative_to(e.path@, base),
        e.is_dir,
    )
}

/// Where among the first `k` of `order` an entry called `name` goes: behind
/// every entry whose name does not come after `name`.
pub open spec fn insert_at(order: Seq<usize>, entries: Seq<DirEntry>, name: Seq<char>, k: int) -> int
    decreases k,
{
    if 0 < k <= order.len() && order[k - 1] < entries.len() && less(
        name,
        entries[order[k - 1] as int].name@,
    ) {
        insert_at(order, entries, name, k - 1)
    } else {
        k
    }
}

/// The positions of the listed entries among the first `n` of `entries`,
/// ordered by name; entries of one name keep their order.
pub open spec fn listing_upto(
    cfg: Config,
    pats: Seq<PatternView>,
    entries: Seq<DirEntry>,
    base: Seq<char>,
    n: int,
) -> Seq<usize>
    decreases n,
{
    if n <= 0 || n > entries.len() {
        Seq::empty()
    } else {
        let prev = listing_upto(cfg, pats, entries, base, n - 1);
        if included(cfg, pats, entries[n - 1], base) {
            prev.insert(
                insert_at(prev, entries, entries[n - 1].name@, prev.len() as int),
                (n - 1) as usize,
            )
        } else {
            prev
        }
    }
}

/// The positions of the listed entries of a directory, in the order in which
/// they are shown.
pub open spec fn listing(
    cfg: Config,
    pats: Seq<PatternView>,
    entries: Seq<DirEntry>,
    base: Seq<char>,
) -> Seq<usize> {
    listing_upto(cfg, pats, entries, base, entries.len() as int)
}

/// Whether a directory at `level` is beyond the depth asked for.
pub open spec fn too_deep(cfg: Config, level: nat) -> bool {
    match cfg.max_depth {
        Some(m) => level > m,
        None => false,
    }
}

/// What stands between the prefix and an entry's name.
pub open spec fn connector(cfg: Config, last: bool) -> Seq<char> {
    if cfg.no_indent {
        Seq::empty()
    } else if last {
        "└── "@
    } else {
        "├── "@
    }
}

/// What the prefix grows by below an entry.
pub open spec fn indent(cfg: Config, last: bool) -> Seq<char> {
    if cfg.no_indent {
        Seq::empty()
    } else if last {
        "    "@
    } else {
        "│   "@
    }
}

/// The entry's canonical path, or its path where that is not known.
pub open spec fn full_path_of(e: DirEntry) -> Seq<char> {
    match e.canonical {
        Some(c) => c@,
        None => e.path@,
    }
}

/// An entry as shown in its line.
pub open spec fn display_name(cfg: Config, e: DirEntry) -> Seq<char> {
    if cfg.full_path {
        full_path_of(e)
    } else if e.is_dir {
        e.name@.push('/')
    } else {
        e.name@
    }
}

/// The line for the top-level directory.
pub open spec fn header(cfg: Config, dir: DirEntry) -> Line {
    Line {
        level: 0,
        is_dir: true,
        name: dir.path@,
        text: (if cfg.full_path {
            full_path_of(dir)
        } else {
            dir.path@
        }).push('/'),
    }
}

/// The line for the entry `e` of a directory at `level`.
pub open spec fn entry_line(cfg: Config, e: DirEntry, level: nat, prefix: Seq<char>, last: bool) -> Line {
    Line {
        level,
        is_dir: e.is_dir,
        name: e.name@,
        text: prefix + connector(cfg, last) + display_name(cfg, e),
    }
}

/// The lines that the directory `dir` at `level` gives: at level 0 its own
/// line, then each listed entry, a directory followed by what it gives.
pub open spec fn walk(
    cfg: Config,
    pats: Seq<PatternView>,
    dir: DirEntry,
    base: Seq<char>,
    level: nat,
    prefix: Seq<char>,
) -> Seq<Line>
    decreases dir, 1int, 0int,
{
    if too_deep(cfg, level) {
        Seq::empty()
    } else {
        let head = if level == 0 {
            seq![header(cfg, dir)]
        } else {
            Seq::empty()
        };
        head + walk_from(
            cfg,
            pats,
            dir,
            listing(cfg, pats, dir.children@, base),
            0,
            base,
            level,
            prefix,
        )
    }
}

/// The lines that the entries of `dir` give from the `k`th of `order` on.
pub open spec fn walk_from(
    cfg: Config,
    pats: Seq<PatternView>,
    dir: DirEntry,
    order: Seq<usize>,
    k: int,
    base: Seq<char>,
    level: nat,
    prefix: Seq<char>,
) -> Seq<Line>
    decreases dir, 0int, order.len() - k,
{
    if k < 0 || k >= order.len() {
        Seq::empty()
    } else if order[k] >= dir.children@.len() {
        walk_from(cfg, pats, dir, order, k + 1, base, level, prefix)
    } else {
        entry_walk(
            cfg,
            pats,
            dir.children@[order[k] as int],
            base,
            level,
            prefix,
            k == order.len() - 1,
        ) + walk_from(cfg, pats, dir, order, k + 1, base, level, prefix)
    }
}

/// The lines that the entry `e` of a directory at `level` gives: its own,
/// and, for a directory, those of what it holds. `last` says whether it is
/// the last entry listed of its directory.
pub open spec fn entry_walk(
    cfg: Config,
    pats: Seq<PatternView>,
    e: DirEntry,
    base: Seq<char>,
    level: nat,
    prefix: Seq<char>,
    last: bool,
) -> Seq<Line>
    decreases e, 2int, 0int,
{
    seq![entry_line(cfg, e, level, prefix, last)] + if e.is_dir {
        walk(cfg, pats, e, base, level + 1, prefix + indent(cfg, last))
    } else {
        Seq::empty()
    }
}

/// The first directory that cannot be read among those that listing `dir`
/// at `level` reads, by the system's words for it.
pub open spec fn failure(
    cfg: Config,
    pats: Seq<PatternView>,
    dir: DirEntry,
    base: Seq<char>,
    level: nat,
) -> Option<Seq<char>>
    decreases dir, 1int, 0int,
{
    if too_deep(cfg, level) {
        None
    } else {
        match dir.failure {
            Some(m) => Some(m@),
            None => failure_from(
                cfg,
                pats,
                dir,
                listing(cfg, pats, dir.children@, base),
                0,
                base,
                level,
            ),
        }
    }
}

/// The same for the entries of `dir` from the `k`th of `order` on.
pub open spec fn failure_from(
    cfg: Config,
    pats: Seq<PatternView>,
    dir: DirEntry,
    order: Seq<usize>,
    k: int,
    base: Seq<char>,
    level: nat,
) -> Option<Seq<char>>
    decreases dir, 0int, order.len() - k,
{
    if k < 0 || k >= order.len() {
        None
    } else if order[k] >= dir.children@.len() {
        failure_from(cfg, pats, dir, order, k + 1, base, level)
    } else {
        let below = entry_failure(cfg, pats, dir.children@[order[k] as int], base, level);
        if below is Some {
            below
        } else {
            failure_from(cfg, pats, dir, order, k + 1, base, level)
        }
    }
}

/// The first failure met below the entry `e` of a directory at `level`.
pub open spec fn entry_failure(
    cfg: Config,
    pats: Seq<PatternView>,
    e: DirEntry,
    base: Seq<char>,
    level: nat,
) -> Option<Seq<char>>
    decreases e, 2int, 0int,
{
    if e.is_dir {
        failure(cfg, pats, e, base, level + 1)
    } else {
        None
    }
}

/// How many of `lines` stand for directories.
pub open spec fn count_dirs(lines: Seq<Line>) -> nat
    decreases lines.len(),
{
    if lines.len() == 0 {
        0
    } else {
        count_dirs(lines.drop_last()) + if lines.last().is_dir {
            1nat
        } else {
            0nat
        }
    }
}

/// How many of `lines` stand for files.
pub open spec fn count_files(lines: Seq<Line>) -> nat
    decreases lines.len(),
{
    if lines.len() == 0 {
        0
    } else {
        count_files(lines.drop_last()) + if lines.last().is_dir {
            0nat
        } else {
            1nat
        }
    }
}

/// The text of `lines`: each followed by a line break.
pub open spec fn text_of(lines: Seq<Line>) -> Seq<char>
    decreases lines.len(),
{
    if lines.len() == 0 {
        Seq::empty()
    } else {
        text_of(lines.drop_last()) + lines.last().text.push('\n')
    }
}

/// The patterns in force where the ignore file holds `lines`: none unless
/// the options ask for them.
pub open spec fn patterns_of(cfg: Config, lines: Seq<String>) -> Seq<PatternView> {
    if cfg.gitignore {
        loaded(lines)
    } else {
        Seq::empty()
    }
}

/// The patterns in force for a top-level directory.
pub open spec fn patterns_for(cfg: Config, root: RootDir) -> Seq<PatternView> {
    patterns_of(cfg, root.ignore_lines@)
}

/// Whether listing the entry `e` of a directory at `level` reads what `e`
/// holds: `e` is a directory, is listed, and lies within the depth asked
/// for.
pub open spec fn is_read(
    cfg: Config,
    pats: Seq<PatternView>,
    e: DirEntry,
    base: Seq<char>,
    level: nat,
) -> bool {
    e.is_dir && included(cfg, pats, e, base) && !too_deep(cfg, level + 1)
}

/// The lines for one top-level directory.
pub open spec fn root_lines(cfg: Config, root: RootDir) -> Seq<Line> {
    walk(cfg, patterns_for(cfg, root), root.dir, root.dir.path@, 0, Seq::empty())
}

/// The summary under a listing: a blank line, then the counts.
pub open spec fn summary(dirs: nat, files: nat) -> Seq<char> {
    seq!['\n'] + decimal(dirs) + " directories, "@ + decimal(files) + " files\n"@
}

/// What is shown for one top-level directory: its lines and the summary.
pub open spec fn section(cfg: Config, root: RootDir) -> Seq<char> {
    let lines = root_lines(cfg, root);
    text_of(lines) + summary(count_dirs(lines), count_files(lines))
}

/// What is shown for the first `n` of `roots`.
pub open spec fn report_upto(cfg: Config, roots: Seq<RootDir>, n: int) -> Seq<char>
    decreases n,
{
    if n <= 0 || n > roots.len() {
        Seq::empty()
    } else {
        report_upto(cfg, roots, n - 1) + section(cfg, roots[n - 1])
    }
}

/// What is shown for `roots`, one after the other.
pub open spec fn report(cfg: Config, roots: Seq<RootDir>) -> Seq<char> {
    report_upto(cfg, roots, roots.len() as int)
}

/// The failure of the first of `roots`, from the `i`th on, that has one.
pub open spec fn report_failure(cfg: Config, roots: Seq<RootDir>, i: int) -> Option<Seq<char>>
    decreases roots.len() - i,
{
    if i < 0 || i >= roots.len() {
        None
    } else {
        let f = failure(cfg, patterns_for(cfg, roots[i]), roots[i].dir, roots[i].dir.path@, 0);
        if f is Some {
            f
        } else {
            report_failure(cfg, roots, i + 1)
        }
    }
}

/// Whether the counts of `lines`, and the level of the deepest directory
/// among them, can be held in a `usize`.
pub open spec fn counts_fit(lines: Seq<Line>, level: nat) -> bool {
    level + count_dirs(lines) <= usize::MAX && count_files(lines) <= usize::MAX
}

/// Whether the counts of the listing of each of `roots` can be held in a
/// `usize`.
pub open spec fn all_counts_fit(cfg: Config, roots: Seq<RootDir>) -> bool {
    forall|i: int| 0 <= i < roots.len() ==> counts_fit(#[trigger] root_lines(cfg, roots[i]), 0)
}

/// The counts of a listing made of two parts are the sums of theirs, and
/// its text is their texts one after the other.
pub proof fn lemma_lines_add(a: Seq<Line>, b: Seq<Line>)
    ensures
        count_dirs(a + b) == count_dirs(a) + count_dirs(b),
        count_files(a + b) == count_files(a) + count_files(b),
        text_of(a + b) == text_of(a) + text_of(b),
    decreases b.len(),
{
    if b.len() == 0 {
        assert(a + b == a);
        assert(text_of(a) + text_of(b) == text_of(a));
    } else {
        lemma_lines_add(a, b.drop_last());
        assert((a + b).drop_last() == a + b.drop_last());
        assert((a + b).last() == b.last());
        assert(text_of(a + b) == text_of(a) + text_of(b.drop_last()) + b.last().text.push('\n'));
        assert(text_of(a) + text_of(b.drop_last()) + b.last().text.push('\n') == text_of(a) + (
        text_of(b.drop_last()) + b.last().text.push('\n')));
    }
}

/// The counts and the text of a single line.
pub proof fn lemma_one_line(l: Line)
    ensures
        count_dirs(seq![l]) == if l.is_dir { 1nat } else { 0nat },
        count_files(seq![l]) == if l.is_dir { 0nat } else { 1nat },
        text_of(seq![l]) == l.text.push('\n'),
{
    let s = seq![l];
    assert(s.drop_last() == Seq::<Line>::empty());
    assert(s.last() == l);
    assert(text_of(s.drop_last()) == Seq::<char>::empty());
    assert(count_dirs(s.drop_last()) == 0);
    assert(count_files(s.drop_last()) == 0);
    assert(Seq::<char>::empty() + l.text.push('\n') == l.text.push('\n'));
}

/// Where `insert_at` puts a name: within the first `k`, in front of
/// entries that all come after the name, and behind one that does not.
proof fn lemma_insert_at(order: Seq<usize>, entries: Seq<DirEntry>, name: Seq<char>, k: int)
    requires
        0 <= k <= order.len(),
        forall|j: int| 0 <= j < order.len() ==> order[j] < entries.len(),
    ensures
        0 <= insert_at(order, entries, name, k) <= k,
        forall|j: int|
            insert_at(order, entries, name, k) <= j < k ==> less(
                name,
                #[trigger] entries[order[j] as int].name@,
            ),
        insert_at(order, entries, name, k) > 0 ==> !less(
            name,
            entries[order[insert_at(order, entries, name, k) - 1] as int].name@,
        ),
    decreases k,
{
    if 0 < k && less(name, entries[order[k - 1] as int].name@) {
        lemma_insert_at(order, entries, name, k - 1);
    }
}

/// Whether the entries at the positions `order` stand in ascending order of
/// their names.
pub open spec fn ascending(order: Seq<usize>, entries: Seq<DirEntry>) -> bool {
    forall|k: int|
        0 <= k < order.len() - 1 ==> at_most(
            #[trigger] entries[order[k] as int].name@,
            entries[order[k + 1] as int].name@,
        )
}

/// What stands where once `x` is put into `s` at `pos`.
proof fn lemma_insert_shift(s: Seq<usize>, pos: int, x: usize, k: int)
    requires
        0 <= pos <= s.len(),
        0 <= k <= s.len(),
    ensures
        s.insert(pos, x).len() == s.len() + 1,
        k < pos ==> s.insert(pos, x)[k] == s[k],
        k == pos ==> s.insert(pos, x)[k] == x,
        k > pos ==> s.insert(pos, x)[k] == s[k - 1],
{
    s.insert_ensures(pos, x);
    if k > pos {
        assert(s.insert(pos, x)[(k - 1) + 1] == s[k - 1]);
    }
}

/// Putting `x` into `s` adds `x` to what `s` holds and nothing else, and
/// repeats nothing where `x` is new.
proof fn lemma_insert_members(s: Seq<usize>, pos: int, x: usize)
    requires
        0 <= pos <= s.len(),
    ensures
        forall|v: usize| #[trigger] s.insert(pos, x).contains(v) <==> (v == x || s.contains(v)),
        s.no_duplicates() && !s.contains(x) ==> s.insert(pos, x).no_duplicates(),
{
    let t = s.insert(pos, x);
    assert forall|v: usize| #[trigger] t.contains(v) <==> (v == x || s.contains(v)) by {
        if t.contains(v) {
            let j = choose|j: int| 0 <= j < t.len() && t[j] == v;
            lemma_insert_shift(s, pos, x, j);
            if j < pos {
                assert(s[j] == v);
            } else if j > pos {
                assert(s[j - 1] == v);
            }
        }
        if v == x {
            lemma_insert_shift(s, pos, x, pos);
            assert(t[pos] == v);
        } else if s.contains(v) {
            let j = choose|j: int| 0 <= j < s.len() && s[j] == v;
            if j < pos {
                lemma_insert_shift(s, pos, x, j);
                assert(t[j] == v);
            } else {
                lemma_insert_shift(s, pos, x, j + 1);
                assert(t[j + 1] == v);
            }
        }
    }
    if s.no_duplicates() && !s.contains(x) {
        assert forall|a: int, b: int| 0 <= a < t.len() && 0 <= b < t.len() && a != b implies t[a]
            != t[b] by {
            lemma_insert_shift(s, pos, x, a);
            lemma_insert_shift(s, pos, x, b);
            if a != pos {
                let a0 = if a < pos { a } else { a - 1 };
                assert(s.contains(s[a0]));
            }
            if b != pos {
                let b0 = if b < pos { b } else { b - 1 };
                assert(s.contains(s[b0]));
            }
        }
    }
}

/// Putting an entry where `insert_at` says keeps the order ascending.
proof fn lemma_insert_ascending(order: Seq<usize>, entries: Seq<DirEntry>, x: usize)
    requires
        forall|j: int| 0 <= j < order.len() ==> order[j] < entries.len(),
        x < entries.len(),
        ascending(order, entries),
    ensures
        0 <= insert_at(order, entries, entries[x as int].name@, order.len() as int) <= order.len(),
        ascending(
            order.insert(
                insert_at(order, entries, entries[x as int].name@, order.len() as int),
                x,
            ),
            entries,
        ),
{
    let name = entries[x as int].name@;
    let pos = insert_at(order, entries, name, order.len() as int);
    lemma_insert_at(order, entries, name, order.len() as int);
    let now = order.insert(pos, x);
    assert forall|k: int| 0 <= k < now.len() - 1 implies at_most(
        #[trigger] entries[now[k] as int].name@,
        entries[now[k + 1] as int].name@,
    ) by {
        lemma_insert_shift(order, pos, x, k);
        lemma_insert_shift(order, pos, x, k + 1);
        if k + 1 < pos {
            assert(at_most(entries[order[k] as int].name@, entries[order[k + 1] as int].name@));
        } else if k + 1 == pos {
            lemma_less_total(name, entries[order[k] as int].name@);
        } else if k == pos {
            assert(less(name, entries[order[pos] as int].name@));
        } else {
            assert(at_most(
                entries[order[k - 1] as int].name@,
                entries[order[k - 1 + 1] as int].name@,
            ));
        }
    }
}

/// The listing of the first `n` entries holds positions below `n` only.
proof fn lemma_listing_bound(
    cfg: Config,
    pats: Seq<PatternView>,
    entries: Seq<DirEntry>,
    base: Seq<char>,
    n: int,
)
    requires
        0 <= n <= entries.len() <= usize::MAX,
    ensures
        listing_upto(cfg, pats, entries, base, n).len() <= n,
        forall|k: int|
            0 <= k < listing_upto(cfg, pats, entries, base, n).len() ==> #[trigger] listing_upto(
                cfg,
                pats,
                entries,
                base,
                n,
            )[k] < n,
    decreases n,
{
    if n > 0 {
        lemma_listing_bound(cfg, pats, entries, base, n - 1);
        let prev = listing_upto(cfg, pats, entries, base, n - 1);
        let now = listing_upto(cfg, pats, entries, base, n);
        if included(cfg, pats, entries[n - 1], base) {
            let x = (n - 1) as usize;
            let pos = insert_at(prev, entries, entries[n - 1].name@, prev.len() as int);
            lemma_insert_at(prev, entries, entries[n - 1].name@, prev.len() as int);
            assert forall|k: int| 0 <= k < now.len() implies #[trigger] now[k] < n by {
                lemma_insert_shift(prev, pos, x, pos);
                lemma_insert_shift(prev, pos, x, k);
            }
            lemma_insert_shift(prev, pos, x, pos);
        }
    }
}

/// Among the first `n` entries of a directory, the listing holds the
/// position of each listed entry once, holds no other position, and is in
/// ascending order of the names.
pub proof fn lemma_listing_upto(
    cfg: Config,
    pats: Seq<PatternView>,
    entries: Seq<DirEntry>,
    base: Seq<char>,
    n: int,
)
    requires
        0 <= n <= entries.len() <= usize::MAX,
    ensures
        forall|i: int|
            0 <= i < n ==> (listing_upto(cfg, pats, entries, base, n).contains(i as usize)
                <==> included(cfg, pats, #[trigger] entries[i], base)),
        listing_upto(cfg, pats, entries, base, n).no_duplicates(),
        ascending(listing_upto(cfg, pats, entries, base, n), entries),
    decreases n,
{
    let now = listing_upto(cfg, pats, entries, base, n);
    if n > 0 {
        lemma_listing_upto(cfg, pats, entries, base, n - 1);
        lemma_listing_bound(cfg, pats, entries, base, n - 1);
        let prev = listing_upto(cfg, pats, entries, base, n - 1);
        let x = (n - 1) as usize;
        if prev.contains(x) {
            let j = choose|j: int| 0 <= j < prev.len() && prev[j] == x;
            assert(prev[j] < n - 1);
        }
        if included(cfg, pats, entries[n - 1], base) {
            let pos = insert_at(prev, entries, entries[n - 1].name@, prev.len() as int);
            lemma_insert_ascending(prev, entries, x);
            lemma_insert_members(prev, pos, x);
            assert(now == prev.insert(pos, x));
            assert forall|i: int| 0 <= i < n implies (now.contains(i as usize) <==> included(
                cfg,
                pats,
                #[trigger] entries[i],
                base,
            )) by {
                if i < n - 1 {
                    assert(i as usize != x);
                }
            }
        } else {
            assert(now == prev);
        }
    }
}

/// Each entry of a directory is either left out or listed exactly once: the
/// listing holds the position of every listed entry, of no other, and none
/// twice.
pub proof fn lemma_listing_members(
    cfg: Config,
    pats: Seq<PatternView>,
    entries: Seq<DirEntry>,
    base: Seq<char>,
)
    requires
        entries.len() <= usize::MAX,
    ensures
        forall|k: int|
            0 <= k < listing(cfg, pats, entries, base).len() ==> #[trigger] listing(
                cfg,
                pats,
                entries,
                base,
            )[k] < entries.len(),
        forall|i: int|
            0 <= i < entries.len() ==> (listing(cfg, pats, entries, base).contains(i as usize)
                <==> included(cfg, pats, #[trigger] entries[i], base)),
        listing(cfg, pats, entries, base).no_duplicates(),
{
    lemma_listing_upto(cfg, pats, entries, base, entries.len() as int);
    lemma_listing_bound(cfg, pats, entries, base, entries.len() as int);
}

/// The entries of a directory are listed in ascending order of their names,
/// code point by code point: each name comes before the next, or is the
/// same name.
pub proof fn lemma_listing_sorted(
    cfg: Config,
    pats: Seq<PatternView>,
    entries: Seq<DirEntry>,
    base: Seq<char>,
)
    requires
        entries.len() <= usize::MAX,
    ensures
        ascending(listing(cfg, pats, entries, base), entries),
{
    lemma_listing_upto(cfg, pats, entries, base, entries.len() as int);
}

/// Where no two entries of a directory have the same name, each listed
/// name comes strictly before the next.
pub proof fn lemma_listing_strict(
    cfg: Config,
    pats: Seq<PatternView>,
    entries: Seq<DirEntry>,
    base: Seq<char>,
)
    requires
        entries.len() <= usize::MAX,
        forall|i: int, j: int|
            0 <= i < entries.len() && 0 <= j < entries.len() && i != j ==> entries[i].name@
                != entries[j].name@,
    ensures
        forall|k: int|
            0 <= k < listing(cfg, pats, entries, base).len() - 1 ==> less(
                #[trigger] entries[listing(cfg, pats, entries, base)[k] as int].name@,
                entries[listing(cfg, pats, entries, base)[k + 1] as int].name@,
            ),
{
    let order = listing(cfg, pats, entries, base);
    lemma_listing_sorted(cfg, pats, entries, base);
    lemma_listing_members(cfg, pats, entries, base);
    assert forall|k: int| 0 <= k < order.len() - 1 implies less(
        #[trigger] entries[order[k] as int].name@,
        entries[order[k + 1] as int].name@,
    ) by {
        assert(order[k] != order[k + 1]);
        assert(order[k] < entries.len() && order[k + 1] < entries.len());
        assert(at_most(entries[order[k] as int].name@, entries[order[k + 1] as int].name@));
    }
}

/// Every line is counted once, as a directory or as a file.
pub proof fn lemma_counts_partition(lines: Seq<Line>)
    ensures
        count_dirs(lines) + count_files(lines) == lines.len(),
    decreases lines.len(),
{
    if lines.len() > 0 {
        lemma_counts_partition(lines.drop_last());
    }
}

/// The directories counted under a top-level directory are that directory
/// itself and the directories among the lines of its entries.
pub proof fn lemma_root_counted(
    cfg: Config,
    pats: Seq<PatternView>,
    dir: DirEntry,
    base: Seq<char>,
    prefix: Seq<char>,
)
    ensures
        count_dirs(walk(cfg, pats, dir, base, 0, prefix)) == 1 + count_dirs(
            walk_from(cfg, pats, dir, listing(cfg, pats, dir.children@, base), 0, base, 0, prefix),
        ),
        count_files(walk(cfg, pats, dir, base, 0, prefix)) == count_files(
            walk_from(cfg, pats, dir, listing(cfg, pats, dir.children@, base), 0, base, 0, prefix),
        ),
{
    let body = walk_from(
        cfg,
        pats,
        dir,
        listing(cfg, pats, dir.children@, base),
        0,
        base,
        0,
        prefix,
    );
    lemma_one_line(header(cfg, dir));
    lemma_lines_add(seq![header(cfg, dir)], body);
}

/// Whether every one of `lines` lies at `level` or deeper, and none beyond
/// the depth asked for.
pub open spec fn within_depth(cfg: Config, lines: Seq<Line>, level: nat) -> bool {
    forall|i: int|
        0 <= i < lines.len() ==> level <= (#[trigger] lines[i]).level && !too_deep(
            cfg,
            lines[i].level,
        )
}

/// No line of a listing stands for an entry beyond the depth asked for, and
/// none for an entry above the level at which the listing began.
pub proof fn lemma_depth_bound(
    cfg: Config,
    pats: Seq<PatternView>,
    dir: DirEntry,
    base: Seq<char>,
    level: nat,
    prefix: Seq<char>,
)
    ensures
        within_depth(cfg, walk(cfg, pats, dir, base, level, prefix), level),
    decreases dir, 1int, 0int,
{
    if !too_deep(cfg, level) {
        lemma_depth_bound_from(
            cfg,
            pats,
            dir,
            listing(cfg, pats, dir.children@, base),
            0,
            base,
            level,
            prefix,
        );
    }
}

proof fn lemma_depth_bound_from(
    cfg: Config,
    pats: Seq<PatternView>,
    dir: DirEntry,
    order: Seq<usize>,
    k: int,
    base: Seq<char>,
    level: nat,
    prefix: Seq<char>,
)
    requires
        !too_deep(cfg, level),
    ensures
        within_depth(cfg, walk_from(cfg, pats, dir, order, k, base, level, prefix), level),
    decreases dir, 0int, order.len() - k,
{
    let now = walk_from(cfg, pats, dir, order, k, base, level, prefix);
    if 0 <= k < order.len() {
        lemma_depth_bound_from(cfg, pats, dir, order, k + 1, base, level, prefix);
        let rest = walk_from(cfg, pats, dir, order, k + 1, base, level, prefix);
        if order[k] < dir.children@.len() {
            let e = dir.children@[order[k] as int];
            let last = k == order.len() - 1;
            let line = entry_line(cfg, e, level, prefix, last);
            let below = if e.is_dir {
                walk(cfg, pats, e, base, level + 1, prefix + indent(cfg, last))
            } else {
                Seq::empty()
            };
            if e.is_dir {
                lemma_depth_bound(cfg, pats, e, base, level + 1, prefix + indent(cfg, last));
            }
            assert(entry_walk(cfg, pats, e, base, level, prefix, last) == seq![line] + below);
            assert(now == seq![line] + below + rest);
            assert forall|i: int| 0 <= i < now.len() implies level <= (#[trigger] now[i]).level
                && !too_deep(cfg, now[i].level) by {
                if i == 0 {
                    assert(now[i] == line);
                } else if i < 1 + below.len() {
                    assert(now[i] == below[i - 1]);
                } else {
                    assert(now[i] == rest[i - 1 - below.len()]);
                }
            }
        }
    }
}

/// An entry whose contents are not read gives its own line and nothing
/// else, and no failure is met below it.
pub proof fn lemma_unread_entry(
    cfg: Config,
    pats: Seq<PatternView>,
    e: DirEntry,
    base: Seq<char>,
    level: nat,
    prefix: Seq<char>,
    last: bool,
)
    requires
        included(cfg, pats, e, base),
        !is_read(cfg, pats, e, base, level),
    ensures
        entry_walk(cfg, pats, e, base, level, prefix, last) == seq![
            entry_line(cfg, e, level, prefix, last),
        ],
        entry_failure(cfg, pats, e, base, level) is None,
{
    let line = entry_line(cfg, e, level, prefix, last);
    assert(seq![line] + Seq::<Line>::empty() == seq![line]);
}

/// Within the depth asked for, each listed entry of a directory has its
/// line in the listing.
pub proof fn lemma_listed_entry_appears(
    cfg: Config,
    pats: Seq<PatternView>,
    dir: DirEntry,
    base: Seq<char>,
    level: nat,
    prefix: Seq<char>,
    k: int,
)
    requires
        !too_deep(cfg, level),
        0 <= k < listing(cfg, pats, dir.children@, base).len(),
    ensures
        listing(cfg, pats, dir.children@, base)[k] < dir.children@.len(),
        walk(cfg, pats, dir, base, level, prefix).contains(
            entry_line(
                cfg,
                dir.children@[listing(cfg, pats, dir.children@, base)[k] as int],
                level,
                prefix,
                k == listing(cfg, pats, dir.children@, base).len() - 1,
            ),
        ),
{
    let order = listing(cfg, pats, dir.children@, base);
    assert(dir.children@.len() == dir.children.len());
    lemma_listing_members(cfg, pats, dir.children@, base);
    lemma_appears_from(cfg, pats, dir, order, 0, k, base, level, prefix);
    let body = walk_from(cfg, pats, dir, order, 0, base, level, prefix);
    let line = entry_line(cfg, dir.children@[order[k] as int], level, prefix, k == order.len() - 1);
    let i = choose|i: int| 0 <= i < body.len() && body[i] == line;
    let all = walk(cfg, pats, dir, base, level, prefix);
    if level == 0 {
        assert(all[i + 1] == line);
    } else {
        assert(all =~= body);
    }
}

proof fn lemma_appears_from(
    cfg: Config,
    pats: Seq<PatternView>,
    dir: DirEntry,
    order: Seq<usize>,
    j: int,
    k: int,
    base: Seq<char>,
    level: nat,
    prefix: Seq<char>,
)
    requires
        0 <= j <= k < order.len(),
        forall|x: int| 0 <= x < order.len() ==> order[x] < dir.children@.len(),
    ensures
        walk_from(cfg, pats, dir, order, j, base, level, prefix).contains(
            entry_line(cfg, dir.children@[order[k] as int], level, prefix, k == order.len() - 1),
        ),
    decreases k - j,
{
    let line = entry_line(cfg, dir.children@[order[k] as int], level, prefix, k == order.len() - 1);
    let here = entry_walk(
        cfg,
        pats,
        dir.children@[order[j] as int],
        base,
        level,
        prefix,
        j == order.len() - 1,
    );
    let rest = walk_from(cfg, pats, dir, order, j + 1, base, level, prefix);
    let now = walk_from(cfg, pats, dir, order, j, base, level, prefix);
    assert(now == here + rest);
    if j == k {
        assert(here[0] == line);
        assert(now[0] == line);
    } else {
        lemma_appears_from(cfg, pats, dir, order, j + 1, k, base, level, prefix);
        let i = choose|i: int| 0 <= i < rest.len() && rest[i] == line;
        assert(now[here.len() + i] == line);
    }
}

} // verus!
