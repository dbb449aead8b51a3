//! The walker: lists a snapshot of a directory tree as text and counts what
//! it lists.

use vstd::prelude::*;
use vstd::string::StringExecFns;
use crate::config::Config;
use crate::entry::{DirEntry, RootDir};
use crate::error::TreeError;
use crate::gitignore::{GitignoreManager, PatternView};
use crate::render::{
    all_counts_fit, connector, count_dirs, count_files, counts_fit, display_name, entry_failure, entry_line, entry_walk,
    failure, failure_from, git_name, header, included, indent, insert_at, is_read, lemma_lines_add,
    lemma_one_line, listing, listing_upto, patterns_for, patterns_of, report, report_failure,
    report_upto, root_lines, section, text_of, walk, walk_from,
};
use crate::stats::FileStats;
use crate::text::{is_less, push_decimal, to_chars};

verus! {

/// Lists directory trees as one run's options ask.
pub struct TreeGenerator<'a> {
    config: &'a Config,
    gitignore: GitignoreManager,
}

impl<'a> TreeGenerator<'a> {
    /// The options of the run.
    pub closed spec fn config(&self) -> Config {
        *self.config
    }

    /// The ignore patterns in force.
    pub closed spec fn patterns(&self) -> Seq<PatternView> {
        self.gitignore.patterns()
    }

    /// Patterns are held only where the options ask for them.
    pub closed spec fn wf(&self) -> bool {
        !self.config.gitignore ==> self.gitignore.patterns() == Seq::<PatternView>::empty()
    }

    /// A generator for the options `config`, with no patterns loaded.
    pub fn new(config: &'a Config) -> (g: Self)
        ensures
            g.config() == *config,
            g.patterns() == Seq::<PatternView>::empty(),
            g.wf(),
    {
        Self { config, gitignore: GitignoreManager::new() }
    }

    /// Takes the patterns of a top-level directory's ignore file, whose
    /// lines are `lines`, in place of those held. Without the option for
    /// ignore files nothing is held.
    pub fn load_patterns(&mut self, lines: &Vec<String>)
        requires
            old(self).wf(),
        ensures
            final(self).wf(),
            final(self).config() == old(self).config(),
            final(self).patterns() == patterns_of(old(self).config(), lines@),
    {
        if self.config.gitignore {
            self.gitignore.load_patterns(lines);
        }
    }

    /// Whether listing `entry`, an entry of a directory at `level` in the
    /// tree based at `base_dir`, reads what `entry` holds. The entries of a
    /// directory for which this is false never show in a listing, and a
    /// failure to read it is never met.
    pub fn needs_listing(&self, entry: &DirEntry, base_dir: &str, level: usize) -> (r: bool)
        ensures
            r == is_read(self.config(), self.patterns(), *entry, base_dir@, level as nat),
    {
        if !entry.is_dir {
            return false;
        }
        let within: bool = match self.config.max_depth {
            Some(m) => level < m,
            None => true,
        };
        within && self.should_include_entry(entry, base_dir)
    }

    /// Lists each of `roots` in turn, from level 0 and with an empty prefix,
    /// each with counts of its own and, where the options ask for it, with
    /// the patterns of its own ignore file; under each listing stands its
    /// summary. Gives the whole text, or the first failure to read a
    /// directory that a listing needs.
    ///
    /// The result depends on the options and on `roots` alone, not on what
    /// the generator listed before.
    pub fn generate(&mut self, roots: &Vec<RootDir>) -> (r: Result<String, TreeError>)
        requires
            old(self).wf(),
            all_counts_fit(old(self).config(), roots@),
        ensures
            final(self).wf(),
            final(self).config() == old(self).config(),
            match r {
                Ok(text) => report_failure(old(self).config(), roots@, 0) is None && text@
                    == report(old(self).config(), roots@),
                Err(e) => report_failure(old(self).config(), roots@, 0) == Some(e.detail()),
            },
    {
        let mut tree_output: String = String::new();
        let ghost cfg = self.config();
        let mut i: usize = 0;
        while i < roots.len()
            invariant
                i <= roots@.len(),
                self.wf(),
                self.config() == cfg,
                cfg == old(self).config(),
                all_counts_fit(cfg, roots@),
                tree_output@ == report_upto(cfg, roots@, i as int),
                report_failure(cfg, roots@, i as int) == report_failure(cfg, roots@, 0),
            decreases roots@.len() - i,
        {
            let root: &RootDir = &roots[i];
            let mut path_stats: FileStats = FileStats::new();
            self.load_patterns(&root.ignore_lines);
            assert(self.patterns() == patterns_for(cfg, *root));
            proof {
                reveal_strlit("");
                reveal_strlit("\n");
                assert(""@ =~= Seq::<char>::empty());
                assert(root_lines(cfg, roots@[i as int]) == walk(
                    cfg,
                    self.patterns(),
                    root.dir,
                    root.dir.path@,
                    0,
                    ""@,
                ));
            }
            let ghost before = tree_output@;
            match self.visit_dir(&root.dir, root.dir.path.as_str(), 0, &mut path_stats, "") {
                Ok(path_tree) => {
                    tree_output.append(path_tree.as_str());
                },
                Err(e) => {
                    return Err(e);
                },
            }
            tree_output.append("\n");
            push_decimal(&mut tree_output, path_stats.dirs);
            tree_output.append(" directories, ");
            push_decimal(&mut tree_output, path_stats.files);
            tree_output.append(" files\n");
            assert(tree_output@ =~= before + section(cfg, *root));
            i += 1;
        }
        Ok(tree_output)
    }

    /// Whether the counts of the listing of each of `roots` can be held:
    /// what `generate` asks of its caller beyond a generator in order.
    pub fn counts_fit(&mut self, roots: &Vec<RootDir>) -> (r: bool)
        requires
            old(self).wf(),
        ensures
            final(self).wf(),
            final(self).config() == old(self).config(),
            r == all_counts_fit(old(self).config(), roots@),
    {
        let ghost cfg = self.config();
        let mut i: usize = 0;
        while i < roots.len()
            invariant
                i <= roots@.len(),
                self.wf(),
                self.config() == cfg,
                cfg == old(self).config(),
                forall|x: int| 0 <= x < i ==> counts_fit(#[trigger] root_lines(cfg, roots@[x]), 0),
            decreases roots@.len() - i,
        {
            let root: &RootDir = &roots[i];
            self.load_patterns(&root.ignore_lines);
            let counted = self.count_dir(
                &root.dir,
                root.dir.path.as_str(),
                0,
                Ghost(Seq::empty()),
            );
            if counted.is_none() {
                assert(!counts_fit(root_lines(cfg, roots@[i as int]), 0));
                return false;
            }
            i += 1;
        }
        true
    }

    /// The counts of the listing of `dir`, where they and the level of the
    /// deepest directory can be held.
    fn count_dir(
        &self,
        dir: &DirEntry,
        base_dir: &str,
        level: usize,
        Ghost(prefix): Ghost<Seq<char>>,
    ) -> (r: Option<(usize, usize)>)
        ensures
            match r {
                Some((d, f)) => {
                    let lines = walk(
                        self.config(),
                        self.patterns(),
                        *dir,
                        base_dir@,
                        level as nat,
                        prefix,
                    );
                    d == count_dirs(lines) && f == count_files(lines) && level + d <= usize::MAX
                },
                None => !counts_fit(
                    walk(self.config(), self.patterns(), *dir, base_dir@, level as nat, prefix),
                    level as nat,
                ),
            },
        decreases *dir, 0int,
    {
        if let Some(m) = self.config.max_depth {
            if level > m {
                return Some((0, 0));
            }
        }
        let ghost cfg = self.config();
        let ghost pats = self.patterns();
        let ghost all = walk(cfg, pats, *dir, base_dir@, level as nat, prefix);
        let order: Vec<usize> = self.listing_of(&dir.children, base_dir);
        let ghost body = walk_from(cfg, pats, *dir, order@, 0, base_dir@, level as nat, prefix);
        let mut dirs: usize = 0;
        let mut files: usize = 0;
        if level == 0 {
            proof {
                lemma_one_line(header(cfg, *dir));
                lemma_lines_add(seq![header(cfg, *dir)], body);
            }
            dirs = 1;
        } else {
            assert(all =~= body);
        }
        let n: usize = order.len();
        let mut k: usize = 0;
        while k < n
            invariant
                k <= n,
                n == order@.len(),
                cfg == self.config(),
                pats == self.patterns(),
                all == walk(cfg, pats, *dir, base_dir@, level as nat, prefix),
                forall|x: int| 0 <= x < order@.len() ==> order@[x] < dir.children@.len(),
                dirs + count_dirs(
                    walk_from(cfg, pats, *dir, order@, k as int, base_dir@, level as nat, prefix),
                ) == count_dirs(all),
                files + count_files(
                    walk_from(cfg, pats, *dir, order@, k as int, base_dir@, level as nat, prefix),
                ) == count_files(all),
            decreases n - k,
        {
            let entry: &DirEntry = &dir.children[order[k]];
            let is_last: bool = k == n - 1;
            proof {
                lemma_lines_add(
                    entry_walk(cfg, pats, *entry, base_dir@, level as nat, prefix, is_last),
                    walk_from(cfg, pats, *dir, order@, k + 1, base_dir@, level as nat, prefix),
                );
            }
            match self.count_entry(entry, base_dir, level, Ghost(prefix), is_last) {
                Some((d, f)) => {
                    if d > usize::MAX - dirs || f > usize::MAX - files {
                        return None;
                    }
                    dirs += d;
                    files += f;
                },
                None => {
                    return None;
                },
            }
            k += 1;
        }
        if dirs > usize::MAX - level {
            return None;
        }
        Some((dirs, files))
    }

    /// The counts of what the entry `entry` of a directory at `level` gives.
    fn count_entry(
        &self,
        entry: &DirEntry,
        base_dir: &str,
        level: usize,
        Ghost(prefix): Ghost<Seq<char>>,
        is_last: bool,
    ) -> (r: Option<(usize, usize)>)
        ensures
            match r {
                Some((d, f)) => {
                    let lines = entry_walk(
                        self.config(),
                        self.patterns(),
                        *entry,
                        base_dir@,
                        level as nat,
                        prefix,
                        is_last,
                    );
                    d == count_dirs(lines) && f == count_files(lines) && level + d <= usize::MAX
                },
                None => !counts_fit(
                    entry_walk(
                        self.config(),
                        self.patterns(),
                        *entry,
                        base_dir@,
                        level as nat,
                        prefix,
                        is_last,
                    ),
                    level as nat,
                ),
            },
        decreases *entry, 1int,
    {
        let ghost cfg = self.config();
        let ghost pats = self.patterns();
        let ghost line = entry_line(cfg, *entry, level as nat, prefix, is_last);
        let ghost below = if entry.is_dir {
            walk(cfg, pats, *entry, base_dir@, (level + 1) as nat, prefix + indent(cfg, is_last))
        } else {
            Seq::empty()
        };
        proof {
            lemma_lines_add(seq![line], below);
            lemma_one_line(line);
        }
        if entry.is_dir {
            if level == usize::MAX {
                return None;
            }
            match self.count_dir(
                entry,
                base_dir,
                level + 1,
                Ghost(prefix + indent(cfg, is_last)),
            ) {
                Some((d, f)) => Some((d + 1, f)),
                None => None,
            }
        } else {
            Some((0, 1))
        }
    }

    /// Whether `entry`, in a tree based at `base_dir`, is listed.
    pub fn should_include_entry(&self, entry: &DirEntry, base_dir: &str) -> (r: bool)
        ensures
            r == included(self.config(), self.patterns(), *entry, base_dir@),
    {
        let name: Vec<char> = to_chars(entry.name.as_str());
        if !self.config.all && name.len() > 0 && name[0] == '.' {
            return false;
        }
        if self.config.dirs_only && !entry.is_dir {
            return false;
        }
        if self.config.gitignore {
            if name.len() == 4 && name[0] == '.' && name[1] == 'g' && name[2] == 'i' && name[3]
                == 't' {
                assert(name@ =~= git_name());
                return false;
            }
            if self.gitignore.matches(entry.path.as_str(), base_dir, entry.is_dir) {
                return false;
            }
        }
        true
    }

    /// The entry as its line shows it: its full path where the options ask
    /// for that, else its name, a directory's followed by `/`.
    pub fn format_display_name(&self, entry: &DirEntry) -> (s: String)
        ensures
            s@ == display_name(self.config(), *entry),
    {
        if self.config.full_path {
            match &entry.canonical {
                Some(c) => c.clone(),
                None => entry.path.clone(),
            }
        } else {
            let mut s: String = entry.name.clone();
            if entry.is_dir {
                proof {
                    reveal_strlit("/");
                }
                s.append("/");
                assert(s@ =~= entry.name@.push('/'));
            }
            s
        }
    }

    /// The positions of the listed entries among `entries`, ordered by name.
    pub fn listing_of(&self, entries: &Vec<DirEntry>, base_dir: &str) -> (order: Vec<usize>)
        ensures
            order@ == listing(self.config(), self.patterns(), entries@, base_dir@),
            forall|k: int| 0 <= k < order@.len() ==> order@[k] < entries@.len(),
    {
        let mut names: Vec<Vec<char>> = Vec::new();
        let mut i: usize = 0;
        while i < entries.len()
            invariant
                i <= entries@.len(),
                names@.len() == i,
                forall|x: int| 0 <= x < i ==> names@[x]@ == entries@[x].name@,
            decreases entries@.len() - i,
        {
            names.push(to_chars(entries[i].name.as_str()));
            i += 1;
        }
        let mut order: Vec<usize> = Vec::new();
        let mut n: usize = 0;
        while n < entries.len()
            invariant
                n <= entries@.len(),
                names@.len() == entries@.len(),
                forall|x: int| 0 <= x < names@.len() ==> names@[x]@ == entries@[x].name@,
                order@ == listing_upto(
                    self.config(),
                    self.patterns(),
                    entries@,
                    base_dir@,
                    n as int,
                ),
                forall|k: int| 0 <= k < order@.len() ==> order@[k] < n,
                order@.len() <= n,
            decreases entries@.len() - n,
        {
            if self.should_include_entry(&entries[n], base_dir) {
                let mut pos: usize = order.len();
                while pos > 0 && is_less(&names[n], &names[order[pos - 1]])
                    invariant
                        pos <= order@.len(),
                        n < entries@.len(),
                        names@.len() == entries@.len(),
                        forall|x: int| 0 <= x < names@.len() ==> names@[x]@ == entries@[x].name@,
                        forall|k: int| 0 <= k < order@.len() ==> order@[k] < n,
                        insert_at(order@, entries@, entries@[n as int].name@, pos as int)
                            == insert_at(
                            order@,
                            entries@,
                            entries@[n as int].name@,
                            order@.len() as int,
                        ),
                    decreases pos,
                {
                    pos -= 1;
                }
                order.insert(pos, n);
            }
            n += 1;
        }
        order
    }

    /// Lists the directory `dir`, which lies at `level` in the tree based at
    /// `base_dir`: at level 0 its own line, then one line for each listed
    /// entry, led by `prefix` and a connector, a directory followed by the
    /// lines of what it holds. Beyond the depth asked for nothing is listed.
    /// What is listed is added to `stats`.
    ///
    /// Fails where a directory that has to be read could not be, with the
    /// first such failure.
    ///
    /// The counts have to fit in a `usize`, and so has the level of the
    /// deepest directory listed.
    pub fn visit_dir(
        &self,
        dir: &DirEntry,
        base_dir: &str,
        level: usize,
        stats: &mut FileStats,
        prefix: &str,
    ) -> (r: Result<String, TreeError>)
        requires
            level + count_dirs(
                walk(self.config(), self.patterns(), *dir, base_dir@, level as nat, prefix@),
            ) <= usize::MAX,
            old(stats).dirs + count_dirs(
                walk(self.config(), self.patterns(), *dir, base_dir@, level as nat, prefix@),
            ) <= usize::MAX,
            old(stats).files + count_files(
                walk(self.config(), self.patterns(), *dir, base_dir@, level as nat, prefix@),
            ) <= usize::MAX,
        ensures
            match r {
                Ok(text) => {
                    let lines = walk(
                        self.config(),
                        self.patterns(),
                        *dir,
                        base_dir@,
                        level as nat,
                        prefix@,
                    );
                    &&& failure(self.config(), self.patterns(), *dir, base_dir@, level as nat)
                        is None
                    &&& text@ == text_of(lines)
                    &&& final(stats).dirs == old(stats).dirs + count_dirs(lines)
                    &&& final(stats).files == old(stats).files + count_files(lines)
                },
                Err(e) => failure(self.config(), self.patterns(), *dir, base_dir@, level as nat)
                    == Some(e.detail()),
            },
        decreases *dir, 0int,
    {
        let mut output: String = String::new();
        if let Some(m) = self.config.max_depth {
            if level > m {
                return Ok(output);
            }
        }
        if let Some(msg) = &dir.failure {
            return Err(TreeError::Io(msg.clone()));
        }
        let ghost cfg = self.config();
        let ghost pats = self.patterns();
        let ghost all = walk(cfg, pats, *dir, base_dir@, level as nat, prefix@);
        let order: Vec<usize> = self.listing_of(&dir.children, base_dir);
        let ghost body = walk_from(cfg, pats, *dir, order@, 0, base_dir@, level as nat, prefix@);
        proof {
            reveal_strlit("/");
            reveal_strlit("\n");
        }
        if level == 0 {
            let shown: String = if self.config.full_path {
                match &dir.canonical {
                    Some(c) => c.clone(),
                    None => dir.path.clone(),
                }
            } else {
                dir.path.clone()
            };
            proof {
                lemma_one_line(header(cfg, *dir));
                lemma_lines_add(seq![header(cfg, *dir)], body);
            }
            output.append(shown.as_str());
            output.append("/");
            output.append("\n");
            stats.dirs += 1;
            assert(output@ =~= text_of(seq![header(cfg, *dir)]));
        } else {
            assert(all =~= body);
        }
        let n: usize = order.len();
        let mut k: usize = 0;
        while k < n
            invariant
                k <= n,
                n == order@.len(),
                cfg == self.config(),
                pats == self.patterns(),
                forall|x: int| 0 <= x < order@.len() ==> order@[x] < dir.children@.len(),
                stats.dirs >= old(stats).dirs,
                level + count_dirs(all) <= usize::MAX,
                stats.dirs + count_dirs(
                    walk_from(cfg, pats, *dir, order@, k as int, base_dir@, level as nat, prefix@),
                ) == old(stats).dirs + count_dirs(all),
                stats.files + count_files(
                    walk_from(cfg, pats, *dir, order@, k as int, base_dir@, level as nat, prefix@),
                ) == old(stats).files + count_files(all),
                old(stats).dirs + count_dirs(all) <= usize::MAX,
                old(stats).files + count_files(all) <= usize::MAX,
                output@ + text_of(
                    walk_from(cfg, pats, *dir, order@, k as int, base_dir@, level as nat, prefix@),
                ) == text_of(all),
                failure_from(cfg, pats, *dir, order@, k as int, base_dir@, level as nat)
                    == failure(cfg, pats, *dir, base_dir@, level as nat),
            decreases n - k,
        {
            let entry: &DirEntry = &dir.children[order[k]];
            let is_last: bool = k == n - 1;
            let ghost here = entry_walk(
                cfg,
                pats,
                *entry,
                base_dir@,
                level as nat,
                prefix@,
                is_last,
            );
            let ghost rest = walk_from(
                cfg,
                pats,
                *dir,
                order@,
                k + 1,
                base_dir@,
                level as nat,
                prefix@,
            );
            let ghost before = output@;
            proof {
                lemma_lines_add(here, rest);
            }
            match self.visit_entry(entry, base_dir, level, stats, prefix, is_last) {
                Ok(text) => {
                    output.append(text.as_str());
                },
                Err(e) => {
                    return Err(e);
                },
            }
            assert(before + text_of(here) + text_of(rest) =~= before + (text_of(here) + text_of(
                rest,
            )));
            k += 1;
        }
        assert(output@ + Seq::<char>::empty() =~= output@);
        Ok(output)
    }

    /// Lists the entry `entry` of a directory at `level`: its line, led by
    /// `prefix` and a connector, and, for a directory, the lines of what it
    /// holds, with the prefix grown by one step. `is_last` says whether it is
    /// the last entry listed of its directory. What is listed is added to
    /// `stats`.
    pub fn visit_entry(
        &self,
        entry: &DirEntry,
        base_dir: &str,
        level: usize,
        stats: &mut FileStats,
        prefix: &str,
        is_last: bool,
    ) -> (r: Result<String, TreeError>)
        requires
            level + count_dirs(
                entry_walk(
                    self.config(),
                    self.patterns(),
                    *entry,
                    base_dir@,
                    level as nat,
                    prefix@,
                    is_last,
                ),
            ) <= usize::MAX,
            old(stats).dirs + count_dirs(
                entry_walk(
                    self.config(),
                    self.patterns(),
                    *entry,
                    base_dir@,
                    level as nat,
                    prefix@,
                    is_last,
                ),
            ) <= usize::MAX,
            old(stats).files + count_files(
                entry_walk(
                    self.config(),
                    self.patterns(),
                    *entry,
                    base_dir@,
                    level as nat,
                    prefix@,
                    is_last,
                ),
            ) <= usize::MAX,
        ensures
            match r {
                Ok(text) => {
                    let lines = entry_walk(
                        self.config(),
                        self.patterns(),
                        *entry,
                        base_dir@,
                        level as nat,
                        prefix@,
                        is_last,
                    );
                    &&& entry_failure(
                        self.config(),
                        self.patterns(),
                        *entry,
                        base_dir@,
                        level as nat,
                    ) is None
                    &&& text@ == text_of(lines)
                    &&& final(stats).dirs == old(stats).dirs + count_dirs(lines)
                    &&& final(stats).files == old(stats).files + count_files(lines)
                    &&& final(stats).dirs >= old(stats).dirs
                },
                Err(e) => entry_failure(
                    self.config(),
                    self.patterns(),
                    *entry,
                    base_dir@,
                    level as nat,
                ) == Some(e.detail()),
            },
        decreases *entry, 1int,
    {
        let ghost cfg = self.config();
        let ghost pats = self.patterns();
        let joint: &str = if self.config.no_indent {
            ""
        } else if is_last {
            "└── "
        } else {
            "├── "
        };
        let step: &str = if self.config.no_indent {
            ""
        } else if is_last {
            "    "
        } else {
            "│   "
        };
        let ghost line = entry_line(cfg, *entry, level as nat, prefix@, is_last);
        let ghost below = if entry.is_dir {
            walk(cfg, pats, *entry, base_dir@, (level + 1) as nat, prefix@ + indent(cfg, is_last))
        } else {
            Seq::empty()
        };
        proof {
            reveal_strlit("");
            reveal_strlit("\n");
            assert(joint@ =~= connector(cfg, is_last));
            assert(step@ =~= indent(cfg, is_last));
            lemma_lines_add(seq![line], below);
            lemma_one_line(line);
        }
        let shown: String = self.format_display_name(entry);
        let mut output: String = String::from_str(prefix);
        output.append(joint);
        output.append(shown.as_str());
        output.append("\n");
        assert(output@ =~= text_of(seq![line]));
        if entry.is_dir {
            stats.dirs += 1;
            let mut child_prefix: String = String::from_str(prefix);
            child_prefix.append(step);
            match self.visit_dir(entry, base_dir, level + 1, stats, child_prefix.as_str()) {
                Ok(child) => {
                    output.append(child.as_str());
                },
                Err(e) => {
                    return Err(e);
                },
            }
        } else {
            stats.files += 1;
            assert(output@ + text_of(below) =~= output@);
        }
        Ok(output)
    }
}

} // verus!
