use vstd::prelude::*;

use crate::cache::{
    copy_bindings, entry_views, CacheFile, CacheFileView, FileEntry, FileEntryView, CACHE_VERSION,
};
use crate::matcher::BindingIndex;
use crate::text::{chars_of, str_eq};
use crate::parser::{binding_views, bindings_in_source, parse_bindings, Binding, BindingView};

verus! {

/// Counters of one index build.
#[derive(Debug, Clone, Copy)]
pub struct BuildStats {
    pub files_scanned: usize,
    pub files_reparsed: usize,
    pub files_from_cache: usize,
    pub bindings_total: usize,
}

impl Default for BuildStats {
    fn default() -> (r: Self)
        ensures
            r.files_scanned == 0,
            r.files_reparsed == 0,
            r.files_from_cache == 0,
            r.bindings_total == 0,
    {
        BuildStats { files_scanned: 0, files_reparsed: 0, files_from_cache: 0, bindings_total: 0 }
    }
}

/// The persistent step-binding index for one root directory.
///
/// Built by an [`IndexBuilder`]; query via [`Index::into_query`] (or
/// [`Index::bindings`] for read-only access).
pub struct Index {
    pub bindings: Vec<Binding>,
    pub stats: BuildStats,
}

impl Index {
    pub fn into_query(self) -> (r: BindingIndex)
        ensures
            r@ == binding_views(self.bindings@),
    {
        BindingIndex::build(self.bindings)
    }

    pub fn bindings(&self) -> (r: &[Binding])
        ensures
            r@ == self.bindings@,
    {
        self.bindings.as_slice()
    }
}

/// The entry that a cache holds for `file`: the last one under that name,
/// as when the entries are collected into a map.
pub open spec fn cached_entry(entries: Seq<(Seq<char>, FileEntryView)>, file: Seq<char>) -> Option<
    FileEntryView,
>
    decreases entries.len(),
{
    if entries.len() == 0 {
        None
    } else if entries.last().0 == file {
        Some(entries.last().1)
    } else {
        cached_entry(entries.drop_last(), file)
    }
}

/// The entry for `file` can be reused: it exists and its modification time
/// and size are those the file has now.
pub open spec fn reusable(
    entries: Seq<(Seq<char>, FileEntryView)>,
    file: Seq<char>,
    mtime_ns: i128,
    size: u64,
) -> bool {
    cached_entry(entries, file) matches Some(e) && e.mtime_ns == mtime_ns && e.size == size
}

/// All bindings of a list of entries, file after file.
pub open spec fn all_bindings(entries: Seq<(Seq<char>, FileEntryView)>) -> Seq<BindingView>
    decreases entries.len(),
{
    if entries.len() == 0 {
        Seq::empty()
    } else {
        all_bindings(entries.drop_last()) + entries.last().1.bindings
    }
}

pub struct IndexBuilderView {
    pub prior: Seq<(Seq<char>, FileEntryView)>,
    pub entries: Seq<(Seq<char>, FileEntryView)>,
    pub bindings: Seq<BindingView>,
    pub stats: BuildStats,
}

/// The decisions of an index build, one source file at a time.
///
/// The caller walks the source tree; for each file it asks [`visit_cached`]
/// whether the prior cache still holds the file's bindings, and reads and
/// hands over the file's text (to [`record_parsed`]) only when it does not.
/// [`finish`] yields the index and the cache to persist.
///
/// [`visit_cached`]: IndexBuilder::visit_cached
/// [`record_parsed`]: IndexBuilder::record_parsed
/// [`finish`]: IndexBuilder::finish
pub struct IndexBuilder {
    prior: Vec<(String, FileEntry)>,
    entries: Vec<(String, FileEntry)>,
    bindings: Vec<Binding>,
    stats: BuildStats,
}

impl View for IndexBuilder {
    type V = IndexBuilderView;

    closed spec fn view(&self) -> IndexBuilderView {
        IndexBuilderView {
            prior: entry_views(self.prior@),
            entries: entry_views(self.entries@),
            bindings: binding_views(self.bindings@),
            stats: self.stats,
        }
    }
}

impl IndexBuilder {
    /// The bindings are those of the entries so far, every entry came either
    /// from the cache or from a parse, and no more files were visited than
    /// were scanned.
    pub closed spec fn consistent(self) -> bool {
        &&& binding_views(self.bindings@) == all_bindings(entry_views(self.entries@))
        &&& self.stats.files_reparsed + self.stats.files_from_cache == self.entries@.len()
        &&& self.entries@.len() <= self.stats.files_scanned
        &&& self.stats.bindings_total == 0
    }

    /// The builder is consistent and may still record another file.
    pub closed spec fn visits_left(self) -> bool {
        self.consistent() && self.entries@.len() < self.stats.files_scanned
    }

    /// Starts a build over `files_scanned` source files, with the entries of
    /// a prior cache, if one was loaded.
    pub fn new(prior: Option<CacheFile>, files_scanned: usize) -> (r: Self)
        ensures
            r@.prior == (match prior {
                Some(c) => c@.entries,
                None => Seq::empty(),
            }),
            r@.entries.len() == 0,
            r@.bindings.len() == 0,
            r@.stats == (BuildStats {
                files_scanned,
                files_reparsed: 0,
                files_from_cache: 0,
                bindings_total: 0,
            }),
            r.consistent(),
            r.visits_left() <==> files_scanned > 0,
    {
        let prior = match prior {
            Some(c) => c.entries,
            None => Vec::new(),
        };
        let r = IndexBuilder {
            prior,
            entries: Vec::new(),
            bindings: Vec::new(),
            stats: BuildStats {
                files_scanned,
                files_reparsed: 0,
                files_from_cache: 0,
                bindings_total: 0,
            },
        };
        assert(entry_views(r.entries@) =~= Seq::<(Seq<char>, FileEntryView)>::empty());
        assert(binding_views(r.bindings@) =~= Seq::<BindingView>::empty());
        r
    }

    /// The index of the entry that `cached_entry` picks, if any.
    fn lookup(&self, file: &String) -> (r: Option<usize>)
        ensures
            match r {
                Some(j) => j < self.prior@.len() && cached_entry(self@.prior, file@) == Some(
                    self@.prior[j as int].1,
                ),
                None => cached_entry(self@.prior, file@) is None,
            },
    {
        let ghost p = self@.prior;
        let mut j: usize = self.prior.len();
        assert(p.take(j as int) =~= p);
        while j > 0
            invariant
                j <= self.prior@.len(),
                p == entry_views(self.prior@),
                cached_entry(p, file@) == cached_entry(p.take(j as int), file@),
            decreases j,
        {
            let ghost pj = p.take(j as int);
            assert(pj.drop_last() =~= p.take(j - 1));
            if self.prior[j - 1].0 == *file {
                return Some(j - 1);
            }
            j = j - 1;
        }
        None
    }

    /// Records the cached entry for `file` when the prior cache holds one with
    /// the same modification time and size, and says whether it did. When it
    /// did not, nothing changes and the caller parses the file with
    /// [`record_parsed`](Self::record_parsed).
    pub fn visit_cached(&mut self, file: String, mtime_ns: i128, size: u64) -> (r: bool)
        requires
            old(self).visits_left(),
        ensures
            r == reusable(old(self)@.prior, file@, mtime_ns, size),
            final(self)@.prior == old(self)@.prior,
            r ==> {
                let e = cached_entry(old(self)@.prior, file@)->0;
                &&& final(self)@.entries == old(self)@.entries.push((file@, e))
                &&& final(self)@.bindings == old(self)@.bindings + e.bindings
                &&& final(self)@.stats == (BuildStats {
                    files_from_cache: (old(self)@.stats.files_from_cache + 1) as usize,
                    ..old(self)@.stats
                })
            },
            !r ==> final(self)@ == old(self)@,
            final(self).consistent(),
            final(self).visits_left() <==> (final(self)@.entries.len()
                < final(self)@.stats.files_scanned),
    {
        let j = match self.lookup(&file) {
            Some(j) => j,
            None => return false,
        };
        let cached = &self.prior[j].1;
        if cached.mtime_ns != mtime_ns || cached.size != size {
            return false;
        }
        let entry = cached.clone();
        let ghost e = entry@;
        let extra = copy_bindings(entry.bindings.as_slice());
        self.add(file, entry, extra, true);
        true
    }

    /// Parses the text of `file` and records its bindings under the file's
    /// current modification time and size.
    pub fn record_parsed(&mut self, file: String, mtime_ns: i128, size: u64, source: &str)
        requires
            old(self).visits_left(),
        ensures
            ({
                let e = FileEntryView {
                    mtime_ns,
                    size,
                    bindings: bindings_in_source(source@, file@),
                };
                &&& final(self)@.prior == old(self)@.prior
                &&& final(self)@.entries == old(self)@.entries.push((file@, e))
                &&& final(self)@.bindings == old(self)@.bindings + e.bindings
                &&& final(self)@.stats == (BuildStats {
                    files_reparsed: (old(self)@.stats.files_reparsed + 1) as usize,
                    ..old(self)@.stats
                })
            }),
            final(self).consistent(),
            final(self).visits_left() <==> (final(self)@.entries.len()
                < final(self)@.stats.files_scanned),
    {
        let parsed = parse_bindings(source, file.as_str());
        let extra = copy_bindings(parsed.as_slice());
        let entry = FileEntry { mtime_ns, size, bindings: parsed };
        self.add(file, entry, extra, false);
    }

    fn add(&mut self, file: String, entry: FileEntry, extra: Vec<Binding>, from_cache: bool)
        requires
            old(self).visits_left(),
            binding_views(extra@) == entry@.bindings,
        ensures
            final(self)@.prior == old(self)@.prior,
            final(self)@.entries == old(self)@.entries.push((file@, entry@)),
            final(self)@.bindings == old(self)@.bindings + entry@.bindings,
            final(self)@.stats == (if from_cache {
                BuildStats {
                    files_from_cache: (old(self)@.stats.files_from_cache + 1) as usize,
                    ..old(self)@.stats
                }
            } else {
                BuildStats {
                    files_reparsed: (old(self)@.stats.files_reparsed + 1) as usize,
                    ..old(self)@.stats
                }
            }),
            final(self).consistent(),
            final(self).visits_left() <==> (final(self)@.entries.len()
                < final(self)@.stats.files_scanned),
    {
        let ghost old_entries = entry_views(self.entries@);
        let ghost old_bindings = binding_views(self.bindings@);
        let mut extra = extra;
        let mut entries: Vec<(String, FileEntry)> = Vec::new();
        std::mem::swap(&mut entries, &mut self.entries);
        let mut bindings: Vec<Binding> = Vec::new();
        std::mem::swap(&mut bindings, &mut self.bindings);
        entries.push((file, entry));
        bindings.append(&mut extra);
        let mut stats = self.stats;
        if from_cache {
            stats.files_from_cache = stats.files_from_cache + 1;
        } else {
            stats.files_reparsed = stats.files_reparsed + 1;
        }
        proof {
            assert(entry_views(entries@) =~= old_entries.push((file@, entry@)));
            assert(entry_views(entries@).drop_last() =~= old_entries);
            assert(binding_views(bindings@) =~= old_bindings + entry@.bindings);
        }
        let mut prior: Vec<(String, FileEntry)> = Vec::new();
        std::mem::swap(&mut prior, &mut self.prior);
        *self = IndexBuilder { prior, entries, bindings, stats };
    }

    /// The index of every binding recorded, file after file, and the cache
    /// that holds every entry recorded, under the current schema version.
    pub fn finish(self) -> (r: (Index, CacheFile))
        requires
            self.consistent(),
        ensures
            binding_views(r.0.bindings@) == all_bindings(self@.entries),
            binding_views(r.0.bindings@) == self@.bindings,
            r.0.stats == (BuildStats { bindings_total: r.0.bindings@.len() as usize, ..self@.stats }),
            r.1@ == (CacheFileView { version: CACHE_VERSION, entries: self@.entries }),
            r.0.stats.files_reparsed + r.0.stats.files_from_cache == r.1@.entries.len(),
            r.1@.entries.len() <= r.0.stats.files_scanned,
    {
        let IndexBuilder { prior: _, entries, bindings, stats } = self;
        let total = bindings.len();
        let stats = BuildStats { bindings_total: total, ..stats };
        (Index { bindings, stats }, CacheFile { version: CACHE_VERSION, entries })
    }
}

/// The directory names that the source walker never descends into: build
/// output and version-control or editor metadata.
pub open spec fn skipped_dir_name(name: Seq<char>) -> bool {
    ||| name == ".git"@
    ||| name == "target"@
    ||| name == "bin"@
    ||| name == "obj"@
    ||| name == "node_modules"@
    ||| name == "packages"@
    ||| name == ".vs"@
    ||| name == ".vscode"@
    ||| name == ".idea"@
}

/// The walker enters a directory unless its name is skipped or hidden
/// (starts with a dot, other than ".").
pub open spec fn enters_dir(name: Seq<char>) -> bool {
    !skipped_dir_name(name) && !(name.len() > 0 && name[0] == '.' && name != "."@)
}

/// Whether the source walker descends into a directory of this name.
pub fn descend_into(name: &str) -> (r: bool)
    ensures
        r == enters_dir(name@),
{
    if str_eq(name, ".git") || str_eq(name, "target") || str_eq(name, "bin") || str_eq(name, "obj")
        || str_eq(name, "node_modules") || str_eq(name, "packages") || str_eq(name, ".vs")
        || str_eq(name, ".vscode") || str_eq(name, ".idea") {
        return false;
    }
    // Skip hidden dirs except `.` and `..` (already filtered by read_dir).
    let cs = chars_of(name);
    if cs.len() > 0 && cs[0] == '.' && !str_eq(name, ".") {
        return false;
    }
    true
}

/// A file name whose extension is `cs`: it ends with ".cs" and something
/// stands before that dot (a name such as ".cs" has no extension).
pub open spec fn is_source_name(name: Seq<char>) -> bool {
    name.len() >= 4 && name.subrange(name.len() - 3, name.len() as int) == ".cs"@
}

/// Whether the source walker collects a file of this name.
pub fn is_source_file(name: &str) -> (r: bool)
    ensures
        r == is_source_name(name@),
{
    proof {
        reveal_strlit(".cs");
    }
    let cs = chars_of(name);
    let n = cs.len();
    if n < 4 {
        return false;
    }
    let r = cs[n - 3] == '.' && cs[n - 2] == 'c' && cs[n - 1] == 's';
    proof {
        let tail = name@.subrange(n - 3, n as int);
        if r {
            assert(tail =~= ".cs"@);
        } else {
            assert(tail[0] != '.' || tail[1] != 'c' || tail[2] != 's');
            assert(".cs"@[0] == '.' && ".cs"@[1] == 'c' && ".cs"@[2] == 's');
        }
    }
    r
}

/// The modification time recorded in the cache, in nanoseconds relative to
/// the Unix epoch: `Ok(n)` is `n` after it, `Err(n)` is `n` before it, and no
/// time at all counts as 0. Like the `as` cast it stands for, a count beyond
/// `i128` wraps around.
pub fn mtime_ns(since_epoch: Option<Result<u128, u128>>) -> (r: i128)
    requires
        since_epoch matches Some(Err(n)) ==> n as i128 != i128::MIN,
    ensures
        r == match since_epoch {
            Some(Ok(n)) => (n as i128) as int,
            Some(Err(n)) => -((n as i128) as int),
            None => 0int,
        },
{
    match since_epoch {
        Some(Ok(n)) => n as i128,
        Some(Err(n)) => -(n as i128),
        None => 0,
    }
}

// ---- laws -----------------------------------------------------------------

/// The cache gives back, for a file, the entry last recorded under its name;
/// recording another file leaves what it gives for this one unchanged.
pub proof fn law_cache_read_after_write(
    entries: Seq<(Seq<char>, FileEntryView)>,
    file: Seq<char>,
    other: Seq<char>,
    e: FileEntryView,
)
    ensures
        cached_entry(entries.push((file, e)), file) == Some(e),
        other != file ==> cached_entry(entries.push((other, e)), file) == cached_entry(
            entries,
            file,
        ),
{
    assert(entries.push((file, e)).drop_last() =~= entries);
    assert(entries.push((other, e)).drop_last() =~= entries);
}

/// A file whose modification time and size are those its cached entry was
/// recorded with is taken from the cache; a change to either of them makes
/// the build parse it again.
pub proof fn law_reuse_only_unchanged(
    entries: Seq<(Seq<char>, FileEntryView)>,
    file: Seq<char>,
    e: FileEntryView,
    mtime_ns: i128,
    size: u64,
)
    requires
        cached_entry(entries, file) == Some(e),
    ensures
        reusable(entries, file, e.mtime_ns, e.size),
        (mtime_ns != e.mtime_ns || size != e.size) ==> !reusable(entries, file, mtime_ns, size),
{
}

/// The bindings of two lists of entries, one after the other, are those of
/// the first followed by those of the second.
pub proof fn law_all_bindings_append(
    a: Seq<(Seq<char>, FileEntryView)>,
    b: Seq<(Seq<char>, FileEntryView)>,
)
    ensures
        all_bindings(a + b) == all_bindings(a) + all_bindings(b),
    decreases b.len(),
{
    if b.len() == 0 {
        assert(a + b =~= a);
        assert(all_bindings(b) =~= Seq::<BindingView>::empty());
        assert(all_bindings(a) + all_bindings(b) =~= all_bindings(a));
    } else {
        law_all_bindings_append(a, b.drop_last());
        assert((a + b).drop_last() =~= a + b.drop_last());
        assert((a + b).last() == b.last());
        assert(all_bindings(a) + all_bindings(b) =~= all_bindings(a) + all_bindings(b.drop_last())
            + b.last().1.bindings);
    }
}

/// No file is named twice.
pub open spec fn names_distinct(entries: Seq<(Seq<char>, FileEntryView)>) -> bool {
    forall|a: int, b: int| 0 <= a < b < entries.len() ==> (#[trigger] entries[a]).0 != (
    #[trigger] entries[b]).0
}

proof fn lemma_cached_entry_at(entries: Seq<(Seq<char>, FileEntryView)>, i: int)
    requires
        names_distinct(entries),
        0 <= i < entries.len(),
    ensures
        cached_entry(entries, entries[i].0) == Some(entries[i].1),
    decreases entries.len(),
{
    if i < entries.len() - 1 {
        let p = entries.drop_last();
        assert(entries[i].0 != entries[entries.len() - 1].0);
        assert(p[i] == entries[i]);
        assert(names_distinct(p)) by {
            assert forall|a: int, b: int| 0 <= a < b < p.len() implies (#[trigger] p[a]).0 != (
            #[trigger] p[b]).0 by {
                assert(p[a] == entries[a]);
                assert(p[b] == entries[b]);
            }
        }
        lemma_cached_entry_at(p, i);
    }
}

/// Building again over the same files, none of them changed since the cache
/// was written, takes every file from the cache: each file's recorded time
/// and size make it reusable, the cache gives back its entry, and so the
/// rebuilt entries, and with them the bindings, are those of the cache.
pub proof fn law_rebuild_reuses_every_file(entries: Seq<(Seq<char>, FileEntryView)>)
    requires
        names_distinct(entries),
    ensures
        forall|i: int|
            0 <= i < entries.len() ==> reusable(
                entries,
                (#[trigger] entries[i]).0,
                entries[i].1.mtime_ns,
                entries[i].1.size,
            ) && cached_entry(entries, entries[i].0) == Some(entries[i].1),
        entries.map_values(
            |e: (Seq<char>, FileEntryView)| (e.0, cached_entry(entries, e.0)->0),
        ) == entries,
{
    assert forall|i: int| 0 <= i < entries.len() implies reusable(
        entries,
        (#[trigger] entries[i]).0,
        entries[i].1.mtime_ns,
        entries[i].1.size,
    ) && cached_entry(entries, entries[i].0) == Some(entries[i].1) by {
        lemma_cached_entry_at(entries, i);
    }
    assert(entries.map_values(
        |e: (Seq<char>, FileEntryView)| (e.0, cached_entry(entries, e.0)->0),
    ) =~= entries);
}

/// The walker enters every directory except the nine skipped names and the
/// hidden ones: a name that does not start with '.' and is none of "target",
/// "bin", "obj", "node_modules" and "packages" is entered, whatever else it
/// holds (dots included); ".git", ".vs", ".vscode", ".idea" and any other name
/// that starts with '.' (but "." itself) are not, nor are the five above.
pub proof fn law_walker_enters_ordinary_dirs(name: Seq<char>)
    ensures
        !(name.len() > 0 && name[0] == '.') && name != "target"@ && name != "bin"@ && name
            != "obj"@ && name != "node_modules"@ && name != "packages"@ ==> enters_dir(name),
        name.len() > 0 && name[0] == '.' && name != "."@ ==> !enters_dir(name),
        name == "target"@ || name == "bin"@ || name == "obj"@ || name == "node_modules"@ || name
            == "packages"@ ==> !enters_dir(name),
{
    reveal_strlit(".git");
    reveal_strlit(".vs");
    reveal_strlit(".vscode");
    reveal_strlit(".idea");
    assert(".git"@[0] == '.');
    assert(".vs"@[0] == '.');
    assert(".vscode"@[0] == '.');
    assert(".idea"@[0] == '.');
}

} // verus!
