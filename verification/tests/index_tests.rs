//! The index-building decisions, driven the way the directory walker drives
//! them: one visit per source file, with the file's modification time and
//! size, and its text only when the cache cannot serve it.

use specflow_helper::cache::{
    accept_cache, cache_file_name, cache_location, CacheFile, CACHE_VERSION,
};
use specflow_helper::index::{descend_into, is_source_file, mtime_ns};
use specflow_helper::{Index, IndexBuilder, StepKind};

const SAMPLE_CS: &str = r#"
using TechTalk.SpecFlow;
namespace X {
    [Binding] public class S {
        [Given(@"I do '(.*)'")]
        public void Foo(string x) { }
        [When(@"I press (\d+)")]
        public void Bar(int n) { }
    }
}
"#;

const B_CS: &str = "[Then(@\"it works\")] public void X() {}";

/// One source file as the walker sees it.
struct File<'a> {
    path: &'a str,
    mtime: i128,
    text: &'a str,
}

fn build(files: &[File], cache: Option<CacheFile>) -> (Index, CacheFile) {
    let mut builder = IndexBuilder::new(cache, files.len());
    for f in files {
        let size = f.text.len() as u64;
        if !builder.visit_cached(f.path.to_string(), f.mtime, size) {
            builder.record_parsed(f.path.to_string(), f.mtime, size, f.text);
        }
    }
    builder.finish()
}

#[test]
fn cache_round_trip_skips_unchanged_files() {
    let files = [
        File { path: "A.cs", mtime: 10, text: SAMPLE_CS },
        File { path: "B.cs", mtime: 11, text: B_CS },
    ];
    let (first, cache) = build(&files, None);
    assert_eq!(first.stats.files_reparsed, 2);
    assert_eq!(first.stats.files_from_cache, 0);
    assert_eq!(cache.version, CACHE_VERSION);
    assert_eq!(cache.entries.len(), 2);

    let (second, _) = build(&files, Some(cache));
    assert_eq!(second.stats.files_reparsed, 0);
    assert_eq!(second.stats.files_from_cache, 2);
    assert_eq!(second.bindings.len(), first.bindings.len());
}

#[test]
fn cache_reparses_changed_file_only() {
    let mut updated = SAMPLE_CS.to_string();
    updated.push_str("[Given(@\"a new step\")] public void Z() {}");
    let (_, cache) = build(
        &[
            File { path: "A.cs", mtime: 10, text: SAMPLE_CS },
            File { path: "B.cs", mtime: 11, text: B_CS },
        ],
        None,
    );
    let (second, _) = build(
        &[
            File { path: "A.cs", mtime: 20, text: &updated },
            File { path: "B.cs", mtime: 11, text: B_CS },
        ],
        Some(cache),
    );
    assert_eq!(second.stats.files_reparsed, 1, "only A.cs should reparse");
    assert_eq!(second.stats.files_from_cache, 1, "B.cs should be cached");
    assert_eq!(second.bindings.len(), 4);
}

#[test]
fn cache_picks_up_new_file() {
    let a = File { path: "A.cs", mtime: 10, text: SAMPLE_CS };
    let (first, cache) = build(&[File { ..a }], None);
    assert_eq!(first.bindings.len(), 2);
    let c = File { path: "C.cs", mtime: 12, text: "[Given(@\"brand new\")] public void Q() {}" };
    let (second, _) = build(&[File { path: "A.cs", mtime: 10, text: SAMPLE_CS }, c], Some(cache));
    assert_eq!(second.stats.files_reparsed, 1);
    assert_eq!(second.stats.files_from_cache, 1);
    assert_eq!(second.bindings.len(), 3);
}

#[test]
fn cache_drops_deleted_file() {
    let (_, cache) = build(
        &[
            File { path: "A.cs", mtime: 10, text: SAMPLE_CS },
            File { path: "B.cs", mtime: 11, text: B_CS },
        ],
        None,
    );
    let (second, cache2) = build(&[File { path: "B.cs", mtime: 11, text: B_CS }], Some(cache));
    assert_eq!(second.stats.files_scanned, 1);
    assert_eq!(second.bindings.len(), 1);
    assert_eq!(cache2.entries.len(), 1);
}

#[test]
fn skips_build_output_dirs() {
    for skipped in [
        ".git", "target", "bin", "obj", "node_modules", "packages", ".vs", ".vscode", ".idea",
        ".hidden",
    ] {
        assert!(!descend_into(skipped), "{skipped}");
    }
    for entered in ["Tests", "sub", ".", "Release", "binaries", "git"] {
        assert!(descend_into(entered), "{entered}");
    }
}

#[test]
fn query_layer_filters_by_step_kind() {
    let (idx, _) = build(&[File { path: "S.cs", mtime: 1, text: SAMPLE_CS }], None);
    let q = idx.into_query();
    assert!(q.find("I press 7", Some(StepKind::When)).is_some());
    assert!(q.find("I press 7", Some(StepKind::Given)).is_none());
    assert!(q.find("I press 7", None).is_some());
}

#[test]
fn default_cache_path_includes_root_hash() {
    let a = cache_file_name(0x0123_4567_89ab_cdef);
    let b = cache_file_name(0x0123_4567_89ab_cdee);
    assert_ne!(a, b, "different roots must produce different cache files");
    assert!(a.ends_with(".json"));
    assert_eq!(a, "0123456789abcdef.json");
    assert_eq!(cache_file_name(0), "0000000000000000.json");
    assert_eq!(cache_file_name(u64::MAX), "ffffffffffffffff.json");
}

// ---- further cases -------------------------------------------------------

#[test]
fn stats_and_bindings_follow_visit_order() {
    let (idx, cache) = build(
        &[
            File { path: "B.cs", mtime: 1, text: B_CS },
            File { path: "A.cs", mtime: 2, text: SAMPLE_CS },
        ],
        None,
    );
    assert_eq!(idx.stats.files_scanned, 2);
    assert_eq!(idx.stats.bindings_total, 3);
    assert_eq!(idx.bindings().len(), 3);
    assert_eq!(idx.bindings[0].pattern, "it works");
    assert_eq!(idx.bindings[1].pattern, "I do '(.*)'");
    assert_eq!(idx.bindings[1].file, "A.cs");
    assert_eq!(cache.entries[0].0, "B.cs");
    assert_eq!(cache.entries[1].1.mtime_ns, 2);
    assert_eq!(cache.entries[1].1.size, SAMPLE_CS.len() as u64);
}

#[test]
fn same_size_but_new_mtime_reparses() {
    let (_, cache) = build(&[File { path: "A.cs", mtime: 5, text: B_CS }], None);
    let (second, _) = build(&[File { path: "A.cs", mtime: 6, text: B_CS }], Some(cache));
    assert_eq!(second.stats.files_reparsed, 1);
    assert_eq!(second.stats.files_from_cache, 0);
}

#[test]
fn later_cache_entry_for_a_file_wins() {
    let (_, mut cache) = build(&[File { path: "A.cs", mtime: 5, text: B_CS }], None);
    let (_, later) = build(&[File { path: "A.cs", mtime: 6, text: SAMPLE_CS }], None);
    cache.entries.extend(later.entries);
    let (second, _) = build(&[File { path: "A.cs", mtime: 6, text: SAMPLE_CS }], Some(cache));
    assert_eq!(second.stats.files_from_cache, 1);
    assert_eq!(second.bindings.len(), 2);
}

#[test]
fn cache_with_another_version_is_refused() {
    let (_, cache) = build(&[File { path: "A.cs", mtime: 5, text: B_CS }], None);
    assert!(accept_cache(cache).is_some());
    let old = CacheFile { version: 7, entries: Vec::new() };
    assert!(accept_cache(old).is_none());
    assert_eq!(CacheFile::default().version, 0);
}

#[test]
fn mtime_is_signed_nanoseconds() {
    assert_eq!(mtime_ns(None), 0);
    assert_eq!(mtime_ns(Some(Ok(1_500))), 1_500);
    assert_eq!(mtime_ns(Some(Err(42))), -42);
}

/// The source files of a tree that the walker reaches: every `.cs` file none
/// of whose directories the walker skips.
fn reached<'a>(tree: &[File<'a>]) -> Vec<File<'a>> {
    tree.iter()
        .filter(|f| {
            let parts: Vec<&str> = f.path.split('/').collect();
            is_source_file(parts[parts.len() - 1])
                && parts[..parts.len() - 1].iter().all(|d| descend_into(d))
        })
        .map(|f| File { path: f.path, mtime: f.mtime, text: f.text })
        .collect()
}

#[test]
fn builds_index_from_directory_tree() {
    let tree = [
        File { path: "Tests/Foo.cs", mtime: 1, text: SAMPLE_CS },
        File { path: "Tests/sub/Bar.cs", mtime: 2, text: "[Then(@\"it works\")] public void X() {}" },
    ];
    let files = reached(&tree);
    let (idx, _) = build(&files, None);
    assert_eq!(idx.bindings.len(), 3);
    assert_eq!(idx.stats.files_scanned, 2);
    assert_eq!(idx.stats.files_reparsed, 2);
    assert_eq!(idx.stats.files_from_cache, 0);
}

#[test]
fn only_files_with_the_cs_extension_are_sources() {
    for name in ["Foo.cs", "a.b.cs", "..cs", "x.cs"] {
        assert!(is_source_file(name), "{name}");
    }
    for name in [".cs", "cs", "Foo.CS", "Foo.cs.bak", "Foo.csx", "Foo.", "Foocs", ""] {
        assert!(!is_source_file(name), "{name}");
    }
}

#[test]
fn rebuild_over_unchanged_files_takes_every_file_from_the_cache() {
    let files = [
        File { path: "A.cs", mtime: 10, text: SAMPLE_CS },
        File { path: "sub/B.cs", mtime: 11, text: B_CS },
        File { path: "sub/C.cs", mtime: 12, text: "" },
    ];
    let (first, cache) = build(&files, None);
    let (second, cache2) = build(&files, Some(cache));
    assert_eq!(second.stats.files_reparsed, 0);
    assert_eq!(second.stats.files_from_cache, 3);
    assert_eq!(second.stats.files_scanned, first.stats.files_scanned);
    let view = |idx: &Index| -> Vec<(String, usize, String)> {
        idx.bindings.iter().map(|b| (b.file.clone(), b.line, b.pattern.clone())).collect()
    };
    assert_eq!(view(&second), view(&first));
    let names: Vec<&str> = cache2.entries.iter().map(|(n, _)| n.as_str()).collect();
    assert_eq!(names, vec!["A.cs", "sub/B.cs", "sub/C.cs"]);
}

#[test]
fn cache_location_follows_the_environment() {
    let name = "00000000000000ff.json".to_string();
    let (base, parts) = cache_location(Some("/x/cache"), Some("/home/u"), 0xff);
    assert_eq!(base, Some("/x/cache"));
    assert_eq!(parts, vec!["vim-specflow".to_string(), name.clone()]);
    let (base, parts) = cache_location(None, Some("/home/u"), 0xff);
    assert_eq!(base, Some("/home/u"));
    assert_eq!(parts, vec![".cache".to_string(), "vim-specflow".to_string(), name.clone()]);
    let (base, parts) = cache_location::<&str>(None, None, 0xff);
    assert_eq!(base, None);
    assert_eq!(parts, vec![".cache".to_string(), "vim-specflow".to_string(), name]);
}
