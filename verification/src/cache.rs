use vstd::prelude::*;

use crate::parser::{binding_views, Binding, BindingView};
use crate::text::{push_str, string_of};
use vstd::arithmetic::div_mod::{lemma_breakdown, lemma_small_mod};
use vstd::arithmetic::power::{lemma_pow_positive, pow};

verus! {

/// Per-file cache entry. `mtime_ns` and `size` are the invalidation key —
/// any change to either triggers a re-parse on the next index build.
#[derive(Debug)]
pub struct FileEntry {
    pub mtime_ns: i128,
    pub size: u64,
    pub bindings: Vec<Binding>,
}

pub struct FileEntryView {
    pub mtime_ns: i128,
    pub size: u64,
    pub bindings: Seq<BindingView>,
}

impl View for FileEntry {
    type V = FileEntryView;

    open spec fn view(&self) -> FileEntryView {
        FileEntryView {
            mtime_ns: self.mtime_ns,
            size: self.size,
            bindings: binding_views(self.bindings@),
        }
    }
}

/// A copy of a list of bindings.
pub fn copy_bindings(bs: &[Binding]) -> (r: Vec<Binding>)
    ensures
        binding_views(r@) == binding_views(bs@),
{
    let mut out: Vec<Binding> = Vec::new();
    let mut i: usize = 0;
    while i < bs.len()
        invariant
            0 <= i <= bs@.len(),
            binding_views(out@) == binding_views(bs@.take(i as int)),
        decreases bs@.len() - i,
    {
        let ghost before = out@;
        out.push(bs[i].clone());
        assert(binding_views(out@) =~= binding_views(before).push(bs@[i as int]@));
        assert(bs@.take(i + 1) =~= bs@.take(i as int).push(bs@[i as int]));
        i = i + 1;
    }
    assert(bs@.take(bs@.len() as int) =~= bs@);
    out
}

impl Clone for FileEntry {
    fn clone(&self) -> (r: Self)
        ensures
            r@ == self@,
    {
        FileEntry {
            mtime_ns: self.mtime_ns,
            size: self.size,
            bindings: copy_bindings(self.bindings.as_slice()),
        }
    }
}

/// The on-disk index cache: one entry per source file, keyed by its path.
#[derive(Debug)]
pub struct CacheFile {
    /// Schema version — bump when the on-disk format changes incompatibly.
    pub version: u32,
    pub entries: Vec<(String, FileEntry)>,
}

pub struct CacheFileView {
    pub version: u32,
    pub entries: Seq<(Seq<char>, FileEntryView)>,
}

pub open spec fn entry_views(es: Seq<(String, FileEntry)>) -> Seq<(Seq<char>, FileEntryView)> {
    es.map_values(|e: (String, FileEntry)| (e.0@, e.1@))
}

impl View for CacheFile {
    type V = CacheFileView;

    open spec fn view(&self) -> CacheFileView {
        CacheFileView { version: self.version, entries: entry_views(self.entries@) }
    }
}

impl Default for CacheFile {
    fn default() -> (r: Self)
        ensures
            r@.version == 0,
            r@.entries.len() == 0,
    {
        CacheFile { version: 0, entries: Vec::new() }
    }
}

pub const CACHE_VERSION: u32 = 1;

/// A loaded cache is used only when it has the current schema version.
pub fn accept_cache(cache: CacheFile) -> (r: Option<CacheFile>)
    ensures
        r is Some <==> cache.version == CACHE_VERSION,
        r matches Some(c) ==> c@ == cache@,
{
    if cache.version != CACHE_VERSION {
        return None;
    }
    Some(cache)
}

/// The lowercase hexadecimal digit for `d` (below 16).
pub open spec fn hex_digit(d: int) -> char {
    if d < 10 {
        ((d + 48) as u8) as char
    } else {
        ((d + 87) as u8) as char
    }
}

/// The last `n` hexadecimal digits of `v`, most significant first.
pub open spec fn hex_digits(v: nat, n: nat) -> Seq<char>
    decreases n,
{
    if n == 0 {
        Seq::empty()
    } else {
        hex_digits(v / 16, (n - 1) as nat).push(hex_digit((v % 16) as int))
    }
}

/// The value of a digit that `hex_digit` writes.
pub open spec fn digit_value(c: char) -> int {
    if '0' <= c && c <= '9' {
        c as int - 48
    } else {
        c as int - 87
    }
}

/// The number that a string of hexadecimal digits denotes.
pub open spec fn hex_value(s: Seq<char>) -> nat
    decreases s.len(),
{
    if s.len() == 0 {
        0
    } else {
        (hex_value(s.drop_last()) * 16 + digit_value(s.last())) as nat
    }
}

/// The cache file name for a root whose path hashes to `hash`: the hash as
/// sixteen lowercase hexadecimal digits, then ".json".
pub open spec fn cache_name(hash: u64) -> Seq<char> {
    hex_digits(hash as nat, 16) + seq!['.', 'j', 's', 'o', 'n']
}

fn hex_char(d: u64) -> (c: char)
    requires
        d < 16,
    ensures
        c == hex_digit(d as int),
{
    if d < 10 {
        ((d + 48) as u8) as char
    } else {
        ((d + 87) as u8) as char
    }
}

/// The file name that holds the cache of a root whose path hashes to `hash`.
pub fn cache_file_name(hash: u64) -> (r: String)
    ensures
        r@ == cache_name(hash),
{
    let mut digits: Vec<char> = Vec::new();
    let mut v: u64 = hash;
    let mut k: usize = 0;
    while k < 16
        invariant
            0 <= k <= 16,
            digits@.len() == k,
            hex_digits(hash as nat, 16) == hex_digits(v as nat, (16 - k) as nat) + digits@,
        decreases 16 - k,
    {
        let ghost before = digits@;
        let d = hex_char(v % 16);
        digits.insert(0, d);
        proof {
            assert(hex_digits(v as nat, (16 - k) as nat) == hex_digits(
                (v / 16) as nat,
                (16 - k - 1) as nat,
            ).push(d));
            assert(hex_digits((v / 16) as nat, (16 - k - 1) as nat).push(d) + before
                =~= hex_digits((v / 16) as nat, (16 - k - 1) as nat) + digits@);
        }
        v = v / 16;
        k = k + 1;
    }
    digits.push('.');
    digits.push('j');
    digits.push('s');
    digits.push('o');
    digits.push('n');
    assert(digits@ =~= cache_name(hash));
    string_of(digits.as_slice())
}

/// Where the cache of a root whose path hashes to `hash` lives: the base
/// directory that the environment names, if any, and the path components
/// below it. `XDG_CACHE_HOME` (`xdg`) is the base itself; else `HOME`
/// (`home`) is, with ".cache" below it; with neither, ".cache" is taken
/// relative to the working directory.
pub open spec fn cache_location_of<T>(xdg: Option<T>, home: Option<T>, hash: u64) -> (
    Option<T>,
    Seq<Seq<char>>,
) {
    match xdg {
        Some(x) => (Some(x), seq!["vim-specflow"@, cache_name(hash)]),
        None => (home, seq![".cache"@, "vim-specflow"@, cache_name(hash)]),
    }
}

pub open spec fn string_views(v: Seq<String>) -> Seq<Seq<char>> {
    v.map_values(|s: String| s@)
}

fn string_from(s: &str) -> (r: String)
    ensures
        r@ == s@,
{
    let mut out = String::new();
    push_str(&mut out, s);
    assert(out@ =~= s@);
    out
}

/// The base directory and the components of the cache file's path.
pub fn cache_location<T>(xdg: Option<T>, home: Option<T>, hash: u64) -> (r: (Option<T>, Vec<String>))
    ensures
        r.0 == cache_location_of(xdg, home, hash).0,
        string_views(r.1@) == cache_location_of(xdg, home, hash).1,
{
    let mut parts: Vec<String> = Vec::new();
    let base = match xdg {
        Some(x) => Some(x),
        None => {
            parts.push(string_from(".cache"));
            home
        },
    };
    parts.push(string_from("vim-specflow"));
    parts.push(cache_file_name(hash));
    proof {
        assert(string_views(parts@) =~= cache_location_of(xdg, home, hash).1);
    }
    (base, parts)
}

// ---- laws -----------------------------------------------------------------

proof fn lemma_hex_digit_value(d: int)
    requires
        0 <= d < 16,
    ensures
        digit_value(hex_digit(d)) == d,
{
}

proof fn lemma_hex_digits_len(v: nat, n: nat)
    ensures
        hex_digits(v, n).len() == n,
    decreases n,
{
    if n > 0 {
        lemma_hex_digits_len(v / 16, (n - 1) as nat);
    }
}

proof fn lemma_hex_value_digits(v: nat, n: nat)
    ensures
        hex_value(hex_digits(v, n)) == v as int % pow(16, n),
    decreases n,
{
    reveal(pow);
    lemma_pow_positive(16, n);
    if n == 0 {
        assert(pow(16, 0) == 1);
    } else {
        let m = (n - 1) as nat;
        lemma_hex_value_digits(v / 16, m);
        lemma_pow_positive(16, m);
        let d = (v % 16) as int;
        let s = hex_digits(v / 16, m).push(hex_digit(d));
        assert(hex_digits(v, n) == s);
        assert(s.drop_last() =~= hex_digits(v / 16, m));
        lemma_hex_digit_value(d);
        lemma_breakdown(v as int, 16, pow(16, m));
        assert(pow(16, n) == 16 * pow(16, m));
    }
}

/// The name of a cache file reads back, as a hexadecimal number, the hash it
/// was made from; so two roots whose paths hash differently never share a
/// cache file.
pub proof fn law_cache_name_reads_back(a: u64, b: u64)
    ensures
        hex_value(cache_name(a).take(16)) == a,
        cache_name(a) == cache_name(b) ==> a == b,
{
    assert(pow(16, 16) == 0x1_0000_0000_0000_0000) by {
        reveal_with_fuel(pow, 17);
    }
    lemma_hex_digits_len(a as nat, 16);
    lemma_hex_digits_len(b as nat, 16);
    lemma_hex_value_digits(a as nat, 16);
    lemma_hex_value_digits(b as nat, 16);
    lemma_small_mod(a as nat, 0x1_0000_0000_0000_0000);
    lemma_small_mod(b as nat, 0x1_0000_0000_0000_0000);
    assert(cache_name(a).take(16) =~= hex_digits(a as nat, 16));
    assert(cache_name(b).take(16) =~= hex_digits(b as nat, 16));
}

} // verus!
