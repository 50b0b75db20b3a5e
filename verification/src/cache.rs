//! Experimental skip cache: which Rust source files each crate had, and when
//! each was modified, after the last successful run. Crates whose fingerprint
//! is unchanged are not dispatched to rustfmt at all.
//!
//! On disk the cache is text: a header with the format's tag and a hash of the
//! tools, then one line per file. A header that does not match makes the whole
//! cache empty.

use crate::bytes::shown;
use crate::cache_laws::{
    commit_prefers_this_run, lemma_put_all_text, lemma_without_text, put_replaces_one_crate, read_cache_is_well_kept,
    saved_cache_reads_back, without_forgets_one_crate,
};
use crate::fingerprint::{fp_insert, fp_same, fp_sorted, Fingerprint};
use crate::keyed::{find_key, keys_distinct, lemma_find_key_unique};
use crate::number::{decimal, hex, parse, parse_number, push_decimal, push_hex};
use crate::path::{is_rust_source, join, same_path, FilePath};
use crate::size::{
    clamped, is_source_file, rs_bytes, ByteCount, WalkEntry, HUGE_CUTOFF_BYTES,
};
use crate::text::{chars_of, find_char, find_from, lines, lines_of, string_of, text_eq, views};
use crate::types::FileFailure;
use vstd::prelude::*;
use vstd::utf8::{encode_utf8, valid_utf8};

verus! {

/// The tag of the cache format.
pub const VERSION_TAG: &'static str = "ff-cache-v3";

/// Crates with their fingerprints, as a cache holds them.
pub type Entries = Seq<(Seq<u8>, Seq<(Seq<u8>, u128)>)>;

/// `s` with the fingerprint `fp` for the crate `dir`.
pub open spec fn put(s: Entries, dir: Seq<u8>, fp: Seq<(Seq<u8>, u128)>) -> Entries {
    let k = find_key(s, dir);
    if k < s.len() {
        s.update(k, (s[k].0, fp))
    } else {
        s.push((dir, fp))
    }
}

/// `s` without the crate `dir`.
pub open spec fn without(s: Entries, dir: Seq<u8>) -> Entries {
    let k = find_key(s, dir);
    if k < s.len() {
        s.remove(k)
    } else {
        s
    }
}

/// `s` with every crate of `more` put in.
pub open spec fn put_all(s: Entries, more: Entries) -> Entries
    decreases more.len(),
{
    if more.len() == 0 {
        s
    } else {
        put(put_all(s, more.drop_last()), more.last().0, more.last().1)
    }
}

/// The fingerprint that `s` has for the crate `dir`.
pub open spec fn lookup(s: Entries, dir: Seq<u8>) -> Option<Seq<(Seq<u8>, u128)>> {
    let k = find_key(s, dir);
    if k < s.len() {
        Some(s[k].1)
    } else {
        None
    }
}

/// Whether the crate `dir` is in `s` with the fingerprint `fp`.
pub open spec fn has_fingerprint(s: Entries, dir: Seq<u8>, fp: Seq<(Seq<u8>, u128)>) -> bool {
    match lookup(s, dir) {
        Some(known) => fp_same(known, fp),
        None => false,
    }
}

/// One crate of the cache.
#[derive(Debug)]
pub struct CacheEntry {
    pub dir: FilePath,
    pub fingerprint: Fingerprint,
}

/// The crates that a vector of entries holds.
pub open spec fn entry_views(v: Seq<CacheEntry>) -> Entries {
    v.map_values(|e: CacheEntry| (e.dir@, e.fingerprint@))
}

fn position_of(v: &Vec<CacheEntry>, dir: &FilePath) -> (k: usize)
    ensures
        k == find_key(entry_views(v@), dir@),
        k <= v@.len(),
{
    let ghost s = entry_views(v@);
    let mut k: usize = 0;
    while k < v.len() && !v[k].dir.same(dir)
        invariant
            s == entry_views(v@),
            s.len() == v@.len(),
            k <= v@.len(),
            forall|i: int| 0 <= i < k ==> !same_path((#[trigger] s[i]).0, dir@),
        decreases v@.len() - k,
    {
        k += 1;
    }
    proof {
        if k < v@.len() {
            assert(s[k as int].0 == v@[k as int].dir@);
        }
        lemma_find_key_unique(s, dir@, k as int);
    }
    k
}

fn put_entry(v: &mut Vec<CacheEntry>, dir: FilePath, fingerprint: Fingerprint)
    ensures
        entry_views(final(v)@) == put(entry_views(old(v)@), dir@, fingerprint@),
{
    let ghost before = v@;
    let k = position_of(v, &dir);
    assert(entry_views(before).len() == before.len());
    if k < v.len() {
        assert(entry_views(before)[k as int].0 == before[k as int].dir@);
        v[k].fingerprint = fingerprint;
    } else {
        v.push(CacheEntry { dir, fingerprint });
    }
    assert(entry_views(v@) =~= put(entry_views(before), dir@, fingerprint@));
}

fn remove_entry(v: &mut Vec<CacheEntry>, dir: &FilePath)
    ensures
        entry_views(final(v)@) == without(entry_views(old(v)@), dir@),
{
    let ghost before = v@;
    let k = position_of(v, dir);
    assert(entry_views(before).len() == before.len());
    if k < v.len() {
        v.remove(k);
    }
    assert(entry_views(v@) =~= without(entry_views(before), dir@));
}

/// FNV-1a, 64 bits: each byte is folded in by xor, then multiplied by the prime.
pub open spec fn fnv1a_hash(seed: u64, bytes: Seq<u8>) -> u64
    decreases bytes.len(),
{
    if bytes.len() == 0 {
        seed
    } else {
        (fnv1a_hash(seed, bytes.drop_last()) ^ (bytes.last() as u64)).wrapping_mul(
            0x0100_0000_01b3,
        )
    }
}

/// FNV-1a, 64 bits. The same in every process.
pub fn fnv1a(seed: u64, bytes: &[u8]) -> (h: u64)
    ensures
        h == fnv1a_hash(seed, bytes@),
{
    let mut h: u64 = seed;
    let mut i: usize = 0;
    assert(bytes@.take(0) =~= Seq::<u8>::empty());
    while i < bytes.len()
        invariant
            i <= bytes@.len(),
            h == fnv1a_hash(seed, bytes@.take(i as int)),
        decreases bytes@.len() - i,
    {
        assert(bytes@.take(i + 1).drop_last() =~= bytes@.take(i as int));
        h = (h ^ (bytes[i] as u64)).wrapping_mul(0x0100_0000_01b3);
        i += 1;
    }
    assert(bytes@.take(i as int) =~= bytes@);
    h
}

/// The hash after a configuration file of this name, if it was read.
pub open spec fn with_config(h: u64, name: Seq<char>, contents: Option<Seq<u8>>) -> u64 {
    match contents {
        Some(c) => fnv1a_hash(
            fnv1a_hash(fnv1a_hash(fnv1a_hash(h, seq![0u8]), encode_utf8(name)), seq![0u8]),
            c,
        ),
        None => h,
    }
}

/// The hash of the tools: what `rustfmt --version` printed and the workspace
/// root's configuration files.
pub open spec fn tool_hash_of(
    version: Option<Seq<u8>>,
    dot_config: Option<Seq<u8>>,
    config: Option<Seq<u8>>,
) -> u64 {
    let h = match version {
        Some(v) => fnv1a_hash(0xcbf2_9ce4_8422_2325, v),
        None => 0xcbf2_9ce4_8422_2325u64,
    };
    with_config(with_config(h, ".rustfmt.toml"@, dot_config), "rustfmt.toml"@, config)
}

/// The bytes of an optional buffer.
pub open spec fn bytes_view(b: Option<Vec<u8>>) -> Option<Seq<u8>> {
    match b {
        Some(v) => Some(v@),
        None => None,
    }
}

fn hash_config(h: u64, name: &str, contents: &Option<Vec<u8>>) -> (r: u64)
    ensures
        r == with_config(h, name@, bytes_view(*contents)),
{
    match contents {
        Some(c) => {
            let nul: [u8; 1] = [0];
            assert(nul@ =~= seq![0u8]);
            let h = fnv1a(h, nul.as_slice());
            let h = fnv1a(h, name.as_bytes());
            let h = fnv1a(h, nul.as_slice());
            fnv1a(h, c.as_slice())
        },
        None => h,
    }
}

/// Hashes what rustfmt's output depends on besides the sources.
pub fn compute_tool_hash(
    version: &Option<Vec<u8>>,
    dot_config: &Option<Vec<u8>>,
    config: &Option<Vec<u8>>,
) -> (h: u64)
    ensures
        h == tool_hash_of(bytes_view(*version), bytes_view(*dot_config), bytes_view(*config)),
{
    let h: u64 = match version {
        Some(v) => fnv1a(0xcbf2_9ce4_8422_2325, v.as_slice()),
        None => 0xcbf2_9ce4_8422_2325,
    };
    let h = hash_config(h, ".rustfmt.toml", dot_config);
    hash_config(h, "rustfmt.toml", config)
}

/// Where the cache of a user with this home directory lives.
pub fn cache_path(home: Option<FilePath>) -> (p: Option<FilePath>)
    ensures
        match p {
            Some(q) => home is Some && q@ == join(
                join(join(home->0@, encode_utf8(".cache"@)), encode_utf8("cargo-ff"@)),
                encode_utf8("fingerprints.tsv"@),
            ),
            None => home is None,
        },
{
    match home {
        Some(h) => Some(h.join(".cache").join("cargo-ff").join("fingerprints.tsv")),
        None => None,
    }
}

/// Whether a text can stand in a line of the cache: no tab and no newline.
pub open spec fn is_plain(t: Seq<char>) -> bool {
    forall|i: int| 0 <= i < t.len() ==> #[trigger] t[i] != '\t' && t[i] != '\n'
}

/// No crate twice, and every fingerprint in order.
pub open spec fn well_kept(s: Entries) -> bool {
    &&& keys_distinct(s)
    &&& forall|i: int| 0 <= i < s.len() ==> fp_sorted((#[trigger] s[i]).1)
}

/// What a fingerprint is after its files have been written and read: those
/// whose paths can stand in a line, under the text that they show as.
pub open spec fn reread(fp: Seq<(Seq<u8>, u128)>) -> Seq<(Seq<u8>, u128)>
    decreases fp.len(),
{
    if fp.len() == 0 {
        fp
    } else {
        let front = reread(fp.drop_last());
        let text = shown(fp.last().0);
        if is_plain(text) {
            fp_insert(front, encode_utf8(text), fp.last().1)
        } else {
            front
        }
    }
}

/// Whether every crate's path is UTF-8.
pub open spec fn dirs_are_text(s: Entries) -> bool {
    forall|i: int| 0 <= i < s.len() ==> valid_utf8((#[trigger] s[i]).0)
}

/// What of `s` can be written: crates and files whose paths can stand in a
/// line, and no crate that is left without files.
pub open spec fn writable(s: Entries) -> Entries
    decreases s.len(),
{
    if s.len() == 0 {
        s
    } else {
        let front = writable(s.drop_last());
        let files = reread(s.last().1);
        if is_plain(shown(s.last().0)) && files.len() > 0 {
            front.push((s.last().0, files))
        } else {
            front
        }
    }
}

/// Whether the crate `dir`, if `s` has it, is there under a path that can stand
/// in a line.
pub open spec fn plain_key(s: Entries, dir: Seq<u8>) -> bool {
    find_key(s, dir) < s.len() ==> is_plain(shown(s[find_key(s, dir)].0))
}

/// Lines, each with its terminator.
pub open spec fn terminated(ls: Seq<Seq<char>>) -> Seq<char>
    decreases ls.len(),
{
    if ls.len() == 0 {
        Seq::empty()
    } else {
        terminated(ls.drop_last()) + ls.last() + seq!['\n']
    }
}

pub open spec fn header_line(tool_hash: u64) -> Seq<char> {
    VERSION_TAG@ + seq!['\t'] + hex(tool_hash as nat, 16)
}

pub open spec fn file_line(dir: Seq<char>, file: Seq<char>, mtime_ns: u128) -> Seq<char> {
    dir + seq!['\t'] + file + seq!['\t'] + decimal(mtime_ns as nat)
}

/// The lines of one crate: those of its files whose paths can stand in a line.
pub open spec fn dir_lines(dir: Seq<char>, fp: Seq<(Seq<u8>, u128)>) -> Seq<Seq<char>>
    decreases fp.len(),
{
    if fp.len() == 0 {
        Seq::empty()
    } else {
        let front = dir_lines(dir, fp.drop_last());
        let file = shown(fp.last().0);
        if is_plain(file) {
            front.push(file_line(dir, file, fp.last().1))
        } else {
            front
        }
    }
}

/// The lines of all crates whose paths can stand in a line.
pub open spec fn entry_lines(s: Entries) -> Seq<Seq<char>>
    decreases s.len(),
{
    if s.len() == 0 {
        Seq::empty()
    } else {
        let front = entry_lines(s.drop_last());
        let dir = shown(s.last().0);
        if is_plain(dir) {
            front + dir_lines(dir, s.last().1)
        } else {
            front
        }
    }
}

/// The text of a cache.
pub open spec fn encoded(tool_hash: u64, s: Entries) -> Seq<char> {
    terminated(seq![header_line(tool_hash)] + entry_lines(s))
}

/// The text before the first tab and the text after it.
pub open spec fn split_tab(t: Seq<char>) -> Option<(Seq<char>, Seq<char>)> {
    let n = find_from(t, '\t', 0);
    if n < t.len() {
        Some((t.take(n), t.skip(n + 1)))
    } else {
        None
    }
}

/// Whether a header line carries the format's tag and this hash. What follows
/// a second tab does not count.
pub open spec fn header_matches(line: Seq<char>, expected: u64) -> bool {
    match split_tab(line) {
        None => false,
        Some((tag, rest)) => {
            let hash = match split_tab(rest) {
                Some((hash, _)) => hash,
                None => rest,
            };
            tag == VERSION_TAG@ && parse_number(hash, 16, u64::MAX as nat) == Some(expected as nat)
        },
    }
}

/// The crate, file and time of a line; none for a line of another form.
pub open spec fn line_fields(line: Seq<char>) -> Option<(Seq<char>, Seq<char>, u128)> {
    match split_tab(line) {
        None => None,
        Some((dir, rest)) => match split_tab(rest) {
            None => None,
            Some((file, time)) => match parse_number(time, 10, u128::MAX as nat) {
                None => None,
                Some(m) => Some((dir, file, m as u128)),
            },
        },
    }
}

/// `s` after a file of a crate has been read.
pub open spec fn add_file(s: Entries, dir: Seq<u8>, file: Seq<u8>, m: u128) -> Entries {
    let k = find_key(s, dir);
    if k < s.len() {
        s.update(k, (s[k].0, fp_insert(s[k].1, file, m)))
    } else {
        s.push((dir, fp_insert(Seq::empty(), file, m)))
    }
}

/// What the lines after the header hold.
pub open spec fn read_lines(ls: Seq<Seq<char>>) -> Entries
    decreases ls.len(),
{
    if ls.len() == 0 {
        Seq::empty()
    } else {
        let s = read_lines(ls.drop_last());
        match line_fields(ls.last()) {
            Some((dir, file, m)) => add_file(s, encode_utf8(dir), encode_utf8(file), m),
            None => s,
        }
    }
}

/// What the text of a cache holds for tools of the hash `expected`.
pub open spec fn decoded(t: Seq<char>, expected: u64) -> Entries {
    let ls = lines(t);
    if ls.len() > 0 && header_matches(ls[0], expected) {
        read_lines(ls.skip(1))
    } else {
        Seq::empty()
    }
}

fn plain(p: &str) -> (r: bool)
    ensures
        r == is_plain(p@),
{
    let c = chars_of(p);
    let mut i: usize = 0;
    while i < c.len()
        invariant
            c@ == p@,
            i <= c@.len(),
            forall|k: int| 0 <= k < i ==> #[trigger] p@[k] != '\t' && p@[k] != '\n',
        decreases c@.len() - i,
    {
        if c[i] == '\t' || c[i] == '\n' {
            assert(p@[i as int] == c@[i as int]);
            return false;
        }
        i += 1;
    }
    true
}

fn split_at_tab(t: &str) -> (r: Option<(String, String)>)
    ensures
        match r {
            Some((a, b)) => split_tab(t@) == Some((a@, b@)),
            None => split_tab(t@) is None,
        },
{
    let c = chars_of(t);
    let n = find_char(&c, 0, '\t');
    if n == c.len() {
        return None;
    }
    assert(c@.subrange(0, n as int) =~= c@.take(n as int));
    assert(c@.subrange(n + 1, c@.len() as int) =~= c@.skip(n + 1));
    Some((string_of(&c, 0, n), string_of(&c, n + 1, c.len())))
}

fn header_ok(line: &str, expected: u64) -> (r: bool)
    ensures
        r == header_matches(line@, expected),
{
    let Some((tag, rest)) = split_at_tab(line) else {
        return false;
    };
    let hash = match split_at_tab(rest.as_str()) {
        Some((hash, _)) => hash,
        None => rest,
    };
    if !text_eq(tag.as_str(), VERSION_TAG) {
        return false;
    }
    match parse(hash.as_str(), 16, u64::MAX as u128) {
        Some(stored) => stored == expected as u128,
        None => false,
    }
}

fn read_line(line: &str) -> (r: Option<(String, String, u128)>)
    ensures
        match r {
            Some((d, f, m)) => line_fields(line@) == Some((d@, f@, m)),
            None => line_fields(line@) is None,
        },
{
    let Some((dir, rest)) = split_at_tab(line) else {
        return None;
    };
    let Some((file, time)) = split_at_tab(rest.as_str()) else {
        return None;
    };
    match parse(time.as_str(), 10, u128::MAX) {
        Some(m) => Some((dir, file, m)),
        None => None,
    }
}

/// Reads the text of a cache; for other tools than it was written for, or in
/// another format, it holds nothing.
pub fn read_entries(contents: &str, expected: u64) -> (out: Vec<CacheEntry>)
    ensures
        entry_views(out@) == decoded(contents@, expected),
        well_kept(entry_views(out@)),
{
    proof {
        read_cache_is_well_kept(contents@, expected);
    }
    let ls = lines_of(contents);
    let ghost all = lines(contents@);
    let mut out: Vec<CacheEntry> = Vec::new();
    assert(entry_views(out@) =~= Seq::empty());
    assert(views(ls@).len() == ls@.len());
    if ls.len() == 0 {
        return out;
    }
    assert(all[0] == ls@[0]@);
    if !header_ok(ls[0].as_str(), expected) {
        return out;
    }
    let ghost body = all.skip(1);
    assert(body.take(0) =~= Seq::<Seq<char>>::empty());
    let mut i: usize = 1;
    while i < ls.len()
        invariant
            views(ls@) == all,
            all.len() == ls@.len(),
            body == all.skip(1),
            1 <= i <= ls@.len(),
            entry_views(out@) == read_lines(body.take(i - 1)),
        decreases ls@.len() - i,
    {
        assert(body.take(i as int).drop_last() =~= body.take(i - 1));
        assert(body.take(i as int).last() == ls@[i as int]@) by {
            assert(all[i as int] == ls@[i as int]@);
        }
        if let Some((dir, file, m)) = read_line(ls[i].as_str()) {
            let ghost before = out@;
            let dir = FilePath::from_text(dir.as_str());
            let file = FilePath::from_text(file.as_str());
            let k = position_of(&out, &dir);
            assert(entry_views(before).len() == before.len());
            if k < out.len() {
                assert(entry_views(before)[k as int] == (
                    before[k as int].dir@,
                    before[k as int].fingerprint@,
                ));
                out[k].fingerprint.insert(file, m);
            } else {
                let mut fingerprint = Fingerprint::new();
                fingerprint.insert(file, m);
                out.push(CacheEntry { dir, fingerprint });
            }
            assert(entry_views(out@) =~= add_file(entry_views(before), dir@, file@, m));
        }
        i += 1;
    }
    assert(body.take(i - 1) =~= body);
    out
}

fn push_line(out: &mut String, line: &str, Ghost(ls): Ghost<Seq<Seq<char>>>)
    requires
        old(out)@ == terminated(ls),
    ensures
        final(out)@ == terminated(ls.push(line@)),
{
    out.append(line);
    out.push('\n');
    assert(ls.push(line@).drop_last() =~= ls);
    assert(out@ =~= terminated(ls.push(line@)));
}

/// The text of a cache.
fn encode(tool_hash: u64, entries: &Vec<CacheEntry>) -> (out: String)
    ensures
        out@ == encoded(tool_hash, entry_views(entries@)),
{
    let ghost s = entry_views(entries@);
    let mut header = String::new();
    header.append(VERSION_TAG);
    header.push('\t');
    push_hex(&mut header, tool_hash, 16);
    assert(header@ =~= header_line(tool_hash));
    let mut out = String::new();
    let ghost mut ls: Seq<Seq<char>> = Seq::empty();
    push_line(&mut out, header.as_str(), Ghost(ls));
    proof {
        ls = seq![header_line(tool_hash)];
        assert(Seq::<Seq<char>>::empty().push(header@) =~= ls);
        assert(ls + entry_lines(s.take(0)) =~= ls);
    }
    let ghost head = ls;
    let mut i: usize = 0;
    while i < entries.len()
        invariant
            i <= entries@.len(),
            s == entry_views(entries@),
            s.len() == entries@.len(),
            out@ == terminated(ls),
            ls == head + entry_lines(s.take(i as int)),
        decreases entries@.len() - i,
    {
        let entry = &entries[i];
        let ghost before = ls;
        assert(s.take(i + 1).drop_last() =~= s.take(i as int));
        assert(s.take(i + 1).last() == (entry.dir@, entry.fingerprint@));
        let dir = entry.dir.display();
        if plain(dir.as_str()) {
            let fp = &entry.fingerprint;
            let mut j: usize = 0;
            assert(ls =~= before + dir_lines(dir@, fp@.take(0)));
            while j < fp.len()
                invariant
                    j <= fp@.len(),
                    out@ == terminated(ls),
                    ls == before + dir_lines(dir@, fp@.take(j as int)),
                decreases fp@.len() - j,
            {
                assert(fp@.take(j + 1).drop_last() =~= fp@.take(j as int));
                let file = fp.path(j).display();
                if plain(file.as_str()) {
                    let mut line = String::new();
                    line.append(dir.as_str());
                    line.push('\t');
                    line.append(file.as_str());
                    line.push('\t');
                    push_decimal(&mut line, fp.mtime_ns(j));
                    assert(line@ =~= file_line(dir@, file@, fp@[j as int].1));
                    push_line(&mut out, line.as_str(), Ghost(ls));
                    proof {
                        ls = ls.push(line@);
                        assert(ls =~= before + dir_lines(dir@, fp@.take(j + 1)));
                    }
                }
                j += 1;
            }
            assert(fp@.take(j as int) =~= fp@);
            assert(ls =~= head + entry_lines(s.take(i + 1)));
        }
        i += 1;
    }
    assert(s.take(i as int) =~= s);
    out
}

/// What a save has to write, and where.
#[derive(Debug)]
pub struct SavedCache {
    pub path: FilePath,
    pub contents: String,
}

/// The skip cache.
#[derive(Debug)]
pub struct Cache {
    path: Option<FilePath>,
    tool_hash: u64,
    retained: Vec<CacheEntry>,
    pending: Vec<CacheEntry>,
}

/// The bytes of an optional path.
pub open spec fn path_view(p: Option<FilePath>) -> Option<Seq<u8>> {
    match p {
        Some(q) => Some(q@),
        None => None,
    }
}

impl Cache {
    /// What the cache holds from earlier runs.
    pub closed spec fn retained(&self) -> Entries {
        entry_views(self.retained@)
    }

    /// What this run would add.
    pub closed spec fn pending(&self) -> Entries {
        entry_views(self.pending@)
    }

    pub closed spec fn tool_hash(&self) -> u64 {
        self.tool_hash
    }

    /// Where the cache lives on disk, if anywhere.
    pub closed spec fn location(&self) -> Option<Seq<u8>> {
        path_view(self.path)
    }

    /// Each part has no crate twice and every fingerprint in order; what is
    /// retained stands under paths that are text and can stand in a line.
    #[verifier::type_invariant]
    pub open spec fn is_kept(self) -> bool {
        &&& well_kept(self.retained())
        &&& well_kept(self.pending())
        &&& dirs_are_text(self.retained())
        &&& forall|dir: Seq<u8>| #[trigger] plain_key(self.retained(), dir)
    }

    /// The cache that lives at `path` and was read as `contents` (none when it
    /// could not be read), for tools of this hash.
    pub fn load(path: Option<FilePath>, tool_hash: u64, contents: Option<String>) -> (c: Cache)
        ensures
            c.location() == path_view(path),
            c.tool_hash() == tool_hash,
            c.retained() == match (path, contents) {
                (Some(_), Some(t)) => decoded(t@, tool_hash),
                _ => Seq::empty(),
            },
            c.pending() == Seq::<(Seq<u8>, Seq<(Seq<u8>, u128)>)>::empty(),
            c.is_kept(),
    {
        let retained = match (&path, &contents) {
            (Some(_), Some(t)) => {
                proof {
                    read_cache_is_well_kept(t@, tool_hash);
                }
                read_entries(t.as_str(), tool_hash)
            },
            _ => Vec::new(),
        };
        let pending: Vec<CacheEntry> = Vec::new();
        assert(entry_views(pending@) =~= Seq::empty());
        assert(retained@.len() == 0 ==> entry_views(retained@) =~= Seq::empty());
        Cache { path, tool_hash, retained, pending }
    }

    /// Whether the crate is as it was after the last run.
    pub fn matches(&self, manifest_dir: &FilePath, current: &Fingerprint) -> (r: bool)
        ensures
            r == has_fingerprint(self.retained(), manifest_dir@, current@),
    {
        let k = position_of(&self.retained, manifest_dir);
        assert(self.retained().len() == self.retained@.len());
        k < self.retained.len() && self.retained[k].fingerprint.same(current)
    }

    /// Notes the fingerprint of a crate that this run formats.
    pub fn stage(&mut self, manifest_dir: FilePath, fingerprint: Fingerprint)
        ensures
            final(self).pending() == put(old(self).pending(), manifest_dir@, fingerprint@),
            final(self).retained() == old(self).retained(),
            final(self).tool_hash() == old(self).tool_hash(),
            final(self).location() == old(self).location(),
            final(self).is_kept(),
    {
        proof {
            use_type_invariant(&*self);
            use_type_invariant(&fingerprint);
            put_replaces_one_crate(
                self.pending(),
                manifest_dir@,
                fingerprint@,
                manifest_dir@,
            );
        }
        let mut pending: Vec<CacheEntry> = Vec::new();
        assert(entry_views(pending@) =~= Seq::empty());
        std::mem::swap(&mut pending, &mut self.pending);
        put_entry(&mut pending, manifest_dir, fingerprint);
        self.pending = pending;
    }

    /// Forgets a crate, so that the next run looks at it again.
    pub fn invalidate(&mut self, manifest_dir: &FilePath)
        ensures
            final(self).pending() == without(old(self).pending(), manifest_dir@),
            final(self).retained() == without(old(self).retained(), manifest_dir@),
            final(self).tool_hash() == old(self).tool_hash(),
            final(self).location() == old(self).location(),
            final(self).is_kept(),
    {
        let ghost dir = manifest_dir@;
        proof {
            use_type_invariant(&*self);
            without_forgets_one_crate(self.retained(), dir, dir);
            lemma_without_text(self.retained(), dir);
            without_forgets_one_crate(self.pending(), dir, dir);
            assert forall|x: Seq<u8>| #[trigger]
                plain_key(without(self.retained(), dir), x) by {
                without_forgets_one_crate(self.retained(), dir, x);
                assert(plain_key(self.retained(), x));
            }
        }
        let mut retained: Vec<CacheEntry> = Vec::new();
        assert(entry_views(retained@) =~= Seq::empty());
        std::mem::swap(&mut retained, &mut self.retained);
        remove_entry(&mut retained, manifest_dir);
        self.retained = retained;
        let mut pending: Vec<CacheEntry> = Vec::new();
        assert(entry_views(pending@) =~= Seq::empty());
        std::mem::swap(&mut pending, &mut self.pending);
        remove_entry(&mut pending, manifest_dir);
        self.pending = pending;
    }

    /// Takes what this run added into what is retained; returns what has to be
    /// written where, if the cache lives anywhere. Where every crate's path is
    /// text, the tools that it was saved for read back all that can be written.
    pub fn commit_and_save(self) -> (r: Option<SavedCache>)
        ensures
            well_kept(put_all(self.retained(), self.pending())),
            match r {
                Some(saved) => {
                    let all = put_all(self.retained(), self.pending());
                    &&& self.location() == Some(saved.path@)
                    &&& saved.contents@ == encoded(self.tool_hash(), all)
                    &&& dirs_are_text(self.pending()) ==> decoded(
                        saved.contents@,
                        self.tool_hash(),
                    ) == writable(all)
                },
                None => self.location() is None,
            },
    {
        proof {
            use_type_invariant(&self);
            let all = put_all(self.retained(), self.pending());
            commit_prefers_this_run(self.retained(), self.pending(), Seq::empty());
            if dirs_are_text(self.pending()) {
                lemma_put_all_text(self.retained(), self.pending());
                saved_cache_reads_back(self.tool_hash(), all, self.tool_hash());
            }
        }
        let Cache { path, tool_hash, retained, pending } = self;
        let mut retained = retained;
        let ghost base = entry_views(retained@);
        let ghost more = entry_views(pending@);
        assert(more.take(0) =~= Seq::empty());
        for entry in it: pending
            invariant
                entry_views(it.seq()) == more,
                entry_views(retained@) == put_all(base, more.take(it.index() as int)),
        {
            assert(more.take(it.index() + 1).drop_last() =~= more.take(it.index() as int));
            assert(more[it.index() as int] == (entry.dir@, entry.fingerprint@));
            put_entry(&mut retained, entry.dir, entry.fingerprint);
        }
        assert(more.take(more.len() as int) =~= more);
        match path {
            Some(path) => Some(SavedCache { path, contents: encode(tool_hash, &retained) }),
            None => None,
        }
    }
}

/// `s` without the crates that own a failed file.
pub open spec fn without_failed(s: Entries, failures: Seq<FileFailure>) -> Entries
    decreases failures.len(),
{
    if failures.len() == 0 {
        s
    } else {
        without(without_failed(s, failures.drop_last()), failures.last().manifest_dir@)
    }
}

/// Forgets every crate that had a failure, so that the next run surfaces it again.
pub fn forget_failed(cache: &mut Cache, failures: &Vec<FileFailure>)
    ensures
        final(cache).pending() == without_failed(old(cache).pending(), failures@),
        final(cache).retained() == without_failed(old(cache).retained(), failures@),
        final(cache).tool_hash() == old(cache).tool_hash(),
        final(cache).location() == old(cache).location(),
        final(cache).is_kept(),
{
    let mut i: usize = 0;
    assert(failures@.take(0) =~= Seq::<FileFailure>::empty());
    while i < failures.len()
        invariant
            i <= failures@.len(),
            cache.pending() == without_failed(old(cache).pending(), failures@.take(i as int)),
            cache.retained() == without_failed(old(cache).retained(), failures@.take(i as int)),
            cache.tool_hash() == old(cache).tool_hash(),
            cache.location() == old(cache).location(),
        decreases failures@.len() - i,
    {
        assert(failures@.take(i + 1).drop_last() =~= failures@.take(i as int));
        cache.invalidate(&failures[i].manifest_dir);
        i += 1;
    }
    proof {
        use_type_invariant(&*cache);
    }
    assert(failures@.take(i as int) =~= failures@);
}

/// A crate's freshly walked state: its fingerprint and its size proxy.
#[derive(Debug)]
pub struct Build {
    pub fingerprint: Fingerprint,
    pub size_bytes: u64,
}

/// The file and time that an entry adds to a fingerprint.
pub open spec fn recording(e: WalkEntry) -> Option<(Seq<u8>, u128)> {
    if e.is_file && is_rust_source(e.path@) {
        match e.stat {
            Some((_, Some(m))) => Some((e.path@, m)),
            _ => None,
        }
    } else {
        None
    }
}

/// The fingerprint of the Rust source files among `entries`.
pub open spec fn walked(entries: Seq<WalkEntry>) -> Seq<(Seq<u8>, u128)>
    decreases entries.len(),
{
    if entries.len() == 0 {
        Seq::empty()
    } else {
        let front = walked(entries.drop_last());
        match recording(entries.last()) {
            Some((path, m)) => fp_insert(front, path, m),
            None => front,
        }
    }
}

/// A walk in progress.
#[derive(Debug)]
struct Walk {
    fingerprint: Fingerprint,
    count: ByteCount,
}

impl Walk {
    /// The fingerprint so far.
    spec fn seen(&self) -> Seq<(Seq<u8>, u128)> {
        self.fingerprint@
    }

    /// The size proxy so far.
    spec fn size(&self) -> u64 {
        self.count.total()
    }

    #[verifier::type_invariant]
    spec fn capped(self) -> bool {
        self.count.cap() == HUGE_CUTOFF_BYTES
    }

    fn new() -> (w: Walk)
        ensures
            w.seen() == Seq::<(Seq<u8>, u128)>::empty(),
            w.size() == 0,
    {
        Walk { fingerprint: Fingerprint::new(), count: ByteCount::new(HUGE_CUTOFF_BYTES) }
    }

    /// Takes in a Rust source file.
    fn record(&mut self, path: FilePath, len: u64, mtime_ns: Option<u128>)
        ensures
            final(self).size() == clamped((old(self).size() + len) as nat, HUGE_CUTOFF_BYTES),
            final(self).seen() == match mtime_ns {
                Some(m) => fp_insert(old(self).seen(), path@, m),
                None => old(self).seen(),
            },
    {
        proof {
            use_type_invariant(&*self);
        }
        let mut count = ByteCount::new(HUGE_CUTOFF_BYTES);
        std::mem::swap(&mut count, &mut self.count);
        let _ = count.add_file(len);
        self.count = count;
        if let Some(m) = mtime_ns {
            let mut fingerprint = Fingerprint::new();
            std::mem::swap(&mut fingerprint, &mut self.fingerprint);
            fingerprint.insert(path, m);
            self.fingerprint = fingerprint;
        }
    }

    /// The walk is over.
    fn finish(self) -> (b: Build)
        ensures
            b.fingerprint@ == self.seen(),
            b.size_bytes == self.size(),
            fp_sorted(b.fingerprint@),
    {
        proof {
            use_type_invariant(&self.fingerprint);
        }
        let size_bytes = self.count.bytes();
        Build { fingerprint: self.fingerprint, size_bytes }
    }
}

/// The fingerprint and the size proxy of a crate whose directory holds `entries`.
pub fn build(entries: Vec<WalkEntry>) -> (b: Build)
    ensures
        b.fingerprint@ == walked(entries@),
        fp_sorted(b.fingerprint@),
        b.size_bytes == clamped(rs_bytes(entries@), HUGE_CUTOFF_BYTES),
{
    let ghost all = entries@;
    let mut walk = Walk::new();
    assert(all.take(0) =~= Seq::<WalkEntry>::empty());
    for entry in it: entries
        invariant
            it.seq() == all,
            walk.seen() == walked(all.take(it.index() as int)),
            walk.size() == clamped(rs_bytes(all.take(it.index() as int)), HUGE_CUTOFF_BYTES),
    {
        assert(all.take(it.index() + 1).drop_last() =~= all.take(it.index() as int));
        if is_source_file(entry.is_file, &entry.path) {
            if let Some((len, mtime_ns)) = entry.stat {
                walk.record(entry.path, len, mtime_ns);
            }
        }
    }
    assert(all.take(all.len() as int) =~= all);
    walk.finish()
}

} // verus!
