//! When a crate is skipped, and what of the cache stands on disk.

use crate::bytes::shown;
use crate::cache::{
    add_file, bytes_view, decoded, dir_lines, encoded, entry_lines, entry_views, fnv1a_hash,
    has_fingerprint, header_line, header_matches, is_plain, line_fields, lookup, path_view, put, put_all, read_lines,
    recording, reread, split_tab, terminated, tool_hash_of, walked, well_kept, with_config, without,
    writable, Cache, CacheEntry, Entries,
};
use crate::cache_laws::{lemma_split_tab, put_replaces_one_crate};
use crate::fingerprint::{fp_insert, fp_sorted, fp_time, lemma_fp_insert_sorted, Fingerprint};
use crate::fingerprint_laws::{
    a_difference_is_noticed, a_time_is_that_of_its_file, equal_times_are_the_same,
    recording_changes_one_file,
};
use crate::keyed::{find_key, lemma_find_key, lemma_find_key_unique};
use crate::number::{decimal, decimal_reads_back, hex, parse_number};
use crate::path::{is_rust_source, same_path, FilePath};
use crate::size::{rs_bytes, WalkEntry};
use crate::text::{find_from, lemma_find_from, lines};
use crate::text_laws::lines_end_at_newlines;
use vstd::prelude::*;
use vstd::utf8::encode_utf8;

verus! {

/// What is known of a crate is what stands under its path.
pub proof fn lookup_finds_the_crate(s: Entries, dir: Seq<u8>, fp: Seq<(Seq<u8>, u128)>)
    requires
        well_kept(s),
    ensures
        lookup(s, dir) == Some(fp) <==> exists|k: int|
            0 <= k < s.len() && same_path((#[trigger] s[k]).0, dir) && s[k].1 == fp,
        lookup(s, dir) is None <==> forall|k: int|
            0 <= k < s.len() ==> !same_path((#[trigger] s[k]).0, dir),
{
    lemma_find_key(s, dir);
    let n = find_key(s, dir);
    assert forall|k: int| 0 <= k < s.len() && same_path((#[trigger] s[k]).0, dir) implies k
        == n by {
        if k > n {
            assert(!same_path(s[n].0, s[k].0));
        }
    }
}

/// A changed crate is not skipped: where the fingerprint that is known for it
/// and the current one differ in the time of any file, or in whether any file is
/// there, they do not match.
pub proof fn changed_crate_is_not_skipped(
    s: Entries,
    dir: Seq<u8>,
    current: Seq<(Seq<u8>, u128)>,
    k: int,
    p: Seq<u8>,
)
    requires
        well_kept(s),
        fp_sorted(current),
        0 <= k < s.len(),
        same_path(s[k].0, dir),
        fp_time(s[k].1, p) != fp_time(current, p),
    ensures
        !has_fingerprint(s, dir, current),
{
    lookup_finds_the_crate(s, dir, s[k].1);
    assert(fp_sorted(s[k].1));
    a_difference_is_noticed(s[k].1, current, p);
}

/// The same, of a single file: one that is known with a time that it does not
/// have now, or that is not known as it is now, keeps a crate from being skipped.
pub proof fn changed_file_is_noticed(
    s: Entries,
    dir: Seq<u8>,
    current: Seq<(Seq<u8>, u128)>,
    k: int,
    i: int,
)
    requires
        well_kept(s),
        fp_sorted(current),
        0 <= k < s.len(),
        same_path(s[k].0, dir),
        (0 <= i < s[k].1.len() && forall|j: int|
            0 <= j < current.len() ==> !(same_path((#[trigger] current[j]).0, s[k].1[i].0)
                && current[j].1 == s[k].1[i].1)) || (0 <= i < current.len() && forall|j: int|
            0 <= j < s[k].1.len() ==> !(same_path((#[trigger] s[k].1[j]).0, current[i].0)
                && s[k].1[j].1 == current[i].1)),
    ensures
        !has_fingerprint(s, dir, current),
{
    let known = s[k].1;
    assert(fp_sorted(known));
    if 0 <= i < known.len() && forall|j: int|
        0 <= j < current.len() ==> !(same_path((#[trigger] current[j]).0, known[i].0)
            && current[j].1 == known[i].1) {
        a_time_is_that_of_its_file(known, known[i].0, known[i].1);
        a_time_is_that_of_its_file(current, known[i].0, known[i].1);
        assert(same_path(known[i].0, known[i].0));
        changed_crate_is_not_skipped(s, dir, current, k, known[i].0);
    } else {
        a_time_is_that_of_its_file(known, current[i].0, current[i].1);
        a_time_is_that_of_its_file(current, current[i].0, current[i].1);
        assert(same_path(current[i].0, current[i].0));
        changed_crate_is_not_skipped(s, dir, current, k, current[i].0);
    }
}

/// A crate that the cache does not know is not skipped.
pub proof fn unknown_crate_is_not_skipped(s: Entries, dir: Seq<u8>, current: Seq<(Seq<u8>, u128)>)
    requires
        forall|k: int| 0 <= k < s.len() ==> !same_path((#[trigger] s[k]).0, dir),
    ensures
        !has_fingerprint(s, dir, current),
{
    lemma_find_key_unique(s, dir, s.len() as int);
}

/// A crate that is known with the same files at the same times is skipped.
pub proof fn known_crate_is_skipped(
    s: Entries,
    dir: Seq<u8>,
    current: Seq<(Seq<u8>, u128)>,
    k: int,
)
    requires
        well_kept(s),
        fp_sorted(current),
        0 <= k < s.len(),
        same_path(s[k].0, dir),
        forall|p: Seq<u8>| #[trigger] fp_time(s[k].1, p) == fp_time(current, p),
    ensures
        has_fingerprint(s, dir, current),
{
    lookup_finds_the_crate(s, dir, s[k].1);
    assert(fp_sorted(s[k].1));
    equal_times_are_the_same(s[k].1, current);
}

/// What the cache answers for a crate: yes exactly where it knows the crate with
/// the same time, or none, for every path.
pub proof fn the_cache_answers_by_every_time(
    cache: Cache,
    dir: FilePath,
    current: Fingerprint,
    r: bool,
)
    requires
        call_ensures(Cache::matches, (&cache, &dir, &current), r),
        well_kept(cache.retained()),
        fp_sorted(current@),
    ensures
        r <==> exists|k: int|
            0 <= k < cache.retained().len() && same_path(
                (#[trigger] cache.retained()[k]).0,
                dir@,
            ) && forall|p: Seq<u8>| #[trigger]
                fp_time(cache.retained()[k].1, p) == fp_time(current@, p),
{
    let s = cache.retained();
    if exists|k: int|
        0 <= k < s.len() && same_path((#[trigger] s[k]).0, dir@) && forall|p: Seq<u8>| #[trigger]
            fp_time(s[k].1, p) == fp_time(current@, p) {
        let k = choose|k: int|
            0 <= k < s.len() && same_path((#[trigger] s[k]).0, dir@) && forall|p: Seq<u8>|
             #[trigger] fp_time(s[k].1, p) == fp_time(current@, p);
        known_crate_is_skipped(s, dir@, current@, k);
    } else if exists|k: int| 0 <= k < s.len() && same_path((#[trigger] s[k]).0, dir@) {
        let k = choose|k: int| 0 <= k < s.len() && same_path((#[trigger] s[k]).0, dir@);
        let p = choose|p: Seq<u8>| #[trigger] fp_time(s[k].1, p) != fp_time(current@, p);
        changed_crate_is_not_skipped(s, dir@, current@, k, p);
    } else {
        unknown_crate_is_not_skipped(s, dir@, current@);
    }
}

/// A crate that is put in takes the place that it has, and else the last place;
/// one that is forgotten leaves the others where they are.
pub proof fn crates_keep_their_places(
    s: Entries,
    dir: Seq<u8>,
    fp: Seq<(Seq<u8>, u128)>,
    k: int,
)
    requires
        0 <= k <= s.len(),
        forall|i: int| 0 <= i < k ==> !same_path((#[trigger] s[i]).0, dir),
        k < s.len() ==> same_path(s[k].0, dir),
    ensures
        k < s.len() ==> put(s, dir, fp) == s.update(k, (s[k].0, fp)) && without(s, dir)
            == s.remove(k),
        k == s.len() ==> put(s, dir, fp) == s.push((dir, fp)) && without(s, dir) == s,
{
    lemma_find_key_unique(s, dir, k);
}

/// Crates are committed one after the other.
pub proof fn commits_are_one_by_one(
    s: Entries,
    more: Entries,
    dir: Seq<u8>,
    fp: Seq<(Seq<u8>, u128)>,
)
    ensures
        put_all(s, Seq::empty()) == s,
        put_all(s, more.push((dir, fp))) == put(put_all(s, more), dir, fp),
{
    assert(more.push((dir, fp)).drop_last() =~= more);
}

/// What a cache's buffers hold is what each element holds.
pub proof fn caches_hold_each_crate(v: Seq<CacheEntry>, b: Vec<u8>, p: FilePath)
    ensures
        entry_views(v).len() == v.len(),
        forall|i: int|
            0 <= i < v.len() ==> entry_views(v)[i] == ((#[trigger] v[i]).dir@, v[i].fingerprint@),
        bytes_view(Some(b)) == Some(b@),
        bytes_view(None) is None,
        path_view(Some(p)) == Some(p@),
        path_view(None) is None,
{
}

/// A text can stand in a line exactly where it holds no tab and no newline.
pub proof fn plain_texts_hold_no_separator(t: Seq<char>)
    ensures
        is_plain(t) <==> !t.contains('\t') && !t.contains('\n'),
{
    if is_plain(t) {
    } else {
        let i = choose|i: int| 0 <= i < t.len() && !(#[trigger] t[i] != '\t' && t[i] != '\n');
        assert(t.contains(t[i]));
    }
}

/// A cache without crates is its header: the tag, a tab and the hash in sixteen
/// digits.
pub proof fn an_empty_cache_is_its_header(h: u64)
    ensures
        encoded(h, Seq::empty()) == "ff-cache-v3"@ + seq!['\t'] + hex(h as nat, 16) + seq!['\n'],
{
    let ls = seq![header_line(h)] + entry_lines(Seq::empty());
    assert(ls =~= seq![header_line(h)]);
    assert(ls.drop_last() =~= Seq::empty());
    assert(terminated(ls.drop_last()) =~= Seq::empty());
    assert(encoded(h, Seq::empty()) =~= "ff-cache-v3"@ + seq!['\t'] + hex(h as nat, 16)
        + seq!['\n']);
}

/// A crate whose path cannot stand in a line adds nothing to what is written,
/// and neither does one without files.
pub proof fn unwritable_crates_add_nothing(
    h: u64,
    s: Entries,
    dir: Seq<u8>,
    fp: Seq<(Seq<u8>, u128)>,
)
    requires
        shown(dir).contains('\t') || shown(dir).contains('\n') || fp.len() == 0,
    ensures
        encoded(h, s.push((dir, fp))) == encoded(h, s),
        writable(s.push((dir, fp))) == writable(s),
{
    plain_texts_hold_no_separator(shown(dir));
    assert(s.push((dir, fp)).drop_last() =~= s);
    assert(entry_lines(s.push((dir, fp))) =~= entry_lines(s));
}

/// One more file of the last crate adds one line: the crate, the file and its
/// time, with tabs between them; a file whose path cannot stand in a line adds
/// none.
pub proof fn a_file_adds_its_line(
    h: u64,
    s: Entries,
    dir: Seq<u8>,
    fp: Seq<(Seq<u8>, u128)>,
    file: Seq<u8>,
    m: u128,
)
    requires
        is_plain(shown(dir)),
    ensures
        is_plain(shown(file)) ==> encoded(h, s.push((dir, fp.push((file, m))))) == encoded(
            h,
            s.push((dir, fp)),
        ) + shown(dir) + seq!['\t'] + shown(file) + seq!['\t'] + decimal(m as nat) + seq!['\n'],
        !is_plain(shown(file)) ==> encoded(h, s.push((dir, fp.push((file, m))))) == encoded(
            h,
            s.push((dir, fp)),
        ),
{
    let more = fp.push((file, m));
    let a = s.push((dir, fp));
    let b = s.push((dir, more));
    assert(a.drop_last() =~= s && b.drop_last() =~= s);
    assert(more.drop_last() =~= fp);
    let head = seq![header_line(h)];
    if is_plain(shown(file)) {
        let line = shown(dir) + seq!['\t'] + shown(file) + seq!['\t'] + decimal(m as nat);
        assert(entry_lines(b) =~= entry_lines(a).push(line));
        let ls = head + entry_lines(b);
        assert(ls.drop_last() =~= head + entry_lines(a));
        assert(ls.last() == line);
        assert(encoded(h, b) =~= encoded(h, a) + shown(dir) + seq!['\t'] + shown(file)
            + seq!['\t'] + decimal(m as nat) + seq!['\n']);
    } else {
        assert(dir_lines(shown(dir), more) == dir_lines(shown(dir), fp));
    }
}

proof fn lemma_reread_sorted(fp: Seq<(Seq<u8>, u128)>)
    ensures
        fp_sorted(reread(fp)),
    decreases fp.len(),
{
    if fp.len() > 0 {
        lemma_reread_sorted(fp.drop_last());
        lemma_fp_insert_sorted(
            reread(fp.drop_last()),
            encode_utf8(shown(fp.last().0)),
            fp.last().1,
        );
    }
}

/// Of a crate's files, those come back whose paths can stand in a line, under
/// the text that they show as and with their times.
pub proof fn a_file_comes_back_as_it_shows(
    fp: Seq<(Seq<u8>, u128)>,
    file: Seq<u8>,
    m: u128,
    q: Seq<u8>,
)
    ensures
        reread(Seq::empty()).len() == 0,
        is_plain(shown(file)) && same_path(encode_utf8(shown(file)), q) ==> fp_time(
            reread(fp.push((file, m))),
            q,
        ) == Some(m),
        !is_plain(shown(file)) || !same_path(encode_utf8(shown(file)), q) ==> fp_time(
            reread(fp.push((file, m))),
            q,
        ) == fp_time(reread(fp), q),
{
    assert(fp.push((file, m)).drop_last() =~= fp);
    lemma_reread_sorted(fp);
    recording_changes_one_file(reread(fp), encode_utf8(shown(file)), m, q);
}

/// A crate comes back unless its path, or the path of each of its files, cannot
/// stand in a line.
pub proof fn a_crate_comes_back_with_its_files(
    s: Entries,
    dir: Seq<u8>,
    fp: Seq<(Seq<u8>, u128)>,
)
    ensures
        is_plain(shown(dir)) && (exists|i: int|
            0 <= i < fp.len() && is_plain(shown((#[trigger] fp[i]).0))) ==> writable(
            s.push((dir, fp)),
        ) == writable(s).push((dir, reread(fp))),
        !is_plain(shown(dir)) || (forall|i: int|
            0 <= i < fp.len() ==> !is_plain(shown((#[trigger] fp[i]).0))) ==> writable(
            s.push((dir, fp)),
        ) == writable(s),
{
    assert(s.push((dir, fp)).drop_last() =~= s);
    lemma_reread_empty(fp);
}

proof fn lemma_reread_empty(fp: Seq<(Seq<u8>, u128)>)
    ensures
        reread(fp).len() > 0 <==> exists|i: int|
            0 <= i < fp.len() && is_plain(shown((#[trigger] fp[i]).0)),
    decreases fp.len(),
{
    if fp.len() > 0 {
        let front = fp.drop_last();
        lemma_reread_empty(front);
        assert(fp[fp.len() - 1] == fp.last());
        if exists|i: int| 0 <= i < front.len() && is_plain(shown((#[trigger] front[i]).0)) {
            let i = choose|i: int|
                0 <= i < front.len() && is_plain(shown((#[trigger] front[i]).0));
            assert(fp[i] == front[i]);
        }
        if exists|i: int| 0 <= i < fp.len() && is_plain(shown((#[trigger] fp[i]).0)) {
            let i = choose|i: int| 0 <= i < fp.len() && is_plain(shown((#[trigger] fp[i]).0));
            if i < front.len() {
                assert(front[i] == fp[i]);
            }
        }
    }
}

/// A line that names a crate, a file and a time gives that file that time, and
/// changes nothing else that was read.
pub proof fn a_line_is_read(
    ls: Seq<Seq<char>>,
    dir: Seq<char>,
    file: Seq<char>,
    m: u128,
    x: Seq<u8>,
    q: Seq<u8>,
)
    requires
        !dir.contains('\t'),
        !file.contains('\t'),
    ensures
        ({
            let before = lookup(read_lines(ls), x);
            let after = lookup(
                read_lines(
                    ls.push(dir + seq!['\t'] + file + seq!['\t'] + decimal(m as nat)),
                ),
                x,
            );
            &&& !same_path(encode_utf8(dir), x) ==> after == before
            &&& same_path(encode_utf8(dir), x) ==> {
                &&& after is Some
                &&& same_path(encode_utf8(file), q) ==> fp_time(after->0, q) == Some(m)
                &&& !same_path(encode_utf8(file), q) && before is Some ==> fp_time(after->0, q)
                    == fp_time(before->0, q)
                &&& !same_path(encode_utf8(file), q) && before is None ==> fp_time(after->0, q)
                    is None
            }
        }),
{
    let digits = decimal(m as nat);
    let line = dir + seq!['\t'] + file + seq!['\t'] + digits;
    let rest = file + seq!['\t'] + digits;
    decimal_reads_back(m as nat, u128::MAX as nat);
    assert(line =~= dir + seq!['\t'] + rest);
    assert forall|i: int| 0 <= i < dir.len() implies #[trigger] dir[i] != '\t' by {
        assert(dir.contains(dir[i]));
    }
    assert forall|i: int| 0 <= i < file.len() implies #[trigger] file[i] != '\t' by {
        assert(file.contains(file[i]));
    }
    lemma_split_tab(dir, rest);
    lemma_split_tab(file, digits);
    assert(line_fields(line) == Some((dir, file, m)));
    assert(ls.push(line).drop_last() =~= ls);
    let s = read_lines(ls);
    let d = encode_utf8(dir);
    let f = encode_utf8(file);
    let t = add_file(s, d, f, m);
    assert(read_lines(ls.push(line)) == t);
    lemma_find_key(s, d);
    lemma_find_key(s, x);
    let k = find_key(s, d);
    let fp: Seq<(Seq<u8>, u128)> = if k < s.len() {
        s[k].1
    } else {
        Seq::empty()
    };
    let new = fp_insert(fp, f, m);
    assert(t == put(s, d, new));
    put_replaces_one_crate(s, d, new, x);
    if same_path(d, x) {
        lemma_find_key_unique(s, x, k);
        assert(lookup(t, x) == Some(new));
        lemma_sorted_from_lines(ls, k);
        recording_changes_one_file(fp, f, m, q);
        if k == s.len() {
            a_time_is_that_of_its_file(fp, q, 0);
        }
    }
}

proof fn lemma_sorted_from_lines(ls: Seq<Seq<char>>, k: int)
    ensures
        0 <= k < read_lines(ls).len() ==> fp_sorted(read_lines(ls)[k].1),
    decreases ls.len(),
{
    if ls.len() > 0 {
        let s = read_lines(ls.drop_last());
        lemma_sorted_from_lines(ls.drop_last(), k);
        match line_fields(ls.last()) {
            Some((dir, file, m)) => {
                let d = encode_utf8(dir);
                let f = encode_utf8(file);
                lemma_find_key(s, d);
                let j = find_key(s, d);
                lemma_sorted_from_lines(ls.drop_last(), j);
                if j < s.len() {
                    lemma_fp_insert_sorted(s[j].1, f, m);
                } else {
                    lemma_fp_insert_sorted(Seq::empty(), f, m);
                }
            },
            None => {},
        }
    }
}

/// A line with fewer than two tabs is passed over.
pub proof fn a_malformed_line_is_passed_over(ls: Seq<Seq<char>>, a: Seq<char>, b: Seq<char>)
    requires
        !a.contains('\t'),
        !b.contains('\t'),
    ensures
        read_lines(Seq::empty()).len() == 0,
        read_lines(ls.push(a)) == read_lines(ls),
        read_lines(ls.push(a + seq!['\t'] + b)) == read_lines(ls),
{
    assert(ls.push(a).drop_last() =~= ls);
    let line = a + seq!['\t'] + b;
    assert(ls.push(line).drop_last() =~= ls);
    assert forall|i: int| 0 <= i < a.len() implies #[trigger] a[i] != '\t' by {
        assert(a.contains(a[i]));
    }
    lemma_find_from(a, '\t', 0);
    lemma_find_from(b, '\t', 0);
    if find_from(b, '\t', 0) < b.len() {
        assert(b.contains(b[find_from(b, '\t', 0)]));
    }
    lemma_split_tab(a, b);
    assert(split_tab(a) is None && split_tab(b) is None);
}

/// A header counts exactly where the tag is that of the format and the number
/// behind the tab is the hash; what follows a second tab does not matter, and a
/// line without a tab is no header.
pub proof fn a_header_carries_tag_and_hash(
    tag: Seq<char>,
    hash: Seq<char>,
    more: Seq<char>,
    expected: u64,
)
    requires
        !tag.contains('\t'),
        !hash.contains('\t'),
    ensures
        header_matches(tag + seq!['\t'] + hash, expected) <==> (tag == "ff-cache-v3"@
            && parse_number(hash, 16, u64::MAX as nat) == Some(expected as nat)),
        header_matches(tag + seq!['\t'] + hash + seq!['\t'] + more, expected) <==> (tag
            == "ff-cache-v3"@ && parse_number(hash, 16, u64::MAX as nat) == Some(expected as nat)),
        !header_matches(tag, expected),
{
    assert forall|i: int| 0 <= i < tag.len() implies #[trigger] tag[i] != '\t' by {
        assert(tag.contains(tag[i]));
    }
    assert forall|i: int| 0 <= i < hash.len() implies #[trigger] hash[i] != '\t' by {
        assert(hash.contains(hash[i]));
    }
    lemma_split_tab(tag, hash);
    lemma_split_tab(tag, hash + seq!['\t'] + more);
    lemma_split_tab(hash, more);
    assert(tag + seq!['\t'] + hash + seq!['\t'] + more =~= tag + seq!['\t'] + (hash + seq!['\t']
        + more));
    lemma_find_from(tag, '\t', 0);
    lemma_find_from(hash, '\t', 0);
}

/// A text is read by its lines behind a header that counts, and as nothing
/// behind any other first line.
pub proof fn a_cache_is_read_behind_its_header(
    header: Seq<char>,
    body: Seq<char>,
    expected: u64,
)
    requires
        !header.contains('\n'),
        header.len() > 0,
        header.last() != '\r',
    ensures
        header_matches(header, expected) ==> decoded(header + seq!['\n'] + body, expected)
            == read_lines(lines(body)),
        !header_matches(header, expected) ==> decoded(
            header + seq!['\n'] + body,
            expected,
        ).len() == 0,
        decoded(Seq::empty(), expected).len() == 0,
{
    lines_end_at_newlines(header, body);
    assert((seq![header] + lines(body)).skip(1) =~= lines(body));
}

/// The hash of no bytes is the seed; a further byte is folded in by xor and
/// multiplied by the prime; parts may be hashed one after the other.
pub proof fn hashing_is_byte_by_byte(seed: u64, a: Seq<u8>, b: Seq<u8>, x: u8)
    ensures
        fnv1a_hash(seed, Seq::empty()) == seed,
        fnv1a_hash(seed, a.push(x)) == (fnv1a_hash(seed, a) ^ (x as u64)).wrapping_mul(
            0x0100_0000_01b3,
        ),
        fnv1a_hash(seed, a + b) == fnv1a_hash(fnv1a_hash(seed, a), b),
    decreases b.len(),
{
    assert(a.push(x).drop_last() =~= a);
    if b.len() > 0 {
        hashing_is_byte_by_byte(seed, a, b.drop_last(), x);
        assert((a + b).drop_last() =~= a + b.drop_last());
    } else {
        assert(a + b =~= a);
    }
}

/// The bytes that a configuration file adds to what is hashed: its name between
/// zero bytes, and its contents.
spec fn config_bytes(name: Seq<char>, contents: Option<Seq<u8>>) -> Seq<u8> {
    match contents {
        Some(c) => seq![0u8] + encode_utf8(name) + seq![0u8] + c,
        None => Seq::empty(),
    }
}

proof fn lemma_with_config(seed: u64, a: Seq<u8>, name: Seq<char>, contents: Option<Seq<u8>>)
    ensures
        with_config(fnv1a_hash(seed, a), name, contents) == fnv1a_hash(
            seed,
            a + config_bytes(name, contents),
        ),
{
    match contents {
        Some(c) => {
            let nul = seq![0u8];
            let n = encode_utf8(name);
            hashing_is_byte_by_byte(seed, a, nul, 0);
            hashing_is_byte_by_byte(seed, a + nul, n, 0);
            hashing_is_byte_by_byte(seed, a + nul + n, nul, 0);
            hashing_is_byte_by_byte(seed, a + nul + n + nul, c, 0);
            assert(a + config_bytes(name, contents) =~= a + nul + n + nul + c);
        },
        None => {
            assert(a + config_bytes(name, contents) =~= a);
        },
    }
}

/// The hash of the tools is the hash of one run of bytes: the version, then each
/// configuration file that there is, its name between zero bytes before its
/// contents. What is not there adds nothing.
pub proof fn tools_are_hashed_as_one_run(v: Seq<u8>, dot: Seq<u8>, c: Seq<u8>)
    ensures
        ({
            let start = 0xcbf2_9ce4_8422_2325u64;
            let d = seq![0u8] + encode_utf8(".rustfmt.toml"@) + seq![0u8] + dot;
            let e = seq![0u8] + encode_utf8("rustfmt.toml"@) + seq![0u8] + c;
            &&& tool_hash_of(Some(v), Some(dot), Some(c)) == fnv1a_hash(start, v + d + e)
            &&& tool_hash_of(Some(v), Some(dot), None) == fnv1a_hash(start, v + d)
            &&& tool_hash_of(Some(v), None, Some(c)) == fnv1a_hash(start, v + e)
            &&& tool_hash_of(Some(v), None, None) == fnv1a_hash(start, v)
            &&& tool_hash_of(None, Some(dot), Some(c)) == fnv1a_hash(start, d + e)
            &&& tool_hash_of(None, Some(dot), None) == fnv1a_hash(start, d)
            &&& tool_hash_of(None, None, Some(c)) == fnv1a_hash(start, e)
            &&& tool_hash_of(None, None, None) == start
        }),
{
    let start = 0xcbf2_9ce4_8422_2325u64;
    let none = Seq::<u8>::empty();
    let d = config_bytes(".rustfmt.toml"@, Some(dot));
    let e = config_bytes("rustfmt.toml"@, Some(c));
    assert(fnv1a_hash(start, none) == start);
    lemma_with_config(start, v, ".rustfmt.toml"@, Some(dot));
    lemma_with_config(start, v, ".rustfmt.toml"@, None);
    lemma_with_config(start, none, ".rustfmt.toml"@, Some(dot));
    lemma_with_config(start, none, ".rustfmt.toml"@, None);
    assert(v + none =~= v && none + none =~= none && none + d =~= d && none + e =~= e);
    lemma_with_config(start, v + d, "rustfmt.toml"@, Some(c));
    lemma_with_config(start, v, "rustfmt.toml"@, Some(c));
    lemma_with_config(start, d, "rustfmt.toml"@, Some(c));
    lemma_with_config(start, none, "rustfmt.toml"@, Some(c));
}

proof fn lemma_walked_sorted(entries: Seq<WalkEntry>)
    ensures
        fp_sorted(walked(entries)),
    decreases entries.len(),
{
    if entries.len() > 0 {
        lemma_walked_sorted(entries.drop_last());
        match recording(entries.last()) {
            Some((path, m)) => lemma_fp_insert_sorted(walked(entries.drop_last()), path, m),
            None => {},
        }
    }
}

/// A walk takes in every Rust source file that could be examined: its time where
/// that can be told, and its length. Nothing else counts.
pub proof fn a_walk_takes_in_each_source_file(entries: Seq<WalkEntry>, e: WalkEntry, q: Seq<u8>)
    ensures
        walked(Seq::empty()).len() == 0,
        rs_bytes(Seq::empty()) == 0,
        !e.is_file || !is_rust_source(e.path@) || e.stat is None ==> walked(entries.push(e))
            == walked(entries) && rs_bytes(entries.push(e)) == rs_bytes(entries),
        e.is_file && is_rust_source(e.path@) && e.stat is Some ==> rs_bytes(entries.push(e))
            == rs_bytes(entries) + (e.stat->0).0,
        e.stat is Some && (e.stat->0).1 is None ==> walked(entries.push(e)) == walked(entries),
        e.is_file && is_rust_source(e.path@) && e.stat is Some && (e.stat->0).1 is Some ==> fp_time(
            walked(entries.push(e)),
            q,
        ) == if same_path(e.path@, q) {
            (e.stat->0).1
        } else {
            fp_time(walked(entries), q)
        },
{
    assert(entries.push(e).drop_last() =~= entries);
    lemma_walked_sorted(entries);
    match recording(e) {
        Some((path, m)) => recording_changes_one_file(walked(entries), path, m, q),
        None => {},
    }
}

} // verus!
