//! What the skip cache promises over several runs.

use crate::bytes::{lemma_shown_text_encodes_back, lemma_text_shows_as_itself, shown};
use crate::cache::{
    add_file, decoded, dir_lines, dirs_are_text, encoded, entry_lines, file_line, has_fingerprint,
    header_line, header_matches, is_plain, line_fields, lookup, plain_key, put, put_all,
    read_lines, recording, reread, split_tab, terminated, walked, well_kept, without,
    without_failed, writable, Entries, VERSION_TAG,
};
use crate::fingerprint::{
    fp_insert, fp_rank, fp_same, fp_sorted, lemma_fp_insert_sorted, lemma_fp_rank,
    lemma_fp_rank_unique,
};
use crate::keyed::{find_key, keys_distinct, lemma_find_key, lemma_find_key_unique};
use crate::number::{
    decimal, decimal_reads_back, digit_value, hex, hex_reads_back,
};
use crate::path::{path_le, path_order_is_total, same_path};
use crate::size::WalkEntry;
use crate::text::{find_from, lemma_find_from, lemma_find_from_unique, lines, strip_cr};
use crate::types::FileFailure;
use vstd::prelude::*;
use vstd::utf8::{encode_utf8, valid_utf8};
use vstd::seq_lib::{to_multiset_build, to_multiset_insert, to_multiset_len};

verus! {

proof fn lemma_terminated_front(a: Seq<char>, rest: Seq<Seq<char>>)
    ensures
        terminated(seq![a] + rest) == a + seq!['\n'] + terminated(rest),
    decreases rest.len(),
{
    let whole = seq![a] + rest;
    if rest.len() == 0 {
        let none = Seq::<Seq<char>>::empty();
        assert(whole.drop_last() =~= none);
        assert(rest =~= none);
        assert(terminated(none) =~= Seq::<char>::empty());
        assert(whole.last() == a);
        assert(terminated(whole) =~= a + seq!['\n'] + terminated(rest));
    } else {
        assert(whole.drop_last() =~= seq![a] + rest.drop_last());
        assert(whole.last() == rest.last());
        lemma_terminated_front(a, rest.drop_last());
        assert(terminated(whole) =~= a + seq!['\n'] + terminated(rest));
    }
}

/// Whether a line comes back from a text whole: no terminator in it or at its end.
spec fn is_line(l: Seq<char>) -> bool {
    &&& forall|i: int| 0 <= i < l.len() ==> #[trigger] l[i] != '\n'
    &&& l.len() > 0 ==> l.last() != '\r'
}

proof fn lemma_lines_of_terminated(ls: Seq<Seq<char>>)
    requires
        forall|i: int| 0 <= i < ls.len() ==> is_line(#[trigger] ls[i]),
    ensures
        lines(terminated(ls)) == ls,
    decreases ls.len(),
{
    if ls.len() > 0 {
        let a = ls[0];
        let rest = ls.drop_first();
        assert(ls =~= seq![a] + rest);
        lemma_terminated_front(a, rest);
        let t = terminated(ls);
        assert(is_line(a));
        assert forall|k: int| 0 <= k < a.len() implies t[k] != '\n' by {
            assert(t[k] == a[k]);
        }
        lemma_find_from_unique(t, '\n', 0, a.len() as int);
        assert(t.take(a.len() as int) =~= a);
        assert(t.skip(a.len() as int + 1) =~= terminated(rest));
        assert forall|i: int| 0 <= i < rest.len() implies is_line(#[trigger] rest[i]) by {
            assert(rest[i] == ls[i + 1]);
        }
        lemma_lines_of_terminated(rest);
    }
}

pub proof fn lemma_split_tab(a: Seq<char>, b: Seq<char>)
    requires
        forall|i: int| 0 <= i < a.len() ==> #[trigger] a[i] != '\t',
    ensures
        split_tab(a + seq!['\t'] + b) == Some((a, b)),
{
    let t = a + seq!['\t'] + b;
    assert forall|k: int| 0 <= k < a.len() implies t[k] != '\t' by {
        assert(t[k] == a[k]);
    }
    lemma_find_from_unique(t, '\t', 0, a.len() as int);
    assert(t.take(a.len() as int) =~= a);
    assert(t.skip(a.len() as int + 1) =~= b);
}

proof fn lemma_header_line(h: u64)
    ensures
        is_line(header_line(h)),
        forall|e: u64| header_matches(header_line(h), e) <==> e == h,
{
    reveal_strlit("ff-cache-v3");
    hex_reads_back(h);
    let digits = hex(h as nat, 16);
    let line = header_line(h);
    assert forall|i: int| 0 <= i < digits.len() implies #[trigger] digits[i] != '\t' && digits[i]
        != '\n' && digits[i] != '\r' by {
        assert(digit_value(digits[i], 16) is Some);
    }
    assert forall|i: int| 0 <= i < line.len() implies #[trigger] line[i] != '\n' by {
        if i >= VERSION_TAG@.len() + 1 {
            assert(line[i] == digits[i - VERSION_TAG@.len() - 1]);
        }
    }
    assert(line.last() == digits[15]);
    lemma_split_tab(VERSION_TAG@, digits);
    lemma_find_from(digits, '\t', 0);
    assert(split_tab(digits) is None);
}

proof fn lemma_file_line(dir: Seq<char>, file: Seq<char>, m: u128)
    requires
        is_plain(dir),
        is_plain(file),
    ensures
        is_line(file_line(dir, file, m)),
        line_fields(file_line(dir, file, m)) == Some((dir, file, m)),
{
    decimal_reads_back(m as nat, u128::MAX as nat);
    let digits = decimal(m as nat);
    let line = file_line(dir, file, m);
    let rest = file + seq!['\t'] + digits;
    assert(line =~= dir + seq!['\t'] + rest);
    lemma_split_tab(dir, rest);
    lemma_split_tab(file, digits);
    assert forall|i: int| 0 <= i < line.len() implies #[trigger] line[i] != '\n' by {
        if i < dir.len() {
            assert(line[i] == dir[i]);
        } else if dir.len() < i < dir.len() + 1 + file.len() {
            assert(line[i] == file[i - dir.len() - 1]);
        } else if i > dir.len() + 1 + file.len() {
            let j = i - dir.len() - file.len() - 2;
            assert(line[i] == digits[j]);
            assert(digit_value(digits[j], 10) is Some);
        }
    }
    assert(line.last() == digits[digits.len() - 1]);
    assert(digit_value(digits[digits.len() - 1], 10) is Some);
}

proof fn lemma_dir_lines(dir: Seq<char>, fp: Seq<(Seq<u8>, u128)>)
    requires
        is_plain(dir),
    ensures
        forall|i: int| 0 <= i < dir_lines(dir, fp).len() ==> is_line(#[trigger] dir_lines(dir, fp)[i]),
    decreases fp.len(),
{
    if fp.len() > 0 {
        lemma_dir_lines(dir, fp.drop_last());
        let front = dir_lines(dir, fp.drop_last());
        if is_plain(shown(fp.last().0)) {
            lemma_file_line(dir, shown(fp.last().0), fp.last().1);
        }
        assert forall|i: int| 0 <= i < dir_lines(dir, fp).len() implies is_line(
            #[trigger] dir_lines(dir, fp)[i],
        ) by {
            if i < front.len() {
                assert(dir_lines(dir, fp)[i] == front[i]);
            }
        }
    }
}

proof fn lemma_entry_lines(s: Entries)
    ensures
        forall|i: int| 0 <= i < entry_lines(s).len() ==> is_line(#[trigger] entry_lines(s)[i]),
    decreases s.len(),
{
    if s.len() > 0 {
        lemma_entry_lines(s.drop_last());
        let front = entry_lines(s.drop_last());
        let dir = shown(s.last().0);
        if is_plain(dir) {
            lemma_dir_lines(dir, s.last().1);
            let more = dir_lines(dir, s.last().1);
            assert forall|i: int| 0 <= i < (front + more).len() implies is_line(
                #[trigger] (front + more)[i],
            ) by {
                if i < front.len() {
                    assert(is_line(front[i]));
                } else {
                    assert(is_line(more[i - front.len()]));
                }
            }
        }
    }
}

/// A file that comes after all others goes to the end.
proof fn lemma_insert_last(fp: Seq<(Seq<u8>, u128)>, file: Seq<u8>, m: u128)
    requires
        fp_sorted(fp.push((file, m))),
    ensures
        fp_insert(fp, file, m) == fp.push((file, m)),
{
    let t = fp.push((file, m));
    assert forall|i: int| 0 <= i < fp.len() implies !path_le(file, (#[trigger] fp[i]).0) by {
        assert(t[i] == fp[i] && t[fp.len() as int] == (file, m));
        assert(path_le(t[i].0, t[fp.len() as int].0));
        path_order_is_total(file, fp[i].0);
    }
    lemma_fp_rank_unique(fp, file, fp.len());
    assert(fp_insert(fp, file, m) =~= t);
}

proof fn lemma_read_dir_lines(ls: Seq<Seq<char>>, dir: Seq<u8>, fp: Seq<(Seq<u8>, u128)>)
    requires
        valid_utf8(dir),
        is_plain(shown(dir)),
        find_key(read_lines(ls), dir) == read_lines(ls).len(),
    ensures
        read_lines(ls + dir_lines(shown(dir), fp)) == if reread(fp).len() > 0 {
            read_lines(ls).push((dir, reread(fp)))
        } else {
            read_lines(ls)
        },
    decreases fp.len(),
{
    let base = read_lines(ls);
    if fp.len() == 0 {
        assert(ls + dir_lines(shown(dir), fp) =~= ls);
    } else {
        let front = fp.drop_last();
        lemma_read_dir_lines(ls, dir, front);
        let (file, m) = fp.last();
        if is_plain(shown(file)) {
            lemma_file_line(shown(dir), shown(file), m);
            lemma_shown_text_encodes_back(dir);
            let whole = ls + dir_lines(shown(dir), fp);
            let before = ls + dir_lines(shown(dir), front);
            assert(whole.drop_last() =~= before);
            assert(whole.last() == file_line(shown(dir), shown(file), m));
            let p = reread(front);
            lemma_fp_rank(p, encode_utf8(shown(file)));
            assert(reread(fp).len() > 0);
            if p.len() == 0 {
                assert(p =~= Seq::empty());
                assert(read_lines(whole) =~= base.push((dir, reread(fp))));
            } else {
                let mid = base.push((dir, p));
                lemma_find_key(base, dir);
                assert forall|i: int| 0 <= i < base.len() implies !same_path(
                    (#[trigger] mid[i]).0,
                    dir,
                ) by {
                    assert(mid[i] == base[i]);
                }
                lemma_find_key_unique(mid, dir, base.len() as int);
                assert(read_lines(whole) =~= base.push((dir, reread(fp))));
            }
        }
    }
}

/// Every crate that can be written is a crate of `s`.
proof fn lemma_writable_keys(s: Entries)
    ensures
        forall|i: int|
            0 <= i < writable(s).len() ==> exists|j: int|
                0 <= j < s.len() && (#[trigger] s[j]).0 == (#[trigger] writable(s)[i]).0,
    decreases s.len(),
{
    if s.len() > 0 {
        let front = s.drop_last();
        lemma_writable_keys(front);
        let w = writable(front);
        assert forall|i: int| 0 <= i < writable(s).len() implies exists|j: int|
            0 <= j < s.len() && (#[trigger] s[j]).0 == (#[trigger] writable(s)[i]).0 by {
            if i < w.len() {
                assert(writable(s)[i] == w[i]);
                let j = choose|j: int| 0 <= j < front.len() && (#[trigger] front[j]).0 == w[i].0;
                assert(s[j] == front[j]);
                assert(s[j].0 == writable(s)[i].0);
            } else {
                assert(s[s.len() - 1].0 == writable(s)[i].0);
            }
        }
    }
}

proof fn lemma_front_well_kept(s: Entries)
    requires
        s.len() > 0,
        well_kept(s),
    ensures
        well_kept(s.drop_last()),
        fp_sorted(s.last().1),
        forall|i: int| 0 <= i < s.len() - 1 ==> !same_path((#[trigger] s[i]).0, s.last().0),
{
    let front = s.drop_last();
    assert forall|i: int, j: int| 0 <= i < j < front.len() implies !same_path(
        (#[trigger] front[i]).0,
        (#[trigger] front[j]).0,
    ) by {
        assert(front[i] == s[i] && front[j] == s[j]);
    }
    assert forall|i: int| 0 <= i < front.len() implies fp_sorted((#[trigger] front[i]).1) by {
        assert(front[i] == s[i]);
    }
    assert(s[s.len() - 1] == s.last());
}

proof fn lemma_read_entry_lines(s: Entries)
    requires
        well_kept(s),
        dirs_are_text(s),
    ensures
        read_lines(entry_lines(s)) == writable(s),
    decreases s.len(),
{
    if s.len() > 0 {
        let front = s.drop_last();
        let dir = s.last().0;
        lemma_front_well_kept(s);
        assert forall|i: int| 0 <= i < front.len() implies valid_utf8((#[trigger] front[i]).0) by {
            assert(front[i] == s[i]);
        }
        assert(valid_utf8(s[s.len() - 1].0));
        lemma_read_entry_lines(front);
        if is_plain(shown(dir)) {
            let w = writable(front);
            lemma_writable_keys(front);
            assert forall|i: int| 0 <= i < w.len() implies !same_path((#[trigger] w[i]).0, dir) by {
                let j = choose|j: int| 0 <= j < front.len() && (#[trigger] front[j]).0 == w[i].0;
                assert(s[j] == front[j]);
            }
            lemma_find_key_unique(w, dir, w.len() as int);
            lemma_read_dir_lines(entry_lines(front), dir, s.last().1);
        }
    }
}

/// A cache that was saved reads back as it was, except for crates and files
/// whose paths hold a tab or a newline, files whose paths are not UTF-8 (they
/// come back as they show), and crates without files; for tools of another
/// hash it reads as empty.
pub proof fn saved_cache_reads_back(h: u64, s: Entries, expected: u64)
    requires
        well_kept(s),
        dirs_are_text(s),
    ensures
        decoded(encoded(h, s), expected) == if expected == h {
            writable(s)
        } else {
            Seq::empty()
        },
{
    let ls = seq![header_line(h)] + entry_lines(s);
    lemma_header_line(h);
    lemma_entry_lines(s);
    assert forall|i: int| 0 <= i < ls.len() implies is_line(#[trigger] ls[i]) by {
        if i > 0 {
            assert(ls[i] == entry_lines(s)[i - 1]);
        }
    }
    lemma_lines_of_terminated(ls);
    assert(ls.skip(1) =~= entry_lines(s));
    lemma_read_entry_lines(s);
}

/// Where every path is UTF-8 and can stand in a line, and no crate is without
/// files, all of a cache can be written.
pub proof fn plain_cache_is_writable(s: Entries)
    requires
        well_kept(s),
        forall|i: int|
            0 <= i < s.len() ==> is_plain(shown((#[trigger] s[i]).0)) && s[i].1.len() > 0
                && all_plain_text(s[i].1),
    ensures
        writable(s) == s,
    decreases s.len(),
{
    if s.len() > 0 {
        let front = s.drop_last();
        lemma_front_well_kept(s);
        assert forall|i: int| 0 <= i < front.len() implies is_plain(
            shown((#[trigger] front[i]).0),
        ) && front[i].1.len() > 0 && all_plain_text(front[i].1) by {
            assert(front[i] == s[i]);
        }
        plain_cache_is_writable(front);
        assert(s[s.len() - 1] == s.last());
        lemma_all_plain(s.last().1);
    }
    assert(writable(s) =~= s);
}

/// Whether every file's path is UTF-8 and can stand in a line.
pub open spec fn all_plain_text(fp: Seq<(Seq<u8>, u128)>) -> bool {
    forall|j: int|
        0 <= j < fp.len() ==> valid_utf8((#[trigger] fp[j]).0) && is_plain(shown(fp[j].0))
}

proof fn lemma_all_plain(fp: Seq<(Seq<u8>, u128)>)
    requires
        fp_sorted(fp),
        all_plain_text(fp),
    ensures
        reread(fp) == fp,
    decreases fp.len(),
{
    if fp.len() > 0 {
        let front = fp.drop_last();
        assert forall|j: int| 0 <= j < front.len() implies valid_utf8((#[trigger] front[j]).0)
            && is_plain(shown(front[j].0)) by {
            assert(front[j] == fp[j]);
        }
        assert forall|i: int, j: int| 0 <= i < j < front.len() implies path_le(
            (#[trigger] front[i]).0,
            (#[trigger] front[j]).0,
        ) && !same_path(front[i].0, front[j].0) by {
            assert(front[i] == fp[i] && front[j] == fp[j]);
        }
        lemma_all_plain(front);
        let (file, m) = fp.last();
        assert(fp[fp.len() - 1] == fp.last());
        lemma_shown_text_encodes_back(file);
        assert(front.push((file, m)) =~= fp);
        lemma_insert_last(front, file, m);
    }
}

/// Forgetting a crate leaves the paths of the others as they are.
pub proof fn lemma_without_text(s: Entries, dir: Seq<u8>)
    requires
        dirs_are_text(s),
    ensures
        dirs_are_text(without(s, dir)),
{
    let t = without(s, dir);
    let k = find_key(s, dir);
    lemma_find_key(s, dir);
    assert forall|i: int| 0 <= i < t.len() implies valid_utf8((#[trigger] t[i]).0) by {
        if k < s.len() && i >= k {
            assert(t[i] == s[i + 1]);
        } else {
            assert(t[i] == s[i]);
        }
    }
}

pub proof fn lemma_without_failed_text(s: Entries, failures: Seq<FileFailure>)
    requires
        dirs_are_text(s),
    ensures
        dirs_are_text(without_failed(s, failures)),
    decreases failures.len(),
{
    if failures.len() > 0 {
        lemma_without_failed_text(s, failures.drop_last());
        lemma_without_text(
            without_failed(s, failures.drop_last()),
            failures.last().manifest_dir@,
        );
    }
}

pub proof fn lemma_put_all_text(s: Entries, more: Entries)
    requires
        dirs_are_text(s),
        dirs_are_text(more),
    ensures
        dirs_are_text(put_all(s, more)),
    decreases more.len(),
{
    if more.len() > 0 {
        let front = more.drop_last();
        assert forall|i: int| 0 <= i < front.len() implies valid_utf8((#[trigger] front[i]).0) by {
            assert(front[i] == more[i]);
        }
        lemma_put_all_text(s, front);
        let before = put_all(s, front);
        let after = put_all(s, more);
        lemma_find_key(before, more.last().0);
        assert(valid_utf8(more[more.len() - 1].0));
        assert forall|i: int| 0 <= i < after.len() implies valid_utf8((#[trigger] after[i]).0) by {
            if i < before.len() {
                assert(after[i].0 == before[i].0);
            }
        }
    }
}

/// Putting a crate in keeps a cache well kept, gives that crate its new
/// fingerprint and every other crate the one it had.
pub proof fn put_replaces_one_crate(
    s: Entries,
    dir: Seq<u8>,
    fp: Seq<(Seq<u8>, u128)>,
    x: Seq<u8>,
)
    ensures
        well_kept(s) && fp_sorted(fp) ==> well_kept(put(s, dir, fp)),
        lookup(put(s, dir, fp), x) == if same_path(dir, x) {
            Some(fp)
        } else {
            lookup(s, x)
        },
        is_plain(shown(dir)) && plain_key(s, x) ==> plain_key(put(s, dir, fp), x),
        !same_path(dir, x) && plain_key(s, x) ==> plain_key(put(s, dir, fp), x),
{
    let t = put(s, dir, fp);
    let k = find_key(s, dir);
    let n = find_key(s, x);
    lemma_find_key(s, dir);
    lemma_find_key(s, x);
    assert forall|i: int| 0 <= i < s.len() implies (#[trigger] t[i]).0 == s[i].0 by {}
    if n < s.len() {
        assert forall|i: int| 0 <= i < n implies !same_path((#[trigger] t[i]).0, x) by {
            assert(t[i].0 == s[i].0);
        }
        assert(t[n].0 == s[n].0);
        lemma_find_key_unique(t, x, n);
    } else {
        assert forall|i: int| 0 <= i < s.len() implies !same_path((#[trigger] t[i]).0, x) by {
            assert(t[i].0 == s[i].0);
        }
        if same_path(dir, x) {
            assert(k == s.len()) by {
                if k < s.len() {
                    assert(same_path(s[k].0, x));
                }
            }
            lemma_find_key_unique(t, x, s.len() as int);
        } else {
            if k == s.len() {
                assert(t[s.len() as int].0 == dir);
            }
            assert forall|i: int| 0 <= i < t.len() implies !same_path((#[trigger] t[i]).0, x) by {
                if i < s.len() {
                    assert(t[i].0 == s[i].0);
                }
            }
            lemma_find_key_unique(t, x, t.len() as int);
        }
    }
    if same_path(dir, x) {
        assert(n == k) by {
            if n < s.len() {
                assert(same_path(s[n].0, dir));
            }
            if k < s.len() {
                assert(same_path(s[k].0, x));
            }
        }
    }
    if well_kept(s) && fp_sorted(fp) {
        assert forall|i: int, j: int| 0 <= i < j < t.len() implies !same_path(
            (#[trigger] t[i]).0,
            (#[trigger] t[j]).0,
        ) by {
            assert(t[i].0 == s[i].0);
            if j < s.len() {
                assert(t[j].0 == s[j].0);
            }
        }
        assert forall|i: int| 0 <= i < t.len() implies fp_sorted((#[trigger] t[i]).1) by {
            if i < s.len() {
                assert(t[i].1 == s[i].1 || t[i].1 == fp);
            }
        }
    }
}

/// Forgetting a crate keeps a cache well kept, and all it knows of other crates.
pub proof fn without_forgets_one_crate(s: Entries, dir: Seq<u8>, x: Seq<u8>)
    requires
        well_kept(s),
    ensures
        well_kept(without(s, dir)),
        lookup(without(s, dir), x) == if same_path(dir, x) {
            None
        } else {
            lookup(s, x)
        },
        plain_key(s, x) ==> plain_key(without(s, dir), x),
{
    let t = without(s, dir);
    let k = find_key(s, dir);
    let n = find_key(s, x);
    lemma_find_key(s, dir);
    lemma_find_key(s, x);
    if k < s.len() {
        assert forall|i: int| 0 <= i < t.len() implies #[trigger] t[i] == s[if i < k {
            i
        } else {
            i + 1
        }] by {}
        if same_path(dir, x) {
            assert forall|i: int| 0 <= i < t.len() implies !same_path((#[trigger] t[i]).0, x) by {
                let j = if i < k { i } else { i + 1 };
                assert(t[i] == s[j]);
                if j > k {
                    assert(!same_path(s[k].0, s[j].0));
                }
            }
            lemma_find_key_unique(t, x, t.len() as int);
        } else {
            let m = if n < k { n } else { n - 1 };
            assert(n != k);
            assert forall|i: int| 0 <= i < m implies !same_path((#[trigger] t[i]).0, x) by {
                let j = if i < k { i } else { i + 1 };
                assert(t[i] == s[j]);
                assert(j < n);
            }
            if n < s.len() {
                assert(t[m] == s[n]);
            }
            lemma_find_key_unique(t, x, m);
        }
        assert forall|i: int, j: int| 0 <= i < j < t.len() implies !same_path(
            (#[trigger] t[i]).0,
            (#[trigger] t[j]).0,
        ) by {
            let a = if i < k { i } else { i + 1 };
            let b = if j < k { j } else { j + 1 };
            assert(t[i] == s[a] && t[j] == s[b]);
        }
        assert forall|i: int| 0 <= i < t.len() implies fp_sorted((#[trigger] t[i]).1) by {
            let a = if i < k { i } else { i + 1 };
            assert(t[i] == s[a]);
        }
    } else if same_path(dir, x) {
        if n < s.len() {
            assert(same_path(s[n].0, dir));
        }
    }
}

/// Committing keeps a cache well kept; what this run learned of a crate wins
/// over what was known.
pub proof fn commit_prefers_this_run(s: Entries, more: Entries, x: Seq<u8>)
    requires
        well_kept(s),
        well_kept(more),
    ensures
        well_kept(put_all(s, more)),
        lookup(put_all(s, more), x) == match lookup(more, x) {
            Some(fp) => Some(fp),
            None => lookup(s, x),
        },
        plain_key(s, x) && plain_key(more, x) ==> plain_key(put_all(s, more), x),
    decreases more.len(),
{
    lemma_find_key(more, x);
    if more.len() > 0 {
        let front = more.drop_last();
        let (dir, fp) = more.last();
        lemma_front_well_kept(more);
        commit_prefers_this_run(s, front, x);
        put_replaces_one_crate(put_all(s, front), dir, fp, x);
        lemma_find_key(front, x);
        let n = find_key(front, x);
        assert forall|i: int| 0 <= i < front.len() implies #[trigger] more[i] == front[i] by {}
        assert(more[more.len() - 1] == more.last());
        assert forall|i: int| 0 <= i < n implies !same_path((#[trigger] more[i]).0, x) by {
            assert(more[i] == front[i]);
        }
        if n < front.len() {
            assert(more[n] == front[n]);
            assert(!same_path(more[n].0, dir));
            lemma_find_key_unique(more, x, n);
        } else if same_path(dir, x) {
            lemma_find_key_unique(more, x, n);
        } else {
            lemma_find_key_unique(more, x, more.len() as int);
        }
    }
}

proof fn lemma_writable_lookup(s: Entries, x: Seq<u8>)
    requires
        well_kept(s),
    ensures
        lookup(s, x) is None ==> lookup(writable(s), x) is None,
        find_key(s, x) < s.len() && is_plain(shown(s[find_key(s, x)].0)) && reread(
            s[find_key(s, x)].1,
        ).len() > 0 ==> lookup(writable(s), x) == Some(reread(s[find_key(s, x)].1)),
    decreases s.len(),
{
    lemma_find_key(s, x);
    if s.len() > 0 {
        let front = s.drop_last();
        let dir = s.last().0;
        lemma_front_well_kept(s);
        lemma_writable_lookup(front, x);
        lemma_writable_keys(front);
        lemma_find_key(front, x);
        let w = writable(front);
        let t = writable(s);
        lemma_find_key(w, x);
        let k = find_key(w, x);
        let n = find_key(front, x);
        assert forall|i: int| 0 <= i < front.len() implies #[trigger] s[i] == front[i] by {}
        assert(s[s.len() - 1] == s.last());
        if n < front.len() {
            assert forall|i: int| 0 <= i < n implies !same_path((#[trigger] s[i]).0, x) by {
                assert(s[i] == front[i]);
            }
            lemma_find_key_unique(s, x, n);
            assert(!same_path(s[n].0, dir));
        } else {
            assert forall|i: int| 0 <= i < front.len() implies !same_path((#[trigger] s[i]).0, x) by {
                assert(s[i] == front[i]);
            }
            if same_path(dir, x) {
                lemma_find_key_unique(s, x, n);
            } else {
                lemma_find_key_unique(s, x, s.len() as int);
            }
        }
        assert forall|i: int| 0 <= i < w.len() implies #[trigger] t[i] == w[i] by {}
        assert forall|i: int| 0 <= i < k implies !same_path((#[trigger] t[i]).0, x) by {
            assert(t[i] == w[i]);
        }
        if k < w.len() {
            assert(t[k] == w[k]);
            lemma_find_key_unique(t, x, k);
        } else if t.len() > w.len() && same_path(dir, x) {
            lemma_find_key_unique(t, x, k);
        } else {
            lemma_find_key_unique(t, x, t.len() as int);
        }
    }
}

/// A crate that was formatted without failure and has not changed since is
/// skipped by the next run with the same tools.
pub proof fn unchanged_crate_is_skipped(
    h: u64,
    retained: Entries,
    pending: Entries,
    dir: Seq<u8>,
    fp: Seq<(Seq<u8>, u128)>,
)
    requires
        well_kept(retained),
        well_kept(pending),
        dirs_are_text(retained),
        dirs_are_text(pending),
        plain_key(retained, dir),
        plain_key(pending, dir),
        lookup(pending, dir) == Some(fp),
        fp.len() > 0,
        all_plain_text(fp),
    ensures
        has_fingerprint(decoded(encoded(h, put_all(retained, pending)), h), dir, fp),
{
    let s = put_all(retained, pending);
    commit_prefers_this_run(retained, pending, dir);
    lemma_put_all_text(retained, pending);
    saved_cache_reads_back(h, s, h);
    lemma_writable_lookup(s, dir);
    lemma_find_key(pending, dir);
    assert(fp_sorted(pending[find_key(pending, dir)].1));
    lemma_all_plain(fp);
    assert(fp_same(fp, fp));
}

/// Forgetting the crates that failed keeps a cache well kept, forgets each of
/// them and nothing else.
pub proof fn failed_crates_are_forgotten(s: Entries, failures: Seq<FileFailure>, x: Seq<u8>)
    requires
        well_kept(s),
    ensures
        well_kept(without_failed(s, failures)),
        lookup(without_failed(s, failures), x) == if exists|i: int|
            0 <= i < failures.len() && same_path((#[trigger] failures[i]).manifest_dir@, x) {
            None
        } else {
            lookup(s, x)
        },
        plain_key(s, x) ==> plain_key(without_failed(s, failures), x),
    decreases failures.len(),
{
    if failures.len() > 0 {
        let front = failures.drop_last();
        failed_crates_are_forgotten(s, front, x);
        without_forgets_one_crate(without_failed(s, front), failures.last().manifest_dir@, x);
        assert(failures[failures.len() - 1] == failures.last());
        assert forall|i: int| 0 <= i < front.len() implies #[trigger] front[i] == failures[i] by {}
        if exists|i: int|
            0 <= i < failures.len() && same_path((#[trigger] failures[i]).manifest_dir@, x) {
            let i = choose|i: int|
                0 <= i < failures.len() && same_path((#[trigger] failures[i]).manifest_dir@, x);
            if i < front.len() {
                assert(same_path(front[i].manifest_dir@, x));
            }
        } else if exists|i: int|
            0 <= i < front.len() && same_path((#[trigger] front[i]).manifest_dir@, x) {
            let i = choose|i: int|
                0 <= i < front.len() && same_path((#[trigger] front[i]).manifest_dir@, x);
            assert(same_path(failures[i].manifest_dir@, x));
        }
    }
}

/// A crate with a failed file is looked at again by the next run, whatever its
/// fingerprint.
pub proof fn failed_crate_is_not_skipped(
    h: u64,
    retained: Entries,
    pending: Entries,
    failures: Seq<FileFailure>,
    i: int,
    fp: Seq<(Seq<u8>, u128)>,
)
    requires
        well_kept(retained),
        well_kept(pending),
        dirs_are_text(retained),
        dirs_are_text(pending),
        0 <= i < failures.len(),
    ensures
        !has_fingerprint(
            decoded(
                encoded(
                    h,
                    put_all(
                        without_failed(retained, failures),
                        without_failed(pending, failures),
                    ),
                ),
                h,
            ),
            failures[i].manifest_dir@,
            fp,
        ),
{
    let dir = failures[i].manifest_dir@;
    let r = without_failed(retained, failures);
    let p = without_failed(pending, failures);
    failed_crates_are_forgotten(retained, failures, dir);
    failed_crates_are_forgotten(pending, failures, dir);
    assert(same_path(failures[i].manifest_dir@, dir));
    commit_prefers_this_run(r, p, dir);
    lemma_without_failed_text(retained, failures);
    lemma_without_failed_text(pending, failures);
    lemma_put_all_text(r, p);
    saved_cache_reads_back(h, put_all(r, p), h);
    lemma_writable_lookup(put_all(r, p), dir);
}

proof fn lemma_lines_hold_no_newline(t: Seq<char>)
    ensures
        forall|i: int, k: int|
            0 <= i < lines(t).len() && 0 <= k < lines(t)[i].len() ==> #[trigger] lines(t)[i][k]
                != '\n',
    decreases t.len(),
{
    if t.len() > 0 {
        lemma_find_from(t, '\n', 0);
        let n = find_from(t, '\n', 0);
        if n < t.len() {
            let rest = t.skip(n + 1);
            lemma_lines_hold_no_newline(rest);
            let first = strip_cr(t.take(n));
            assert forall|i: int, k: int|
                0 <= i < lines(t).len() && 0 <= k < lines(t)[i].len() implies #[trigger] lines(
                t,
            )[i][k] != '\n' by {
                if i == 0 {
                    assert(first[k] == t[k]);
                } else {
                    assert(lines(t)[i] == lines(rest)[i - 1]);
                    assert(lines(rest)[i - 1][k] != '\n');
                }
            }
        }
    }
}

proof fn lemma_read_lines_well_kept(ls: Seq<Seq<char>>)
    requires
        forall|i: int, k: int|
            0 <= i < ls.len() && 0 <= k < ls[i].len() ==> #[trigger] ls[i][k] != '\n',
    ensures
        well_kept(read_lines(ls)),
        dirs_are_text(read_lines(ls)),
        forall|i: int|
            0 <= i < read_lines(ls).len() ==> is_plain(shown((#[trigger] read_lines(ls)[i]).0)),
    decreases ls.len(),
{
    if ls.len() > 0 {
        let front = ls.drop_last();
        assert forall|i: int, k: int|
            0 <= i < front.len() && 0 <= k < front[i].len() implies #[trigger] front[i][k]
            != '\n' by {
            assert(front[i] == ls[i]);
            assert(ls[i][k] != '\n');
        }
        lemma_read_lines_well_kept(front);
        let s = read_lines(front);
        let line = ls.last();
        match line_fields(line) {
            Some((text, file_text, m)) => {
                let dir = encode_utf8(text);
                let file = encode_utf8(file_text);
                lemma_text_shows_as_itself(text);
                lemma_find_from(line, '\t', 0);
                assert forall|k: int| 0 <= k < text.len() implies #[trigger] text[k] != '\t'
                    && text[k] != '\n' by {
                    assert(text[k] == line[k]);
                    assert(ls[ls.len() - 1][k] != '\n');
                }
                let k = find_key(s, dir);
                lemma_find_key(s, dir);
                let old_fp = if k < s.len() { s[k].1 } else { Seq::empty() };
                if k < s.len() {
                    assert(fp_sorted(s[k].1));
                }
                lemma_fp_insert_sorted(old_fp, file, m);
                let fp = fp_insert(old_fp, file, m);
                assert(add_file(s, dir, file, m) == put(s, dir, fp));
                put_replaces_one_crate(s, dir, fp, dir);
                let t = put(s, dir, fp);
                assert forall|i: int| 0 <= i < t.len() implies is_plain(
                    shown((#[trigger] t[i]).0),
                ) && valid_utf8(t[i].0) by {
                    if i < s.len() {
                        assert(t[i].0 == s[i].0);
                    }
                }
            },
            None => {},
        }
    }
}

/// Whatever text is read, what comes out is well kept, under paths that are
/// text and can stand in a line.
pub proof fn read_cache_is_well_kept(t: Seq<char>, h: u64)
    ensures
        well_kept(decoded(t, h)),
        dirs_are_text(decoded(t, h)),
        forall|dir: Seq<u8>| #[trigger] plain_key(decoded(t, h), dir),
{
    let ls = lines(t);
    lemma_lines_hold_no_newline(t);
    if ls.len() > 0 {
        let body = ls.skip(1);
        assert forall|i: int, k: int|
            0 <= i < body.len() && 0 <= k < body[i].len() implies #[trigger] body[i][k] != '\n' by {
            assert(body[i] == ls[i + 1]);
            assert(ls[i + 1][k] != '\n');
        }
        lemma_read_lines_well_kept(body);
    }
    let s = decoded(t, h);
    assert forall|dir: Seq<u8>| #[trigger] plain_key(s, dir) by {
        lemma_find_key(s, dir);
        let k = find_key(s, dir);
        if k < s.len() {
            assert(is_plain(shown(s[k].0)));
        }
    }
}

/// What the entries of a walk add to a fingerprint, in the order of the walk.
pub open spec fn recordings(entries: Seq<WalkEntry>) -> Seq<(Seq<u8>, u128)>
    decreases entries.len(),
{
    if entries.len() == 0 {
        Seq::empty()
    } else {
        let front = recordings(entries.drop_last());
        match recording(entries.last()) {
            Some(r) => front.push(r),
            None => front,
        }
    }
}

proof fn lemma_recordings_remove(entries: Seq<WalkEntry>, j: int)
    requires
        0 <= j < entries.len(),
    ensures
        recordings(entries).to_multiset() == match recording(entries[j]) {
            Some(r) => recordings(entries.remove(j)).to_multiset().insert(r),
            None => recordings(entries.remove(j)).to_multiset(),
        },
    decreases entries.len(),
{
    let front = entries.drop_last();
    let last = recording(entries.last());
    let rest = entries.remove(j);
    if last is Some {
        to_multiset_build(recordings(front), last->0);
    }
    if j == entries.len() - 1 {
        assert(rest =~= front);
    } else {
        lemma_recordings_remove(front, j);
        assert(rest.drop_last() =~= front.remove(j));
        assert(rest.last() == entries.last());
        assert(front[j] == entries[j]);
        if last is Some {
            to_multiset_build(recordings(front.remove(j)), last->0);
            if recording(entries[j]) is Some {
                let a = recording(entries[j])->0;
                let m = recordings(front.remove(j)).to_multiset();
                assert(m.insert(a).insert(last->0) =~= m.insert(last->0).insert(a));
            }
        }
    }
}

proof fn lemma_recordings_permuted(a: Seq<WalkEntry>, b: Seq<WalkEntry>)
    requires
        a.to_multiset() == b.to_multiset(),
    ensures
        recordings(a).to_multiset() == recordings(b).to_multiset(),
    decreases a.len(),
{
    broadcast use vstd::seq_lib::group_to_multiset_ensures;

    to_multiset_len(a);
    to_multiset_len(b);
    if a.len() > 0 {
        let n = a.len() - 1;
        let x = a[n];
        assert(a.contains(x));
        assert(a.to_multiset().count(x) > 0);
        assert(b.contains(x));
        let j = choose|j: int| 0 <= j < b.len() && b[j] == x;
        assert(a.remove(n).to_multiset() =~= a.to_multiset().remove(x));
        assert(b.remove(j).to_multiset() =~= b.to_multiset().remove(x));
        lemma_recordings_permuted(a.remove(n), b.remove(j));
        lemma_recordings_remove(a, n);
        lemma_recordings_remove(b, j);
    } else {
        assert(a =~= b);
    }
}

/// A walk that meets no file twice puts into the fingerprint just what it met.
proof fn lemma_walked_holds_recordings(entries: Seq<WalkEntry>)
    requires
        keys_distinct(recordings(entries)),
    ensures
        fp_sorted(walked(entries)),
        walked(entries).to_multiset() == recordings(entries).to_multiset(),
    decreases entries.len(),
{
    broadcast use vstd::seq_lib::group_to_multiset_ensures;

    if entries.len() > 0 {
        let front = entries.drop_last();
        let all = recordings(entries);
        let r = recordings(front);
        assert forall|i: int, j: int| 0 <= i < j < r.len() implies !same_path(
            (#[trigger] r[i]).0,
            (#[trigger] r[j]).0,
        ) by {
            assert(all[i] == r[i] && all[j] == r[j]);
        }
        lemma_walked_holds_recordings(front);
        if let Some((path, m)) = recording(entries.last()) {
            let s = walked(front);
            let k = fp_rank(s, path) as int;
            lemma_fp_rank(s, path);
            lemma_fp_insert_sorted(s, path, m);
            to_multiset_build(r, (path, m));
            if k < s.len() && same_path(s[k].0, path) {
                assert(s.contains(s[k]));
                assert(s.to_multiset().count(s[k]) > 0);
                assert(r.contains(s[k]));
                let t = choose|t: int| 0 <= t < r.len() && r[t] == s[k];
                assert(all[t] == r[t] && all[r.len() as int] == (path, m));
                assert(false);
            }
            to_multiset_insert(s, k, (path, m));
        }
    }
}

proof fn lemma_one_fingerprint(a: Seq<(Seq<u8>, u128)>, b: Seq<(Seq<u8>, u128)>)
    requires
        fp_sorted(a),
        fp_sorted(b),
        a.to_multiset() == b.to_multiset(),
    ensures
        a == b,
    decreases a.len(),
{
    broadcast use vstd::seq_lib::group_to_multiset_ensures;

    to_multiset_len(a);
    to_multiset_len(b);
    if a.len() == 0 {
        assert(a =~= b);
    } else {
        assert(a.contains(a[0]) && b.contains(b[0]));
        assert(a.to_multiset().count(a[0]) > 0 && b.to_multiset().count(b[0]) > 0);
        let j = choose|j: int| 0 <= j < b.len() && b[j] == a[0];
        let k = choose|k: int| 0 <= k < a.len() && a[k] == b[0];
        if j > 0 {
            assert(path_le(b[0].0, b[j].0) && !same_path(b[0].0, b[j].0));
            assert(k > 0);
            assert(path_le(a[0].0, a[k].0));
            path_order_is_total(a[0].0, b[0].0);
            assert(false);
        }
        let x = a.remove(0);
        let y = b.remove(0);
        assert(x.to_multiset() =~= a.to_multiset().remove(a[0]));
        assert(y.to_multiset() =~= b.to_multiset().remove(b[0]));
        assert forall|i: int, j: int| 0 <= i < j < x.len() implies path_le(
            (#[trigger] x[i]).0,
            (#[trigger] x[j]).0,
        ) && !same_path(x[i].0, x[j].0) by {
            assert(x[i] == a[i + 1] && x[j] == a[j + 1]);
        }
        assert forall|i: int, j: int| 0 <= i < j < y.len() implies path_le(
            (#[trigger] y[i]).0,
            (#[trigger] y[j]).0,
        ) && !same_path(y[i].0, y[j].0) by {
            assert(y[i] == b[i + 1] && y[j] == b[j + 1]);
        }
        lemma_one_fingerprint(x, y);
        assert(a =~= seq![a[0]] + x);
        assert(b =~= seq![b[0]] + y);
    }
}

/// A crate's fingerprint does not depend on the order in which its directory
/// is walked.
pub proof fn order_of_walking_does_not_matter(a: Seq<WalkEntry>, b: Seq<WalkEntry>)
    requires
        a.to_multiset() == b.to_multiset(),
        keys_distinct(recordings(a)),
        keys_distinct(recordings(b)),
    ensures
        walked(a) == walked(b),
{
    lemma_recordings_permuted(a, b);
    lemma_walked_holds_recordings(a);
    lemma_walked_holds_recordings(b);
    lemma_one_fingerprint(walked(a), walked(b));
}

} // verus!
