//! Values kept by path: at most one per path, found by comparing paths.

use crate::path::same_path;
use vstd::prelude::*;

verus! {

/// The position of the value for `key`, or the number of values.
pub open spec fn find_key<V>(s: Seq<(Seq<u8>, V)>, key: Seq<u8>) -> int
    decreases s.len(),
{
    if s.len() == 0 || same_path(s[0].0, key) {
        0
    } else {
        1 + find_key(s.drop_first(), key)
    }
}

/// No path twice.
pub open spec fn keys_distinct<V>(s: Seq<(Seq<u8>, V)>) -> bool {
    forall|i: int, j: int|
        0 <= i < j < s.len() ==> !same_path((#[trigger] s[i]).0, (#[trigger] s[j]).0)
}

pub proof fn lemma_find_key<V>(s: Seq<(Seq<u8>, V)>, key: Seq<u8>)
    ensures
        0 <= find_key(s, key) <= s.len(),
        forall|i: int| 0 <= i < find_key(s, key) ==> !same_path((#[trigger] s[i]).0, key),
        find_key(s, key) < s.len() ==> same_path(s[find_key(s, key)].0, key),
    decreases s.len(),
{
    if s.len() > 0 && !same_path(s[0].0, key) {
        lemma_find_key(s.drop_first(), key);
        let n = find_key(s.drop_first(), key);
        assert forall|i: int| 0 <= i < find_key(s, key) implies !same_path(
            (#[trigger] s[i]).0,
            key,
        ) by {
            if i > 0 {
                assert(s[i] == s.drop_first()[i - 1]);
            }
        }
        if n < s.drop_first().len() {
            assert(s.drop_first()[n] == s[n + 1]);
        }
    }
}

/// `find_key` is the only position with the properties that define it.
pub proof fn lemma_find_key_unique<V>(s: Seq<(Seq<u8>, V)>, key: Seq<u8>, n: int)
    requires
        0 <= n <= s.len(),
        forall|i: int| 0 <= i < n ==> !same_path((#[trigger] s[i]).0, key),
        n < s.len() ==> same_path(s[n].0, key),
    ensures
        find_key(s, key) == n,
    decreases s.len(),
{
    if n > 0 {
        assert(!same_path(s[0].0, key));
        assert forall|i: int| 0 <= i < n - 1 implies !same_path(
            (#[trigger] s.drop_first()[i]).0,
            key,
        ) by {
            assert(s.drop_first()[i] == s[i + 1]);
        }
        if n < s.len() {
            assert(s.drop_first()[n - 1] == s[n]);
        }
        lemma_find_key_unique(s.drop_first(), key, n - 1);
    }
}

} // verus!
