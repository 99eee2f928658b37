//! Sequences used as small directories: each element carries a key, keys are
//! unique, and lookup finds the first element with a given key.
//!
//! The connection model stores every mapping (channels by id, queues by name,
//! consumers by tag, bindings by binding key, request latches by request id)
//! as a vector of keyed entries, so all of them share this machinery.

use vstd::prelude::*;

verus! {

/// An entry of a keyed directory: the key is computed from the element.
pub trait Keyed {
    type Key;

    spec fn key(&self) -> Self::Key;
}

/// Index of the first element of `s` whose key is `k`, or -1 if there is none.
pub open spec fn key_idx<T: Keyed>(s: Seq<T>, k: T::Key) -> int
    decreases s.len(),
{
    if s.len() == 0 {
        -1
    } else if s.first().key() == k {
        0
    } else {
        let r = key_idx(s.drop_first(), k);
        if r < 0 {
            -1
        } else {
            r + 1
        }
    }
}

/// Does `s` hold an element with key `k`?
pub open spec fn has_key<T: Keyed>(s: Seq<T>, k: T::Key) -> bool {
    key_idx(s, k) >= 0
}

/// The element of `s` with key `k` (meaningful only when `has_key(s, k)`).
pub open spec fn lookup<T: Keyed>(s: Seq<T>, k: T::Key) -> T {
    s[key_idx(s, k)]
}

/// No two elements of `s` share a key.
pub open spec fn keys_unique<T: Keyed>(s: Seq<T>) -> bool {
    forall|i: int, j: int|
        0 <= i < j < s.len() ==> (#[trigger] s[i]).key() != (#[trigger] s[j]).key()
}

/// What `key_idx` returns: a valid index of an element with key `k`, with no
/// earlier element carrying `k`, or -1 when no element carries `k`.
pub proof fn lemma_key_idx<T: Keyed>(s: Seq<T>, k: T::Key)
    ensures
        key_idx(s, k) >= -1,
        key_idx(s, k) < s.len(),
        key_idx(s, k) == -1 ==> forall|i: int|
            0 <= i < s.len() ==> (#[trigger] s[i]).key() != k,
        key_idx(s, k) >= 0 ==> s[key_idx(s, k)].key() == k,
        key_idx(s, k) >= 0 ==> forall|i: int|
            0 <= i < key_idx(s, k) ==> (#[trigger] s[i]).key() != k,
    decreases s.len(),
{
    if s.len() > 0 && s.first().key() != k {
        lemma_key_idx(s.drop_first(), k);
        assert forall|i: int| 0 <= i < s.len() && key_idx(s, k) == -1 implies (#[trigger] s[i]).key()
            != k by {
            if i > 0 {
                assert(s.drop_first()[i - 1] == s[i]);
            }
        }
        if key_idx(s, k) >= 0 {
            assert(s.drop_first()[key_idx(s, k) - 1] == s[key_idx(s, k)]);
            assert forall|i: int| 0 <= i < key_idx(s, k) implies (#[trigger] s[i]).key() != k by {
                if i > 0 {
                    assert(s.drop_first()[i - 1] == s[i]);
                }
            }
        }
    }
}

/// If `s[i]` carries `k` and no earlier element does, then `key_idx` finds `i`.
pub proof fn lemma_key_idx_is<T: Keyed>(s: Seq<T>, k: T::Key, i: int)
    requires
        0 <= i < s.len(),
        s[i].key() == k,
        forall|j: int| 0 <= j < i ==> (#[trigger] s[j]).key() != k,
    ensures
        key_idx(s, k) == i,
    decreases s.len(),
{
    if i > 0 {
        assert forall|j: int| 0 <= j < i - 1 implies (#[trigger] s.drop_first()[j]).key() != k by {
            assert(s.drop_first()[j] == s[j + 1]);
        }
        assert(s.drop_first()[i - 1] == s[i]);
        lemma_key_idx_is(s.drop_first(), k, i - 1);
    }
}

/// `key_idx` depends only on the sequence of keys.
pub proof fn lemma_key_idx_same_keys<T: Keyed>(s1: Seq<T>, s2: Seq<T>, k: T::Key)
    requires
        s1.len() == s2.len(),
        forall|i: int| 0 <= i < s1.len() ==> (#[trigger] s1[i]).key() == (#[trigger] s2[i]).key(),
    ensures
        key_idx(s1, k) == key_idx(s2, k),
    decreases s1.len(),
{
    if s1.len() > 0 {
        assert(s1.first().key() == s2.first().key());
        assert forall|i: int|
            0 <= i < s1.drop_first().len() implies (#[trigger] s1.drop_first()[i]).key() == (
        #[trigger] s2.drop_first()[i]).key() by {
            assert(s1.drop_first()[i] == s1[i + 1]);
            assert(s2.drop_first()[i] == s2[i + 1]);
        }
        lemma_key_idx_same_keys(s1.drop_first(), s2.drop_first(), k);
    }
}

/// How appending one element changes `key_idx`.
pub proof fn lemma_key_idx_push<T: Keyed>(s: Seq<T>, t: T, k: T::Key)
    ensures
        key_idx(s.push(t), k) == if key_idx(s, k) >= 0 {
            key_idx(s, k)
        } else if t.key() == k {
            s.len() as int
        } else {
            -1
        },
    decreases s.len(),
{
    lemma_key_idx(s, k);
    if key_idx(s, k) >= 0 {
        lemma_key_idx_is(s.push(t), k, key_idx(s, k));
    } else if t.key() == k {
        lemma_key_idx_is(s.push(t), k, s.len() as int);
    } else {
        lemma_key_idx(s.push(t), k);
        if key_idx(s.push(t), k) >= 0 {
            assert(s.push(t)[key_idx(s.push(t), k)].key() == k);
        }
    }
}

/// How removing the element at `i` changes lookups, when keys are unique:
/// the removed key is gone, every other key keeps its element.
pub proof fn lemma_key_idx_remove<T: Keyed>(s: Seq<T>, i: int, k: T::Key)
    requires
        keys_unique(s),
        0 <= i < s.len(),
    ensures
        k == s[i].key() ==> !has_key(s.remove(i), k),
        k != s[i].key() ==> has_key(s.remove(i), k) == has_key(s, k),
        k != s[i].key() && has_key(s, k) ==> lookup(s.remove(i), k) == lookup(s, k),
{
    let s2 = s.remove(i);
    lemma_key_idx(s, k);
    lemma_key_idx(s2, k);
    assert forall|j: int| 0 <= j < s2.len() implies #[trigger] s2[j] == if j < i {
        s[j]
    } else {
        s[j + 1]
    } by {}
    if k == s[i].key() {
        if key_idx(s2, k) >= 0 {
            let j = key_idx(s2, k);
            assert(s2[j].key() == k);
            if j < i {
                assert(s[j].key() == s[i].key());
            } else {
                assert(s[j + 1].key() == s[i].key());
            }
        }
    } else {
        if key_idx(s, k) >= 0 {
            let j = key_idx(s, k);
            if j < i {
                lemma_key_idx_is(s2, k, j);
            } else {
                assert(j != i);
                assert(s2[j - 1] == s[j]);
                assert forall|m: int| 0 <= m < j - 1 implies (#[trigger] s2[m]).key() != k by {
                    if m < i {
                        assert(s2[m] == s[m]);
                    } else {
                        assert(s2[m] == s[m + 1]);
                    }
                }
                lemma_key_idx_is(s2, k, j - 1);
            }
        } else {
            if key_idx(s2, k) >= 0 {
                let j = key_idx(s2, k);
                assert(s2[j].key() == k);
            }
        }
    }
}

} // verus!
