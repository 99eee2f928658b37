//! Delivery-tag sets for publisher confirms.
//!
//! A channel in confirm mode tracks three disjoint sets of delivery tags
//! (unacked, acked, nacked). They are stored as duplicate-free vectors and
//! reasoned about through their `to_set()` views.

use vstd::prelude::*;
use vstd::seq_lib::lemma_no_dup_in_concat;
use vstd::set_lib::FiniteRange;

verus! {

/// The tags of `s` that are at most `bound` (the hull a `multiple` ack or
/// nack confirms in one step).
pub open spec fn tags_le(s: Set<u64>, bound: u64) -> Set<u64> {
    s.filter(|t: u64| t <= bound)
}

/// The delivery tags a channel with `message_count` has handed out so far:
/// all tags from 1 up to, but excluding, `message_count`.
pub open spec fn tag_range(message_count: u64) -> Set<u64> {
    Set::<u64>::range(1, message_count)
}

/// A duplicate-free vector describes its set exactly: as many elements as the
/// set has.
pub proof fn lemma_tag_vec_len(s: Seq<u64>)
    requires
        s.no_duplicates(),
    ensures
        s.to_set().finite(),
        s.to_set().len() == s.len(),
{
    s.unique_seq_to_set();
}

/// The tag range is finite and holds `message_count - 1` tags.
pub proof fn lemma_tag_range_len(message_count: u64)
    requires
        message_count >= 1,
    ensures
        tag_range(message_count).finite(),
        tag_range(message_count).len() == message_count - 1,
{
    <u64 as FiniteRange>::range_properties(1, message_count);
}

/// Disjoint finite sets add their sizes under union.
pub proof fn lemma_disjoint_union_len<A>(a: Set<A>, b: Set<A>)
    requires
        a.finite(),
        b.finite(),
        a.disjoint(b),
    ensures
        a.union(b).finite(),
        a.union(b).len() == a.len() + b.len(),
    decreases a.len(),
{
    if a.is_empty() {
        assert(a.union(b) =~= b);
        assert(a.len() == 0) by {
            a.lemma_len0_is_empty();
        }
    } else {
        let x = a.choose();
        assert(a.contains(x));
        assert(a.remove(x).union(b) =~= a.union(b).remove(x));
        lemma_disjoint_union_len(a.remove(x), b);
        assert(a.union(b).remove(x).insert(x) =~= a.union(b));
    }
}

/// Add a tag that is not yet present.
pub fn tags_insert(v: &mut Vec<u64>, t: u64)
    requires
        old(v)@.no_duplicates(),
        !old(v)@.to_set().contains(t),
    ensures
        final(v)@.no_duplicates(),
        final(v)@.to_set() == old(v)@.to_set().insert(t),
        final(v)@.len() == old(v)@.len() + 1,
{
    proof {
        assert(!old(v)@.contains(t));
    }
    v.push(t);
    proof {
        assert(v@.drop_last() == old(v)@);
        assert forall|x: u64| #[trigger] v@.contains(x) implies old(v)@.contains(x) || x == t by {
            let j = choose|j: int| 0 <= j < v@.len() && v@[j] == x;
            if j < old(v)@.len() {
                assert(old(v)@[j] == x);
            }
        }
        assert(v@.contains(t)) by {
            assert(v@[old(v)@.len() as int] == t);
        }
        assert forall|x: u64| old(v)@.contains(x) implies #[trigger] v@.contains(x) by {
            let j = choose|j: int| 0 <= j < old(v)@.len() && #[trigger] old(v)@[j] == x;
            assert(v@[j] == x);
        }
        assert(v@.to_set() =~= old(v)@.to_set().insert(t));
    }
}

/// Removing position `i` from a duplicate-free sequence removes exactly that
/// element from its set.
proof fn lemma_remove_keeps_rest(s: Seq<u64>, i: int)
    requires
        s.no_duplicates(),
        0 <= i < s.len(),
    ensures
        s.remove(i).no_duplicates(),
        s.remove(i).to_set() =~= s.to_set().remove(s[i]),
{
    let s2 = s.remove(i);
    assert forall|x: u64| s2.to_set().contains(x) implies s.to_set().remove(s[i]).contains(x) by {
        let j = choose|j: int| 0 <= j < s2.len() && #[trigger] s2[j] == x;
        if j < i {
            assert(s[j] == x);
        } else {
            assert(s[j + 1] == x);
        }
    }
    assert forall|x: u64| s.to_set().remove(s[i]).contains(x) implies s2.to_set().contains(x) by {
        let j = choose|j: int| 0 <= j < s.len() && #[trigger] s[j] == x;
        if j < i {
            assert(s2[j] == x);
            assert(s2.contains(x));
        } else {
            assert(j != i);
            assert(s2[j - 1] == x);
            assert(s2.contains(x));
        }
    }
}

/// Remove a tag if present; report whether it was there.
#[verifier::loop_isolation(false)]
pub fn tags_remove(v: &mut Vec<u64>, t: u64) -> (found: bool)
    requires
        old(v)@.no_duplicates(),
    ensures
        final(v)@.no_duplicates(),
        found == old(v)@.to_set().contains(t),
        final(v)@.to_set() == old(v)@.to_set().remove(t),
        !found ==> *final(v) == *old(v),
{
    let mut i: usize = 0;
    while i < v.len()
        invariant
            *v == *old(v),
            0 <= i <= v@.len(),
            forall|j: int| 0 <= j < i ==> v@[j] != t,
        decreases v.len() - i,
    {
        if v[i] == t {
            proof {
                lemma_remove_keeps_rest(v@, i as int);
                assert(v@.contains(t));
            }
            v.remove(i);
            return true;
        }
        i += 1;
    }
    proof {
        assert(!v@.contains(t));
        assert(v@.to_set() =~= v@.to_set().remove(t));
    }
    false
}

/// Take out of `v` every tag at most `bound`, returning the removed tags.
#[verifier::loop_isolation(false)]
pub fn tags_take_le(v: &mut Vec<u64>, bound: u64) -> (moved: Vec<u64>)
    requires
        old(v)@.no_duplicates(),
    ensures
        final(v)@.no_duplicates(),
        moved@.no_duplicates(),
        moved@.to_set() == tags_le(old(v)@.to_set(), bound),
        final(v)@.to_set() == old(v)@.to_set().difference(tags_le(old(v)@.to_set(), bound)),
{
    let ghost s = old(v)@;
    let mut kept: Vec<u64> = Vec::new();
    let mut moved: Vec<u64> = Vec::new();
    let mut i: usize = 0;
    while i < v.len()
        invariant
            v@ == s,
            0 <= i <= s.len(),
            kept@.no_duplicates(),
            moved@.no_duplicates(),
            forall|x: u64| #[trigger] kept@.contains(x) <==> s.subrange(0, i as int).contains(x)
                && x > bound,
            forall|x: u64| #[trigger] moved@.contains(x) <==> s.subrange(0, i as int).contains(x)
                && x <= bound,
        decreases v.len() - i,
    {
        let t = v[i];
        let ghost pre = s.subrange(0, i as int);
        let ghost post = s.subrange(0, i as int + 1);
        proof {
            assert(post == pre.push(t));
            assert(forall|j: int| 0 <= j < i ==> s[j] != t);
            assert forall|x: u64| #[trigger] post.contains(x) implies pre.contains(x) || x == t by {
                let j = choose|j: int| 0 <= j < post.len() && #[trigger] post[j] == x;
                if j < i {
                    assert(pre[j] == x);
                }
            }
            assert forall|x: u64| pre.contains(x) implies #[trigger] post.contains(x) by {
                let j = choose|j: int| 0 <= j < pre.len() && #[trigger] pre[j] == x;
                assert(post[j] == x);
            }
            assert(post[i as int] == t);
            assert(post.contains(t));
            if pre.contains(t) {
                let j = choose|j: int| 0 <= j < pre.len() && #[trigger] pre[j] == t;
                assert(s[j] == t);
                assert(false);
            }
        }
        if t <= bound {
            proof {
                assert(!moved@.contains(t));
            }
            let ghost m0 = moved@;
            moved.push(t);
            proof {
                assert(moved@.drop_last() == m0);
                assert forall|x: u64| #[trigger] moved@.contains(x) implies m0.contains(x) || x
                    == t by {
                    let j = choose|j: int| 0 <= j < moved@.len() && #[trigger] moved@[j] == x;
                    if j < m0.len() {
                        assert(m0[j] == x);
                    }
                }
                assert(moved@.contains(t)) by {
                    assert(moved@[m0.len() as int] == t);
                }
                assert forall|x: u64| m0.contains(x) implies #[trigger] moved@.contains(x) by {
                    let j = choose|j: int| 0 <= j < m0.len() && #[trigger] m0[j] == x;
                    assert(moved@[j] == x);
                }
            }
        } else {
            proof {
                assert(!kept@.contains(t));
            }
            let ghost k0 = kept@;
            kept.push(t);
            proof {
                assert(kept@.drop_last() == k0);
                assert forall|x: u64| #[trigger] kept@.contains(x) implies k0.contains(x) || x
                    == t by {
                    let j = choose|j: int| 0 <= j < kept@.len() && #[trigger] kept@[j] == x;
                    if j < k0.len() {
                        assert(k0[j] == x);
                    }
                }
                assert(kept@.contains(t)) by {
                    assert(kept@[k0.len() as int] == t);
                }
                assert forall|x: u64| k0.contains(x) implies #[trigger] kept@.contains(x) by {
                    let j = choose|j: int| 0 <= j < k0.len() && #[trigger] k0[j] == x;
                    assert(kept@[j] == x);
                }
            }
        }
        i += 1;
    }
    proof {
        assert(s.subrange(0, s.len() as int) == s);
        assert(moved@.to_set() =~= tags_le(s.to_set(), bound));
        assert(kept@.to_set() =~= s.to_set().difference(tags_le(s.to_set(), bound)));
    }
    *v = kept;
    moved
}

/// Append tags known to be absent from `v`.
pub fn tags_append(v: &mut Vec<u64>, mut extra: Vec<u64>)
    requires
        old(v)@.no_duplicates(),
        extra@.no_duplicates(),
        old(v)@.to_set().disjoint(extra@.to_set()),
    ensures
        final(v)@.no_duplicates(),
        final(v)@.to_set() == old(v)@.to_set().union(extra@.to_set()),
{
    let ghost a = old(v)@;
    let ghost b = extra@;
    v.append(&mut extra);
    proof {
        assert forall|i: int, j: int| 0 <= i < a.len() && 0 <= j < b.len() implies #[trigger] a[i]
            != #[trigger] b[j] by {
            assert(a.contains(a[i]));
            assert(b.contains(b[j]));
            assert(a.to_set().contains(a[i]));
            assert(b.to_set().contains(b[j]));
        }
        lemma_no_dup_in_concat(a, b);
        assert(v@ == a + b);
        assert forall|x: u64| #[trigger] (a + b).contains(x) implies a.contains(x) || b.contains(
            x,
        ) by {
            let j = choose|j: int| 0 <= j < (a + b).len() && #[trigger] (a + b)[j] == x;
            if j < a.len() {
                assert(a[j] == x);
            } else {
                assert(b[j - a.len()] == x);
            }
        }
        assert forall|x: u64| a.contains(x) || b.contains(x) implies #[trigger] (a + b).contains(
            x,
        ) by {
            if a.contains(x) {
                let j = choose|j: int| 0 <= j < a.len() && #[trigger] a[j] == x;
                assert((a + b)[j] == x);
            } else {
                let j = choose|j: int| 0 <= j < b.len() && #[trigger] b[j] == x;
                assert((a + b)[j + a.len()] == x);
            }
        }
        assert(v@.to_set() =~= a.to_set().union(b.to_set()));
    }
}

} // verus!
