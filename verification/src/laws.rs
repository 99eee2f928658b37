//! Properties that hold across several operations of the connection core,
//! stated and proved once over the model.

use vstd::prelude::*;

use crate::api::bindings_removed;
use crate::channel::Channel;
use crate::queue::Queue;
use crate::tags::{lemma_disjoint_union_len, lemma_tag_range_len, lemma_tag_vec_len, tag_range};

verus! {

/// Publisher-confirm accounting. On any well-formed channel with confirms
/// on — hence after any sequence of confirmed publishes and broker
/// acks/nacks — the unacked, acked and nacked sets are pairwise disjoint,
/// their union is exactly the set of delivery tags handed out so far, and
/// their sizes add up to `message_count - 1`, the number of confirmed
/// publishes.
pub proof fn lemma_confirm_partition(c: Channel)
    requires
        c.wf(),
        c.confirm,
    ensures
        c.unacked@.to_set().disjoint(c.acked@.to_set()),
        c.unacked@.to_set().disjoint(c.nacked@.to_set()),
        c.acked@.to_set().disjoint(c.nacked@.to_set()),
        c.tags_union() == tag_range(c.message_count),
        c.unacked@.len() + c.acked@.len() + c.nacked@.len() == c.message_count - 1,
{
    let u = c.unacked@.to_set();
    let a = c.acked@.to_set();
    let n = c.nacked@.to_set();
    lemma_tag_vec_len(c.unacked@);
    lemma_tag_vec_len(c.acked@);
    lemma_tag_vec_len(c.nacked@);
    lemma_disjoint_union_len(u, a);
    assert(u.union(a).disjoint(n)) by {
        assert forall|t: u64| u.union(a).contains(t) implies !n.contains(t) by {}
    }
    lemma_disjoint_union_len(u.union(a), n);
    lemma_tag_range_len(c.message_count);
}

/// Unbinding is idempotent. A `queue.unbind-ok` removes the binding under
/// `k` from every queue of the channel; completing a second unbind of the
/// same key changes nothing observable: the binding is still absent and
/// every queue and every other binding are exactly as after the first.
pub proof fn lemma_unbind_idempotent(
    qs0: Seq<Queue>,
    qs1: Seq<Queue>,
    qs2: Seq<Queue>,
    k: (Seq<char>, Seq<char>),
)
    requires
        bindings_removed(qs0, qs1, k),
        bindings_removed(qs1, qs2, k),
    ensures
        qs2.len() == qs1.len(),
        forall|qi: int|
            0 <= qi < qs1.len() ==> #[trigger] qs2[qi] == (Queue {
                bindings: qs2[qi].bindings,
                ..qs1[qi]
            }),
        forall|qi: int| 0 <= qi < qs1.len() ==> !(#[trigger] qs1[qi].has_binding(k)),
        forall|qi: int| 0 <= qi < qs1.len() ==> !(#[trigger] qs2[qi].has_binding(k)),
        forall|qi: int, k2: (Seq<char>, Seq<char>)|
            0 <= qi < qs1.len() ==> (#[trigger] qs2[qi].has_binding(k2)) == qs1[qi].has_binding(k2),
        forall|qi: int, k2: (Seq<char>, Seq<char>)|
            0 <= qi < qs1.len() && qs1[qi].has_binding(k2) ==> (#[trigger] qs2[qi].binding(k2))
                == qs1[qi].binding(k2),
{
    assert forall|qi: int, k2: (Seq<char>, Seq<char>)| 0 <= qi < qs1.len() implies (
    #[trigger] qs2[qi].has_binding(k2)) == qs1[qi].has_binding(k2) by {
        assert(crate::queue::bindings_unchanged_except(qs1[qi], qs2[qi], k));
        if k2 == k {
            assert(!qs1[qi].has_binding(k));
            assert(!qs2[qi].has_binding(k));
        }
    }
    assert forall|qi: int, k2: (Seq<char>, Seq<char>)|
        0 <= qi < qs1.len() && qs1[qi].has_binding(k2) implies (#[trigger] qs2[qi].binding(k2))
        == qs1[qi].binding(k2) by {
        assert(crate::queue::bindings_unchanged_except(qs1[qi], qs2[qi], k));
        assert(!qs1[qi].has_binding(k));
        assert(k2 != k);
    }
}


} // verus!