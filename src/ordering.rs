//! The ordering guarantees of the ingestion pipeline, stated over a model of it.
//!
//! The chain's header index is `headers`: `headers[k]` is the hash of the block
//! at height `k`. The validation index is `validated`. The buffer is the set of
//! hashes waiting in it, as `buffered_hashes` gives it for a `SyncNode`: a
//! delivery inserts a hash (`receive_block`), each drain step takes out the hash
//! of height `validated + 1` (`take_buffered`) and, when the chain accepts the
//! block, the validation index moves up by one.
use vstd::prelude::*;
use crate::policy::BlockHash;

verus! {

/// Drains `buffered` from validation index `validated` while every connect is
/// accepted: the buffer left, the validation index reached and the heights
/// connected, in the order the chain saw them.
pub open spec fn drain(buffered: Set<BlockHash>, headers: Seq<BlockHash>, validated: nat)
    -> (Set<BlockHash>, nat, Seq<nat>)
    decreases headers.len() - validated,
{
    if validated + 1 < headers.len() && buffered.contains(headers[validated + 1 as int]) {
        let next = (validated + 1) as nat;
        let (b, v, c) = drain(buffered.remove(headers[next as int]), headers, next);
        (b, v, seq![next] + c)
    } else {
        (buffered, validated, Seq::empty())
    }
}

/// Delivers `deliveries` in that order, draining after each one.
pub open spec fn ingest(
    deliveries: Seq<BlockHash>,
    headers: Seq<BlockHash>,
    buffered: Set<BlockHash>,
    validated: nat,
) -> (Set<BlockHash>, nat, Seq<nat>)
    decreases deliveries.len(),
{
    if deliveries.len() == 0 {
        (buffered, validated, Seq::empty())
    } else {
        let (b, v, c) = ingest(deliveries.drop_last(), headers, buffered, validated);
        let (b2, v2, c2) = drain(b.insert(deliveries.last()), headers, v);
        (b2, v2, c + c2)
    }
}

/// Whether `c` is the heights `from + 1`, `from + 2`, ..., `to`, in that order.
pub open spec fn consecutive_from(c: Seq<nat>, from: nat, to: nat) -> bool {
    &&& from <= to
    &&& c.len() == to - from
    &&& forall|i: int| 0 <= i < c.len() ==> c[i] == from + 1 + i
}

/// Whether no height has two hashes in `headers`.
pub open spec fn distinct_headers(headers: Seq<BlockHash>) -> bool {
    forall|i: int, j: int| 0 <= i < headers.len() && 0 <= j < headers.len() && i != j ==> headers[i] != headers[j]
}

/// A drain connects the heights right above the validation index, one after
/// the other; it takes out of the buffer exactly their hashes, and stops at the
/// first height whose block has not arrived.
pub proof fn lemma_drain_in_order(buffered: Set<BlockHash>, headers: Seq<BlockHash>, validated: nat)
    ensures
        ({
            let (b, v, c) = drain(buffered, headers, validated);
            &&& consecutive_from(c, validated, v)
            &&& forall|h: BlockHash| #[trigger] b.contains(h) <==> buffered.contains(h)
                && !(exists|k: int| validated < k <= v && headers[k] == h)
            &&& !(v + 1 < headers.len() && b.contains(headers[v + 1 as int]))
            &&& v == validated || v < headers.len()
        }),
    decreases headers.len() - validated,
{
    if validated + 1 < headers.len() && buffered.contains(headers[validated + 1 as int]) {
        let next = (validated + 1) as nat;
        let rest = buffered.remove(headers[next as int]);
        lemma_drain_in_order(rest, headers, next);
        let (b, v, c) = drain(rest, headers, next);
        assert forall|i: int| 0 <= i < (seq![next] + c).len() implies (seq![next] + c)[i] == validated + 1 + i by {
            if i > 0 {
                assert((seq![next] + c)[i] == c[i - 1]);
            }
        }
        assert forall|h: BlockHash| #[trigger] b.contains(h) <==> buffered.contains(h)
            && !(exists|k: int| validated < k <= v && headers[k] == h) by {
            if b.contains(h) {
                assert(rest.contains(h));
                assert(!(exists|k: int| next < k <= v && headers[k] == h));
                if exists|k: int| validated < k <= v && headers[k] == h {
                    let k = choose|k: int| validated < k <= v && headers[k] == h;
                    assert(k == next);
                }
            }
            if buffered.contains(h) && !(exists|k: int| validated < k <= v && headers[k] == h) {
                assert(h != headers[next as int]);
                assert(rest.contains(h));
                if exists|k: int| next < k <= v && headers[k] == h {
                    let k = choose|k: int| next < k <= v && headers[k] == h;
                    assert(validated < k <= v && headers[k] == h);
                }
            }
        }
    }
}

/// Whatever order blocks arrive in, the chain is asked to connect heights in
/// strictly increasing order, starting right above the validation index, with
/// no height skipped or repeated. When every block of a contiguous range above
/// the validation index has arrived, the whole range has been connected.
pub proof fn lemma_connects_in_height_order(
    deliveries: Seq<BlockHash>,
    headers: Seq<BlockHash>,
    validated: nat,
)
    ensures
        ({
            let (b, v, c) = ingest(deliveries, headers, Set::empty(), validated);
            &&& consecutive_from(c, validated, v)
            &&& forall|n: nat| #![trigger headers[n as int]]
                distinct_headers(headers) && validated <= n < headers.len()
                && (forall|k: int| validated < k <= n ==> deliveries.contains(headers[k]))
                ==> n <= v
        }),
{
    lemma_ingest_invariant(deliveries, headers, validated);
    let (b, v, c) = ingest(deliveries, headers, Set::empty(), validated);
    assert forall|n: nat| #![trigger headers[n as int]]
        distinct_headers(headers) && validated <= n < headers.len()
        && (forall|k: int| validated < k <= n ==> deliveries.contains(headers[k]))
        implies n <= v by {
        if v < n {
            let k = (v + 1) as int;
            assert(deliveries.contains(headers[k]));
            if !b.contains(headers[k]) {
                let j = choose|j: int| validated < j <= v && headers[j] == headers[k];
                assert(j != k);
            }
        }
    }
}

/// What holds after any prefix of deliveries: the heights connected are
/// consecutive, the drain stopped at a gap, and every delivered hash either
/// waits in the buffer or is the hash of a height that was connected.
proof fn lemma_ingest_invariant(deliveries: Seq<BlockHash>, headers: Seq<BlockHash>, validated: nat)
    ensures
        ({
            let (b, v, c) = ingest(deliveries, headers, Set::empty(), validated);
            &&& consecutive_from(c, validated, v)
            &&& !(v + 1 < headers.len() && b.contains(headers[v + 1 as int]))
            &&& v == validated || v < headers.len()
            &&& forall|d: BlockHash| #[trigger] deliveries.contains(d)
                ==> b.contains(d) || exists|k: int| validated < k <= v && headers[k] == d
        }),
    decreases deliveries.len(),
{
    if deliveries.len() > 0 {
        let prefix = deliveries.drop_last();
        lemma_ingest_invariant(prefix, headers, validated);
        let (b, v, c) = ingest(prefix, headers, Set::empty(), validated);
        let x = deliveries.last();
        lemma_drain_in_order(b.insert(x), headers, v);
        let (b2, v2, c2) = drain(b.insert(x), headers, v);
        assert forall|i: int| 0 <= i < (c + c2).len() implies (c + c2)[i] == validated + 1 + i by {
            if i >= c.len() {
                assert((c + c2)[i] == c2[i - c.len()]);
            }
        }
        assert forall|d: BlockHash| #[trigger] deliveries.contains(d)
            implies b2.contains(d) || exists|k: int| validated < k <= v2 && headers[k] == d by {
            let i = choose|i: int| 0 <= i < deliveries.len() && deliveries[i] == d;
            let in_new = b.insert(x).contains(d);
            if i < prefix.len() {
                assert(prefix[i] == d);
                assert(prefix.contains(d));
                if !b.contains(d) {
                    let k = choose|k: int| validated < k <= v && headers[k] == d;
                    assert(validated < k <= v2);
                }
            }
            assert(in_new || exists|k: int| validated < k <= v2 && headers[k] == d);
            if in_new && !b2.contains(d) {
                let k = choose|k: int| v < k <= v2 && headers[k] == d;
                assert(validated < k <= v2);
            }
        }
    }
}

/// A block that arrives while the block of height `validated + 1` is missing
/// causes no connect: it waits in the buffer and the validation index stays.
pub proof fn lemma_gap_holds_block(
    buffered: Set<BlockHash>,
    headers: Seq<BlockHash>,
    validated: nat,
    delivered: BlockHash,
)
    requires
        validated + 1 < headers.len(),
        !buffered.contains(headers[validated + 1 as int]),
        delivered != headers[validated + 1 as int],
    ensures
        drain(buffered.insert(delivered), headers, validated)
            == (buffered.insert(delivered), validated, Seq::<nat>::empty()),
{
}

} // verus!
