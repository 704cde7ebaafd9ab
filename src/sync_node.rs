//! The state the sync driver owns: the request cursor, the inflight tracker and
//! the buffer of blocks that arrived ahead of the validation index.
use vstd::prelude::*;
use crate::policy::{
    classify, is_consensus_failure, BlockHash, ConnectError, FailurePolicy, PeerId, BAN_TIME,
    BATCH_SIZE, MAX_INFLIGHT_REQUESTS, MAX_OUTGOING_PEERS, NODE_UTREEXO, REQUEST_TIMEOUT,
    TIMEOUT_BAN_SCORE, TRY_NEW_CONNECTION,
};

verus! {

/// A block request that was sent and not yet answered.
#[derive(Clone, Copy, Debug, PartialEq, Eq, Structural)]
pub struct InflightEntry {
    pub hash: BlockHash,
    pub peer: PeerId,
    /// When the request was sent, in seconds.
    pub issued_at: u64,
}

/// A delivered block waiting for its turn to be connected.
pub struct BufferedBlock<B> {
    pub hash: BlockHash,
    pub peer: PeerId,
    pub block: B,
}

/// What the peer layer and the chain are to do after a block failed to connect.
#[derive(Clone, Copy, Debug, PartialEq, Eq, Structural)]
pub enum FailureReaction {
    /// The peer misbehaved: shut its connection down, ban its address for
    /// `ban_for` seconds and, where the block itself is invalid, invalidate it.
    Punish { peer: PeerId, ban_for: u64, invalidate: Option<BlockHash> },
    /// The chain itself failed: log it and go on with the next iteration.
    Fatal,
}

/// The reaction that a failed connect of block `hash` from `peer` calls for.
pub open spec fn reaction_for(peer: PeerId, hash: BlockHash, err: ConnectError) -> FailureReaction {
    match err {
        ConnectError::Validation(f) => FailureReaction::Punish {
            peer,
            ban_for: BAN_TIME,
            invalidate: if is_consensus_failure(f) { Some(hash) } else { None },
        },
        ConnectError::Interface => FailureReaction::Fatal,
    }
}

/// A request that timed out: penalize `peer` by `ban_increase` and ask for
/// block `hash` again, once.
#[derive(Clone, Copy, Debug, PartialEq, Eq, Structural)]
pub struct Reissue {
    pub peer: PeerId,
    pub ban_increase: u32,
    pub hash: BlockHash,
}

/// What one iteration of the sync loop is to do.
#[derive(Clone, Copy, Debug, PartialEq, Eq, Structural)]
pub enum IterationPlan {
    /// Leave the loop: shutdown was asked for or the download is complete.
    Stop,
    /// Sweep timeouts, then open a connection and schedule a batch as told.
    Proceed { open_connection: bool, schedule: bool },
}

/// The plan for an iteration, from the driver's inputs.
pub open spec fn plan_for(
    shutdown: bool,
    in_initial_download: bool,
    secs_since_connection_attempt: u64,
    outgoing_peers: usize,
    utreexo_peers: usize,
    inflight_len: nat,
) -> IterationPlan {
    if shutdown || !in_initial_download {
        IterationPlan::Stop
    } else {
        IterationPlan::Proceed {
            open_connection: secs_since_connection_attempt >= TRY_NEW_CONNECTION
                && outgoing_peers < MAX_OUTGOING_PEERS,
            schedule: utreexo_peers > 0 && inflight_len < MAX_INFLIGHT_REQUESTS,
        }
    }
}

/// A notification a peer task sends to the driver.
pub enum PeerMessage<B> {
    /// A block with its proof, and its hash.
    Block(BlockHash, B),
    /// The handshake finished; the peer advertises these service bits.
    Ready(u64),
    /// The connection with this index closed.
    Disconnected(usize),
    /// Anything the sync driver has no use for.
    Other,
}

/// What the driver does with a peer notification once the core has seen it.
#[derive(Clone, Copy, Debug, PartialEq, Eq, Structural)]
pub enum Dispatch {
    /// The block is buffered: drain the buffer against the chain.
    Drain,
    /// Add the peer, with these service bits, to the active peer set.
    PromotePeer(PeerId, u64),
    /// Forget the peer of this connection.
    RemovePeer(PeerId, usize),
    /// Nothing to do.
    Ignore,
}

/// Seconds an entry has been waiting at time `now`; a clock that went back counts as no wait.
pub open spec fn age(e: InflightEntry, now: u64) -> int {
    if now >= e.issued_at {
        now - e.issued_at
    } else {
        0
    }
}

/// Whether an entry has outlived the request timeout at time `now`.
pub open spec fn is_expired(e: InflightEntry, now: u64) -> bool {
    age(e, now) > REQUEST_TIMEOUT
}

/// Whether some entry of `s` is for `h`.
pub open spec fn tracks(s: Seq<InflightEntry>, h: BlockHash) -> bool {
    exists|i: int| 0 <= i < s.len() && (#[trigger] s[i]).hash == h
}

/// Whether some buffered block of `s` has hash `h`.
pub open spec fn holds<B>(s: Seq<BufferedBlock<B>>, h: BlockHash) -> bool {
    exists|i: int| 0 <= i < s.len() && (#[trigger] s[i]).hash == h
}

/// The hashes of the blocks in buffer `s`.
pub open spec fn buffered_hashes<B>(s: Seq<BufferedBlock<B>>) -> Set<BlockHash> {
    Set::new(|h: BlockHash| holds(s, h))
}

/// Keeps the entries that are not for `h`.
pub open spec fn not_for(h: BlockHash) -> spec_fn(InflightEntry) -> bool {
    |e: InflightEntry| e.hash != h
}

/// Keeps the entries that are expired at time `now`.
pub open spec fn expired_at(now: u64) -> spec_fn(InflightEntry) -> bool {
    |e: InflightEntry| is_expired(e, now)
}

/// Keeps the entries that are still waiting at time `now`.
pub open spec fn live_at(now: u64) -> spec_fn(InflightEntry) -> bool {
    |e: InflightEntry| !is_expired(e, now)
}

/// How many of `available` resolved hashes one scheduling round asks for: none
/// without a peer or with the tracker full, else as many as the batch size,
/// the spare capacity and the height range allow.
pub open spec fn batch_len(cursor: u32, inflight_len: nat, available: nat, has_peers: bool) -> nat {
    if !has_peers || inflight_len >= MAX_INFLIGHT_REQUESTS {
        0
    } else {
        let spare = (MAX_INFLIGHT_REQUESTS - inflight_len) as nat;
        let heights = (u32::MAX - cursor) as nat;
        let a = if available < BATCH_SIZE { available } else { BATCH_SIZE as nat };
        let b = if a < spare { a } else { spare };
        if b < heights { b } else { heights }
    }
}

/// A scheduling round never takes the tracker past its cap, never asks for
/// more than one batch, and asks for nothing when no peer can serve it.
pub proof fn lemma_batch_within_capacity(cursor: u32, inflight_len: nat, available: nat, has_peers: bool)
    ensures
        inflight_len <= MAX_INFLIGHT_REQUESTS
            ==> inflight_len + batch_len(cursor, inflight_len, available, has_peers) <= MAX_INFLIGHT_REQUESTS,
        batch_len(cursor, inflight_len, available, has_peers) <= BATCH_SIZE,
        batch_len(cursor, inflight_len, available, has_peers) <= available,
        !has_peers ==> batch_len(cursor, inflight_len, available, has_peers) == 0,
{
}

/// Whether no two entries of `s` are for the same hash.
pub open spec fn unique_requests(s: Seq<InflightEntry>) -> bool {
    forall|i: int, j: int| 0 <= i < s.len() && 0 <= j < s.len() && i != j ==> s[i].hash != s[j].hash
}

/// Whether no two buffered blocks of `s` have the same hash.
pub open spec fn unique_blocks<B>(s: Seq<BufferedBlock<B>>) -> bool {
    forall|i: int, j: int| 0 <= i < s.len() && 0 <= j < s.len() && i != j ==> s[i].hash != s[j].hash
}

/// Keeps the buffered blocks whose hash is not `h`.
pub open spec fn other_blocks<B>(h: BlockHash) -> spec_fn(BufferedBlock<B>) -> bool {
    |b: BufferedBlock<B>| b.hash != h
}

/// Filtering out a hash that no block has leaves the buffer as it is.
proof fn lemma_filter_absent<B>(s: Seq<BufferedBlock<B>>, h: BlockHash)
    requires
        !holds(s, h),
    ensures
        s.filter(other_blocks(h)) == s,
    decreases s.len(),
{
    reveal(Seq::filter);
    if s.len() > 0 {
        let d = s.drop_last();
        assert(!holds(d, h)) by {
            if holds(d, h) {
                let k = choose|k: int| 0 <= k < d.len() && (#[trigger] d[k]).hash == h;
                assert(s[k] == d[k]);
            }
        }
        lemma_filter_absent(d, h);
        assert(s.last().hash != h) by {
            assert(s[s.len() - 1] == s.last());
        }
        assert(d.push(s.last()) =~= s);
    }
}

/// Taking out the one block with a given hash is filtering that hash out.
proof fn lemma_remove_is_filter<B>(s: Seq<BufferedBlock<B>>, i: int)
    requires
        unique_blocks(s),
        0 <= i < s.len(),
    ensures
        s.remove(i) == s.filter(other_blocks(s[i].hash)),
    decreases s.len(),
{
    reveal(Seq::filter);
    let h = s[i].hash;
    let d = s.drop_last();
    assert(unique_blocks(d)) by {
        assert forall|a: int, b: int| 0 <= a < d.len() && 0 <= b < d.len() && a != b implies d[a].hash != d[b].hash by {
            assert(d[a] == s[a] && d[b] == s[b]);
        }
    }
    if i == s.len() - 1 {
        assert(!holds(d, h)) by {
            if holds(d, h) {
                let k = choose|k: int| 0 <= k < d.len() && (#[trigger] d[k]).hash == h;
                assert(s[k] == d[k]);
            }
        }
        lemma_filter_absent(d, h);
        assert(s.remove(i) =~= d);
    } else {
        assert(d[i] == s[i]);
        lemma_remove_is_filter(d, i);
        assert(s.last().hash != h) by {
            assert(s[s.len() - 1] == s.last());
        }
        assert(s.remove(i) =~= d.remove(i).push(s.last()));
    }
}

/// Taking out the one block with hash `s[i].hash` takes that hash out of the buffer's hashes.
proof fn lemma_remove_block<B>(s: Seq<BufferedBlock<B>>, i: int)
    requires
        unique_blocks(s),
        0 <= i < s.len(),
    ensures
        unique_blocks(s.remove(i)),
        buffered_hashes(s.remove(i)) == buffered_hashes(s).remove(s[i].hash),
{
    let r = s.remove(i);
    assert forall|a: int, b: int| 0 <= a < r.len() && 0 <= b < r.len() && a != b implies r[a].hash != r[b].hash by {
        let sa = if a < i { a } else { a + 1 };
        let sb = if b < i { b } else { b + 1 };
        assert(r[a] == s[sa] && r[b] == s[sb]);
    }
    assert forall|h: BlockHash| buffered_hashes(r).contains(h) == buffered_hashes(s).remove(s[i].hash).contains(h) by {
        if holds(r, h) {
            let a = choose|a: int| 0 <= a < r.len() && (#[trigger] r[a]).hash == h;
            let sa = if a < i { a } else { a + 1 };
            assert(r[a] == s[sa]);
            assert(holds(s, h));
        }
        if holds(s, h) && h != s[i].hash {
            let a = choose|a: int| 0 <= a < s.len() && (#[trigger] s[a]).hash == h;
            let ra = if a < i { a } else { a - 1 };
            assert(r[ra] == s[a]);
            assert(holds(r, h));
        }
    }
    assert(buffered_hashes(r) =~= buffered_hashes(s).remove(s[i].hash));
}

/// Appending a block whose hash is not buffered yet adds its hash.
proof fn lemma_push_block<B>(s: Seq<BufferedBlock<B>>, x: BufferedBlock<B>)
    requires
        unique_blocks(s),
        !holds(s, x.hash),
    ensures
        unique_blocks(s.push(x)),
        buffered_hashes(s.push(x)) == buffered_hashes(s).insert(x.hash),
{
    let r = s.push(x);
    assert forall|a: int, b: int| 0 <= a < r.len() && 0 <= b < r.len() && a != b implies r[a].hash != r[b].hash by {
        if a < s.len() {
            assert(r[a] == s[a]);
        }
        if b < s.len() {
            assert(r[b] == s[b]);
        }
    }
    assert forall|h: BlockHash| buffered_hashes(r).contains(h) == buffered_hashes(s).insert(x.hash).contains(h) by {
        if holds(r, h) && h != x.hash {
            let a = choose|a: int| 0 <= a < r.len() && (#[trigger] r[a]).hash == h;
            assert(r[a] == s[a]);
        }
        if holds(s, h) {
            let a = choose|a: int| 0 <= a < s.len() && (#[trigger] s[a]).hash == h;
            assert(r[a] == s[a]);
        }
        if h == x.hash {
            assert(r[s.len() as int] == x);
        }
    }
    assert(buffered_hashes(r) =~= buffered_hashes(s).insert(x.hash));
}

/// The synchronization state of a node in initial block download.
pub struct SyncNode<B> {
    /// Height of the last block asked for.
    last_block_requested: u32,
    inflight: Vec<InflightEntry>,
    buffer: Vec<BufferedBlock<B>>,
}

impl<B> SyncNode<B> {
    /// Height of the last block asked for.
    pub closed spec fn cursor(&self) -> u32 {
        self.last_block_requested
    }

    /// The inflight tracker, in the order the requests were recorded.
    pub closed spec fn inflight_view(&self) -> Seq<InflightEntry> {
        self.inflight@
    }

    /// The block buffer, in the order the blocks arrived.
    pub closed spec fn buffer_view(&self) -> Seq<BufferedBlock<B>> {
        self.buffer@
    }

    /// At most one request and one buffered block per hash, and no more
    /// requests outstanding than the cap.
    pub open spec fn wf(&self) -> bool {
        &&& unique_requests(self.inflight_view())
        &&& unique_blocks(self.buffer_view())
        &&& self.inflight_view().len() <= MAX_INFLIGHT_REQUESTS
    }

    /// A node that has validated up to `validation_index` and has nothing in flight.
    pub fn new(validation_index: u32) -> (r: Self)
        ensures
            r.wf(),
            r.cursor() == validation_index,
            r.inflight_view() == Seq::<InflightEntry>::empty(),
            r.buffer_view() == Seq::<BufferedBlock<B>>::empty(),
    {
        SyncNode { last_block_requested: validation_index, inflight: Vec::new(), buffer: Vec::new() }
    }

    /// Height of the last block asked for.
    pub fn last_block_requested(&self) -> (r: u32)
        ensures
            r == self.cursor(),
    {
        self.last_block_requested
    }

    /// Number of requests outstanding.
    pub fn inflight_len(&self) -> (r: usize)
        ensures
            r == self.inflight_view().len(),
    {
        self.inflight.len()
    }

    /// Number of blocks waiting in the buffer.
    pub fn buffered_len(&self) -> (r: usize)
        ensures
            r == self.buffer_view().len(),
    {
        self.buffer.len()
    }

    /// Drops the request for `hash`, if there is one.
    pub fn forget_request(&mut self, hash: BlockHash)
        requires
            old(self).wf(),
        ensures
            final(self).wf(),
            final(self).inflight_view() == old(self).inflight_view().filter(not_for(hash)),
            !tracks(final(self).inflight_view(), hash),
            final(self).buffer_view() == old(self).buffer_view(),
            final(self).cursor() == old(self).cursor(),
    {
        let ghost old_s = self.inflight@;
        let ghost mut from: Seq<int> = Seq::empty();
        let mut kept: Vec<InflightEntry> = Vec::new();
        let mut i: usize = 0;
        while i < self.inflight.len()
            invariant
                self.inflight@ == old_s,
                unique_requests(old_s),
                i <= old_s.len(),
                kept@ == old_s.take(i as int).filter(not_for(hash)),
                kept@.len() <= i,
                from.len() == kept@.len(),
                forall|k: int| 0 <= k < kept@.len() ==> 0 <= #[trigger] from[k] < i && old_s[from[k]] == kept@[k],
                forall|k: int| 0 <= k < kept@.len() ==> (#[trigger] kept@[k]).hash != hash,
                unique_requests(kept@),
            decreases old_s.len() - i,
        {
            let e = self.inflight[i];
            proof {
                assert(old_s.take(i as int + 1) == old_s.take(i as int).push(old_s[i as int]));
                old_s.take(i as int).lemma_filter_push(old_s[i as int], not_for(hash));
            }
            if e.hash != hash {
                kept.push(e);
                proof {
                    from = from.push(i as int);
                    assert forall|k: int| 0 <= k < kept@.len() - 1 implies kept@[k].hash != e.hash by {
                        assert(old_s[from[k]] == kept@[k]);
                    }
                }
            }
            i = i + 1;
        }
        proof {
            assert(old_s.take(old_s.len() as int) == old_s);
        }
        self.inflight = kept;
    }

    /// Records a request for `hash` sent to `peer` at `now`, in place of any
    /// earlier one for it; refused when the tracker is full.
    pub fn record_request(&mut self, hash: BlockHash, peer: PeerId, now: u64) -> (r: bool)
        requires
            old(self).wf(),
        ensures
            final(self).wf(),
            ({
                let base = old(self).inflight_view().filter(not_for(hash));
                &&& r == (base.len() < MAX_INFLIGHT_REQUESTS)
                &&& final(self).inflight_view() == if r {
                    base.push(InflightEntry { hash, peer, issued_at: now })
                } else {
                    base
                }
            }),
            final(self).buffer_view() == old(self).buffer_view(),
            final(self).cursor() == old(self).cursor(),
    {
        self.forget_request(hash);
        if self.inflight.len() < MAX_INFLIGHT_REQUESTS {
            let e = InflightEntry { hash, peer, issued_at: now };
            proof {
                assert(!tracks(self.inflight@, hash));
            }
            self.inflight.push(e);
            proof {
                let s = self.inflight@;
                assert forall|i: int, j: int| 0 <= i < s.len() && 0 <= j < s.len() && i != j
                    implies s[i].hash != s[j].hash by {
                    if i == s.len() - 1 {
                        assert(s[j] == old(self).inflight@.filter(not_for(hash))[j]);
                    } else if j == s.len() - 1 {
                        assert(s[i] == old(self).inflight@.filter(not_for(hash))[i]);
                    }
                }
            }
            true
        } else {
            false
        }
    }

    /// One scheduling round: asks `peer` at time `now` for the blocks whose
    /// hashes `next_hashes` gives for heights cursor+1, cursor+2, ..., as many
    /// as `batch_len` allows, records each as inflight and advances the cursor
    /// past them. Returns the hashes to request.
    pub fn schedule_batch(&mut self, next_hashes: &Vec<BlockHash>, peer_count: usize, peer: PeerId, now: u64) -> (r: Vec<BlockHash>)
        requires
            old(self).wf(),
        ensures
            final(self).wf(),
            r@.len() == batch_len(old(self).cursor(), old(self).inflight_view().len(), next_hashes@.len(), peer_count > 0),
            r@ == next_hashes@.take(r@.len() as int),
            final(self).cursor() == old(self).cursor() + r@.len(),
            forall|h: BlockHash| #[trigger] r@.contains(h)
                ==> final(self).inflight_view().contains(InflightEntry { hash: h, peer, issued_at: now }),
            forall|e: InflightEntry| #[trigger] old(self).inflight_view().contains(e) && !r@.contains(e.hash)
                ==> final(self).inflight_view().contains(e),
            final(self).inflight_view().len() <= old(self).inflight_view().len() + r@.len(),
            r@.len() == 0 ==> final(self).inflight_view() == old(self).inflight_view(),
            final(self).buffer_view() == old(self).buffer_view(),
    {
        let ghost old_inflight = self.inflight@;
        let mut count: usize = 0;
        if peer_count > 0 && self.inflight.len() < MAX_INFLIGHT_REQUESTS {
            let spare = MAX_INFLIGHT_REQUESTS - self.inflight.len();
            let heights: u32 = u32::MAX - self.last_block_requested;
            let a = if next_hashes.len() < BATCH_SIZE { next_hashes.len() } else { BATCH_SIZE };
            let b = if a < spare { a } else { spare };
            count = if (b as u64) < (heights as u64) { b } else { heights as usize };
        }
        let ghost start = self.last_block_requested;
        let mut batch: Vec<BlockHash> = Vec::new();
        let mut i: usize = 0;
        while i < count
            invariant
                count == batch_len(start, old_inflight.len(), next_hashes@.len(), peer_count > 0),
                count <= next_hashes@.len(),
                count + old_inflight.len() <= MAX_INFLIGHT_REQUESTS || count == 0,
                start as int + count <= u32::MAX,
                i <= count,
                self.wf(),
                self.last_block_requested == start + i,
                self.inflight@.len() <= old_inflight.len() + i,
                batch@ == next_hashes@.take(i as int),
                forall|h: BlockHash| #[trigger] batch@.contains(h)
                    ==> self.inflight@.contains(InflightEntry { hash: h, peer, issued_at: now }),
                forall|e: InflightEntry| #[trigger] old_inflight.contains(e) && !batch@.contains(e.hash)
                    ==> self.inflight@.contains(e),
                i == 0 ==> self.inflight@ == old_inflight,
                self.buffer@ == old(self).buffer@,
            decreases count - i,
        {
            let h = next_hashes[i];
            let ghost before = self.inflight@;
            proof {
                before.lemma_filter_len(not_for(h));
            }
            let ok = self.record_request(h, peer, now);
            proof {
                let base = before.filter(not_for(h));
                assert(ok);
                assert(self.inflight@.last() == InflightEntry { hash: h, peer, issued_at: now });
                assert forall|x: InflightEntry| before.contains(x) && x.hash != h implies self.inflight@.contains(x) by {
                    before.lemma_filter_contains_rev(not_for(h), x);
                    assert(base.contains(x));
                    let k = choose|k: int| 0 <= k < base.len() && base[k] == x;
                    assert(self.inflight@[k] == x);
                }
                assert(next_hashes@.take(i as int + 1) == next_hashes@.take(i as int).push(h));
                assert forall|g: BlockHash| #[trigger] batch@.push(h).contains(g)
                    implies self.inflight@.contains(InflightEntry { hash: g, peer, issued_at: now }) by {
                    if g != h {
                        let k = choose|k: int| 0 <= k < batch@.push(h).len() && batch@.push(h)[k] == g;
                        assert(batch@[k] == g);
                        assert(batch@.contains(g));
                        assert(before.contains(InflightEntry { hash: g, peer, issued_at: now }));
                    } else {
                        assert(self.inflight@[self.inflight@.len() - 1] == InflightEntry { hash: h, peer, issued_at: now });
                    }
                }
                assert forall|e: InflightEntry| #[trigger] old_inflight.contains(e) && !batch@.push(h).contains(e.hash)
                    implies self.inflight@.contains(e) by {
                    assert(batch@.push(h)[batch@.len() as int] == h);
                    if batch@.contains(e.hash) {
                        let k = choose|k: int| 0 <= k < batch@.len() && batch@[k] == e.hash;
                        assert(batch@.push(h)[k] == e.hash);
                    }
                }
            }
            batch.push(h);
            self.last_block_requested = self.last_block_requested + 1;
            i = i + 1;
        }
        batch
    }

    /// Drops every request older than the timeout at time `now` and hands them
    /// back: each one's peer is to be penalized and its block asked for again.
    pub fn sweep_timeouts(&mut self, now: u64) -> (r: Vec<InflightEntry>)
        requires
            old(self).wf(),
        ensures
            final(self).wf(),
            r@ == old(self).inflight_view().filter(expired_at(now)),
            unique_requests(r@),
            final(self).inflight_view() == old(self).inflight_view().filter(live_at(now)),
            forall|h: BlockHash| tracks(r@, h) ==> !tracks(final(self).inflight_view(), h),
            final(self).buffer_view() == old(self).buffer_view(),
            final(self).cursor() == old(self).cursor(),
    {
        let ghost old_s = self.inflight@;
        let ghost mut from: Seq<int> = Seq::empty();
        let mut kept: Vec<InflightEntry> = Vec::new();
        let ghost mut efrom: Seq<int> = Seq::empty();
        let mut expired: Vec<InflightEntry> = Vec::new();
        let mut i: usize = 0;
        while i < self.inflight.len()
            invariant
                self.inflight@ == old_s,
                unique_requests(old_s),
                i <= old_s.len(),
                kept@ == old_s.take(i as int).filter(live_at(now)),
                expired@ == old_s.take(i as int).filter(expired_at(now)),
                kept@.len() <= i,
                from.len() == kept@.len(),
                forall|k: int| 0 <= k < kept@.len() ==> 0 <= #[trigger] from[k] < i && old_s[from[k]] == kept@[k],
                efrom.len() == expired@.len(),
                forall|k: int| 0 <= k < expired@.len() ==> 0 <= #[trigger] efrom[k] < i && old_s[efrom[k]] == expired@[k],
                unique_requests(kept@),
                unique_requests(expired@),
            decreases old_s.len() - i,
        {
            let e = self.inflight[i];
            proof {
                assert(old_s.take(i as int + 1) == old_s.take(i as int).push(old_s[i as int]));
                old_s.take(i as int).lemma_filter_push(old_s[i as int], live_at(now));
                old_s.take(i as int).lemma_filter_push(old_s[i as int], expired_at(now));
            }
            let waited: u64 = if now >= e.issued_at { now - e.issued_at } else { 0 };
            if waited > REQUEST_TIMEOUT {
                expired.push(e);
                proof {
                    efrom = efrom.push(i as int);
                    assert forall|k: int| 0 <= k < expired@.len() - 1 implies expired@[k].hash != e.hash by {
                        assert(old_s[efrom[k]] == expired@[k]);
                    }
                }
            } else {
                kept.push(e);
                proof {
                    from = from.push(i as int);
                    assert forall|k: int| 0 <= k < kept@.len() - 1 implies kept@[k].hash != e.hash by {
                        assert(old_s[from[k]] == kept@[k]);
                    }
                }
            }
            i = i + 1;
        }
        proof {
            assert(old_s.take(old_s.len() as int) == old_s);
            assert forall|h: BlockHash| tracks(expired@, h) implies !tracks(kept@, h) by {
                if tracks(expired@, h) && tracks(kept@, h) {
                    let a = choose|a: int| 0 <= a < expired@.len() && (#[trigger] expired@[a]).hash == h;
                    let b = choose|b: int| 0 <= b < kept@.len() && (#[trigger] kept@[b]).hash == h;
                    let ja = efrom[a];
                    assert(from[b] < old_s.len());
                    assert(is_expired(old_s[ja], now)) by {
                        old_s.lemma_filter_pred(expired_at(now), a);
                    }
                    assert(!is_expired(old_s[from[b]], now)) by {
                        old_s.lemma_filter_pred(live_at(now), b);
                    }
                }
            }
        }
        self.inflight = kept;
        expired
    }

    /// Position of the buffered block with hash `hash`, if any.
    fn find_buffered(&self, hash: BlockHash) -> (r: Option<usize>)
        ensures
            match r {
                Some(i) => i < self.buffer@.len() && self.buffer@[i as int].hash == hash,
                None => !holds(self.buffer@, hash),
            },
    {
        let mut i: usize = 0;
        while i < self.buffer.len()
            invariant
                i <= self.buffer@.len(),
                forall|k: int| 0 <= k < i ==> self.buffer@[k].hash != hash,
            decreases self.buffer@.len() - i,
        {
            if self.buffer[i].hash == hash {
                return Some(i);
            }
            i = i + 1;
        }
        None
    }

    /// Takes out of the buffer the block with hash `hash`: the block that the
    /// chain names as the next one to connect. Gives back its peer and payload,
    /// or nothing when that block has not arrived, which halts draining.
    pub fn take_buffered(&mut self, hash: BlockHash) -> (r: Option<(PeerId, B)>)
        requires
            old(self).wf(),
        ensures
            final(self).wf(),
            !holds(final(self).buffer_view(), hash),
            buffered_hashes(final(self).buffer_view()) == buffered_hashes(old(self).buffer_view()).remove(hash),
            r is None <==> !holds(old(self).buffer_view(), hash),
            final(self).buffer_view() == old(self).buffer_view().filter(other_blocks(hash)),
            r is None ==> final(self).buffer_view() == old(self).buffer_view(),
            match r {
                Some(pb) => exists|i: int| 0 <= i < old(self).buffer_view().len()
                    && (#[trigger] old(self).buffer_view()[i]).hash == hash
                    && old(self).buffer_view()[i].peer == pb.0
                    && old(self).buffer_view()[i].block == pb.1
                    && final(self).buffer_view() == old(self).buffer_view().remove(i),
                None => true,
            },
            final(self).inflight_view() == old(self).inflight_view(),
            final(self).cursor() == old(self).cursor(),
    {
        match self.find_buffered(hash) {
            Some(i) => {
                proof {
                    lemma_remove_block(self.buffer@, i as int);
                    lemma_remove_is_filter(self.buffer@, i as int);
                }
                let b = self.buffer.remove(i);
                Some((b.peer, b.block))
            },
            None => {
                proof {
                    assert(buffered_hashes(self.buffer@) =~= buffered_hashes(self.buffer@).remove(hash));
                    lemma_filter_absent(self.buffer@, hash);
                }
                None
            },
        }
    }

    /// A block with hash `hash` arrived from `peer`: its request, if any, is
    /// answered, and the block waits in the buffer, in place of any earlier
    /// copy with that hash.
    pub fn receive_block(&mut self, peer: PeerId, hash: BlockHash, block: B)
        requires
            old(self).wf(),
        ensures
            final(self).wf(),
            final(self).inflight_view() == old(self).inflight_view().filter(not_for(hash)),
            !tracks(final(self).inflight_view(), hash),
            buffered_hashes(final(self).buffer_view()) == buffered_hashes(old(self).buffer_view()).insert(hash),
            final(self).buffer_view()
                == old(self).buffer_view().filter(other_blocks(hash)).push(BufferedBlock { hash, peer, block }),
            final(self).cursor() == old(self).cursor(),
    {
        self.forget_request(hash);
        match self.find_buffered(hash) {
            Some(i) => {
                proof {
                    lemma_remove_block(self.buffer@, i as int);
                    lemma_remove_is_filter(self.buffer@, i as int);
                }
                let _ = self.buffer.remove(i);
            },
            None => {
                proof {
                    lemma_filter_absent(self.buffer@, hash);
                }
            },
        }
        proof {
            assert(!holds(self.buffer@, hash)) by {
                if holds(self.buffer@, hash) {
                    assert(buffered_hashes(self.buffer@).contains(hash));
                }
            }
            lemma_push_block(self.buffer@, BufferedBlock { hash, peer, block });
        }
        self.buffer.push(BufferedBlock { hash, peer, block });
    }

    /// A connect of block `hash`, taken from the buffer and delivered by
    /// `peer`, failed with `err`. The block is neither buffered nor inflight
    /// afterward, so its height can be asked for again; the cursor is left
    /// alone. Returns what the peer layer and the chain are to do.
    pub fn reject_block(&mut self, peer: PeerId, hash: BlockHash, err: ConnectError) -> (r: FailureReaction)
        requires
            old(self).wf(),
        ensures
            final(self).wf(),
            r == reaction_for(peer, hash, err),
            !holds(final(self).buffer_view(), hash),
            !tracks(final(self).inflight_view(), hash),
            final(self).inflight_view() == old(self).inflight_view().filter(not_for(hash)),
            buffered_hashes(final(self).buffer_view()) == buffered_hashes(old(self).buffer_view()).remove(hash),
            final(self).buffer_view() == old(self).buffer_view().filter(other_blocks(hash)),
            final(self).cursor() == old(self).cursor(),
    {
        self.forget_request(hash);
        let _ = self.take_buffered(hash);
        match err {
            ConnectError::Validation(f) => {
                let invalidate = match classify(f) {
                    FailurePolicy::InvalidateAndBan => Some(hash),
                    FailurePolicy::BanOnly => None,
                };
                FailureReaction::Punish { peer, ban_for: BAN_TIME, invalidate }
            },
            ConnectError::Interface => FailureReaction::Fatal,
        }
    }

    /// Decides what one iteration of the sync loop does: stop on shutdown or
    /// once the download is complete; else try a new connection when the
    /// interval has passed and there is room for one, and schedule a batch
    /// when a proof-serving peer exists and the tracker has room.
    pub fn plan_iteration(
        &self,
        shutdown: bool,
        in_initial_download: bool,
        secs_since_connection_attempt: u64,
        outgoing_peers: usize,
        utreexo_peers: usize,
    ) -> (r: IterationPlan)
        ensures
            r == plan_for(shutdown, in_initial_download, secs_since_connection_attempt,
                outgoing_peers, utreexo_peers, self.inflight_view().len()),
    {
        if shutdown || !in_initial_download {
            return IterationPlan::Stop;
        }
        IterationPlan::Proceed {
            open_connection: secs_since_connection_attempt >= TRY_NEW_CONNECTION
                && outgoing_peers < MAX_OUTGOING_PEERS,
            schedule: utreexo_peers > 0 && self.inflight.len() < MAX_INFLIGHT_REQUESTS,
        }
    }

    /// Takes in a notification from `peer`: a block is buffered (and its
    /// request answered), the rest is routed to the peer layer.
    pub fn handle_message(&mut self, peer: PeerId, msg: PeerMessage<B>) -> (r: Dispatch)
        requires
            old(self).wf(),
        ensures
            final(self).wf(),
            final(self).cursor() == old(self).cursor(),
            match msg {
                PeerMessage::Block(hash, block) => {
                    &&& r == Dispatch::Drain
                    &&& final(self).inflight_view() == old(self).inflight_view().filter(not_for(hash))
                    &&& buffered_hashes(final(self).buffer_view()) == buffered_hashes(old(self).buffer_view()).insert(hash)
                    &&& final(self).buffer_view() == old(self).buffer_view().filter(other_blocks(hash))
                        .push(BufferedBlock { hash, peer, block })
                },
                PeerMessage::Ready(services) => {
                    &&& r == Dispatch::PromotePeer(peer, services)
                    &&& *final(self) == *old(self)
                },
                PeerMessage::Disconnected(idx) => {
                    &&& r == Dispatch::RemovePeer(peer, idx)
                    &&& *final(self) == *old(self)
                },
                PeerMessage::Other => {
                    &&& r == Dispatch::Ignore
                    &&& *final(self) == *old(self)
                },
            },
    {
        match msg {
            PeerMessage::Block(hash, block) => {
                self.receive_block(peer, hash, block);
                Dispatch::Drain
            },
            PeerMessage::Ready(services) => Dispatch::PromotePeer(peer, services),
            PeerMessage::Disconnected(idx) => Dispatch::RemovePeer(peer, idx),
            PeerMessage::Other => Dispatch::Ignore,
        }
    }

    /// Services a peer must offer to be useful here: utreexo proofs.
    pub fn get_required_services(&self, utreexo_peers: usize) -> (r: u64)
        ensures
            r == NODE_UTREEXO,
    {
        NODE_UTREEXO
    }

    /// Reclaims the requests older than the timeout at time `now`: each leaves
    /// the tracker, and for each one the result holds exactly one reissue of its
    /// hash, with a ban-score increase of one for its peer.
    pub fn handle_timeout(&mut self, now: u64) -> (r: Vec<Reissue>)
        requires
            old(self).wf(),
        ensures
            final(self).wf(),
            ({
                let expired = old(self).inflight_view().filter(expired_at(now));
                &&& r@.len() == expired.len()
                &&& forall|i: int| 0 <= i < r@.len() ==> #[trigger] r@[i] == (Reissue {
                    peer: expired[i].peer,
                    ban_increase: TIMEOUT_BAN_SCORE,
                    hash: expired[i].hash,
                })
                &&& forall|i: int| 0 <= i < r@.len() ==> !tracks(final(self).inflight_view(), (#[trigger] r@[i]).hash)
                &&& forall|i: int, j: int| 0 <= i < r@.len() && 0 <= j < r@.len() && i != j
                    ==> r@[i].hash != r@[j].hash
            }),
            final(self).inflight_view() == old(self).inflight_view().filter(live_at(now)),
            final(self).buffer_view() == old(self).buffer_view(),
            final(self).cursor() == old(self).cursor(),
    {
        let expired = self.sweep_timeouts(now);
        let mut out: Vec<Reissue> = Vec::new();
        let mut i: usize = 0;
        while i < expired.len()
            invariant
                i <= expired@.len(),
                out@.len() == i,
                forall|k: int| 0 <= k < i ==> #[trigger] out@[k] == (Reissue {
                    peer: expired@[k].peer,
                    ban_increase: TIMEOUT_BAN_SCORE,
                    hash: expired@[k].hash,
                }),
            decreases expired@.len() - i,
        {
            let e = expired[i];
            out.push(Reissue { peer: e.peer, ban_increase: TIMEOUT_BAN_SCORE, hash: e.hash });
            i = i + 1;
        }
        proof {
            assert forall|i: int| 0 <= i < out@.len() implies !tracks(self.inflight@, (#[trigger] out@[i]).hash) by {
                assert(expired@[i].hash == out@[i].hash);
                assert(tracks(expired@, expired@[i].hash));
            }
            assert forall|i: int, j: int| 0 <= i < out@.len() && 0 <= j < out@.len() && i != j
                implies out@[i].hash != out@[j].hash by {
                assert(out@[i].hash == expired@[i].hash && out@[j].hash == expired@[j].hash);
            }
        }
        out
    }

    /// Whether a request for `hash` is outstanding.
    pub fn is_inflight(&self, hash: BlockHash) -> (r: bool)
        ensures
            r == tracks(self.inflight_view(), hash),
    {
        let mut i: usize = 0;
        while i < self.inflight.len()
            invariant
                i <= self.inflight@.len(),
                forall|k: int| 0 <= k < i ==> self.inflight@[k].hash != hash,
            decreases self.inflight@.len() - i,
        {
            if self.inflight[i].hash == hash {
                return true;
            }
            i = i + 1;
        }
        false
    }

    /// Whether a block with `hash` waits in the buffer.
    pub fn is_buffered(&self, hash: BlockHash) -> (r: bool)
        ensures
            r == holds(self.buffer_view(), hash),
    {
        let mut i: usize = 0;
        while i < self.buffer.len()
            invariant
                i <= self.buffer@.len(),
                forall|k: int| 0 <= k < i ==> self.buffer@[k].hash != hash,
            decreases self.buffer@.len() - i,
        {
            if self.buffer[i].hash == hash {
                return true;
            }
            i = i + 1;
        }
        false
    }
}

} // verus!
