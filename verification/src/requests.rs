//! The blocks that were requested and are awaited.
use vstd::prelude::*;

verus! {

/// A block by the index of its piece and its offset.
pub type BlockId = (usize, usize);

/// Requested blocks, each with the moment of its request
#[derive(Debug)]
pub struct ActiveRequests {
    entries: Vec<(BlockId, u128)>,
}

/// No block is there twice.
spec fn blocks_differ(entries: Seq<(BlockId, u128)>) -> bool {
    forall|i: int, j: int|
        0 <= i < j < entries.len() ==> (#[trigger] entries[i]).0 != (#[trigger] entries[j]).0
}

/// The block is there.
spec fn is_there(entries: Seq<(BlockId, u128)>, block: BlockId) -> bool {
    exists|i: int| 0 <= i < entries.len() && (#[trigger] entries[i]).0 == block
}

/// The moment of the block's request.
spec fn moment(entries: Seq<(BlockId, u128)>, block: BlockId) -> u128 {
    entries[choose|i: int| 0 <= i < entries.len() && (#[trigger] entries[i]).0 == block].1
}

/// The requests as a map.
spec fn as_map(entries: Seq<(BlockId, u128)>) -> Map<BlockId, u128> {
    Map::new(|block: BlockId| is_there(entries, block), |block: BlockId| moment(entries, block))
}

/// Each entry is in the map.
proof fn lemma_entry(entries: Seq<(BlockId, u128)>, i: int)
    requires
        blocks_differ(entries),
        0 <= i < entries.len(),
    ensures
        as_map(entries).contains_key(entries[i].0),
        as_map(entries)[entries[i].0] == entries[i].1,
{
    let block = entries[i].0;
    assert(is_there(entries, block));
    let j = choose|j: int| 0 <= j < entries.len() && (#[trigger] entries[j]).0 == block;
    if j < i {
        assert(entries[j].0 != entries[i].0);
    } else if i < j {
        assert(entries[i].0 != entries[j].0);
    }
}

impl View for ActiveRequests {
    type V = Map<BlockId, u128>;

    closed spec fn view(&self) -> Map<BlockId, u128> {
        as_map(self.entries@)
    }
}

/// The requests that are not older than the timeout.
pub open spec fn in_time(requests: Map<BlockId, u128>, now: u128, timeout: u128) -> Map<
    BlockId,
    u128,
> {
    Map::new(
        |block: BlockId| requests.contains_key(block) && now - requests[block] <= timeout,
        |block: BlockId| requests[block],
    )
}

impl ActiveRequests {
    /// No block is there twice.
    pub closed spec fn wf(self) -> bool {
        blocks_differ(self.entries@)
    }

    /// No requests
    pub fn new() -> (r: Self)
        ensures
            r.wf(),
            r@ == Map::<BlockId, u128>::empty(),
    {
        let r = ActiveRequests { entries: Vec::new() };
        proof {
            assert(r@ =~= Map::<BlockId, u128>::empty());
        }
        r
    }

    /// The moment of a block's request, if the block is awaited
    pub fn get(&self, block: BlockId) -> (r: Option<u128>)
        requires
            self.wf(),
        ensures
            match r {
                Some(time) => self@.contains_key(block) && self@[block] == time,
                None => !self@.contains_key(block),
            },
    {
        let mut i: usize = 0;
        while i < self.entries.len()
            invariant
                i <= self.entries@.len(),
                self.wf(),
                forall|j: int| 0 <= j < i ==> (#[trigger] self.entries@[j]).0 != block,
            decreases self.entries@.len() - i,
        {
            let (id, time) = self.entries[i];
            if id.0 == block.0 && id.1 == block.1 {
                proof {
                    lemma_entry(self.entries@, i as int);
                }
                return Some(time);
            }
            i += 1;
        }
        None
    }

    /// Forget the request for a block
    pub fn remove(&mut self, block: BlockId)
        requires
            old(self).wf(),
        ensures
            final(self).wf(),
            final(self)@ == old(self)@.remove(block),
    {
        let ghost before = self.entries@;
        let mut i: usize = 0;
        while i < self.entries.len()
            invariant
                i <= self.entries@.len(),
                self.entries@ == before,
                before == old(self).entries@,
                blocks_differ(before),
                forall|j: int| 0 <= j < i ==> (#[trigger] before[j]).0 != block,
            decreases self.entries@.len() - i,
        {
            let id = self.entries[i].0;
            if id.0 == block.0 && id.1 == block.1 {
                self.entries.remove(i);
                proof {
                    lemma_without(before, self.entries@, i as int);
                    assert(self@ =~= old(self)@.remove(block));
                }
                return;
            }
            i += 1;
        }
        proof {
            assert(self@ =~= old(self)@.remove(block));
        }
    }

    /// Note a request
    pub fn insert(&mut self, block: BlockId, time: u128)
        requires
            old(self).wf(),
        ensures
            final(self).wf(),
            final(self)@ == old(self)@.insert(block, time),
    {
        self.remove(block);
        let ghost before = self.entries@;
        self.entries.push((block, time));
        proof {
            assert(!as_map(before).contains_key(block));
            lemma_added(before, block, time);
            assert(self.entries@ == before.push((block, time)));
            assert(as_map(before) == old(self)@.remove(block));
            assert(self@ =~= old(self)@.insert(block, time));
        }
    }

    /// Forget all requests
    pub fn clear(&mut self)
        ensures
            final(self).wf(),
            final(self)@ == Map::<BlockId, u128>::empty(),
    {
        self.entries = Vec::new();
        proof {
            assert(self@ =~= Map::<BlockId, u128>::empty());
        }
    }

    /// Forget the requests that are older than the timeout `now`
    pub fn remove_timed_out(&mut self, now: u128, timeout: u128)
        requires
            old(self).wf(),
        ensures
            final(self).wf(),
            final(self)@ == in_time(old(self)@, now, timeout),
    {
        let ghost all = self.entries@;
        let mut kept: Vec<(BlockId, u128)> = Vec::new();
        let mut i: usize = 0;
        proof {
            assert(in_time(as_map(all.take(0)), now, timeout) =~= as_map(kept@));
        }
        while i < self.entries.len()
            invariant
                i <= all.len(),
                self.entries@ == all,
                all == old(self).entries@,
                blocks_differ(all),
                blocks_differ(kept@),
                as_map(kept@) == in_time(as_map(all.take(i as int)), now, timeout),
            decreases self.entries@.len() - i,
        {
            let (id, time) = self.entries[i];
            let ghost part = all.take(i as int);
            let ghost before = kept@;
            proof {
                assert(all.take(i + 1) =~= part.push((id, time)));
                assert(blocks_differ(part));
                assert(!is_there(part, id)) by {
                    if is_there(part, id) {
                        let j = choose|j: int|
                            0 <= j < part.len() && (#[trigger] part[j]).0 == id;
                        assert(all[j].0 != all[i as int].0);
                    }
                }
                lemma_added(part, id, time);
                assert(!as_map(part).contains_key(id));
                assert(!as_map(before).contains_key(id));
                assert(!is_there(before, id));
            }
            if now > time && now - time > timeout {
                proof {
                    assert(in_time(as_map(all.take(i + 1)), now, timeout) =~= as_map(before));
                }
            } else {
                kept.push((id, time));
                proof {
                    lemma_added(before, id, time);
                    assert(kept@ == before.push((id, time)));
                    assert(in_time(as_map(all.take(i + 1)), now, timeout) =~= as_map(kept@));
                }
            }
            i += 1;
        }
        proof {
            assert(all.take(i as int) =~= all);
        }
        self.entries = kept;
    }
}

/// One entry more is one more in the map.
proof fn lemma_added(entries: Seq<(BlockId, u128)>, block: BlockId, time: u128)
    requires
        blocks_differ(entries),
        !is_there(entries, block),
    ensures
        blocks_differ(entries.push((block, time))),
        as_map(entries.push((block, time))) == as_map(entries).insert(block, time),
{
    let after = entries.push((block, time));
    assert forall|i: int, j: int| 0 <= i < j < after.len() implies (#[trigger] after[i]).0 != (
    #[trigger] after[j]).0 by {
        assert(after[i] == entries[i]);
        if j < entries.len() {
            assert(entries[i].0 != entries[j].0);
        }
    }
    assert forall|b: BlockId| #[trigger] is_there(after, b) <==> is_there(entries, b) || b
        == block by {
        if is_there(entries, b) {
            let i = choose|i: int| 0 <= i < entries.len() && (#[trigger] entries[i]).0 == b;
            assert(after[i].0 == b);
        }
        if b == block {
            assert(after[entries.len() as int].0 == b);
        }
    }
    assert forall|b: BlockId| is_there(after, b) implies #[trigger] as_map(after)[b] == as_map(
        entries,
    ).insert(block, time)[b] by {
        let i = choose|i: int| 0 <= i < after.len() && (#[trigger] after[i]).0 == b;
        lemma_entry(after, i);
        if i < entries.len() {
            lemma_entry(entries, i);
            assert(b != block);
        }
    }
    assert(as_map(after) =~= as_map(entries).insert(block, time));
}

/// One entry less is one less in the map.
proof fn lemma_without(before: Seq<(BlockId, u128)>, after: Seq<(BlockId, u128)>, i: int)
    requires
        blocks_differ(before),
        0 <= i < before.len(),
        after == before.remove(i),
    ensures
        blocks_differ(after),
        as_map(after) == as_map(before).remove(before[i].0),
{
    let block = before[i].0;
    assert forall|a: int, b: int| 0 <= a < b < after.len() implies (#[trigger] after[a]).0 != (
    #[trigger] after[b]).0 by {
        let x = if a < i {
            a
        } else {
            a + 1
        };
        let y = if b < i {
            b
        } else {
            b + 1
        };
        assert(before[x].0 != before[y].0);
    }
    assert forall|b: BlockId| #[trigger] is_there(after, b) <==> is_there(before, b) && b
        != block by {
        if is_there(after, b) {
            let j = choose|j: int| 0 <= j < after.len() && (#[trigger] after[j]).0 == b;
            let x = if j < i {
                j
            } else {
                j + 1
            };
            assert(before[x].0 == b);
            if x < i {
                assert(before[x].0 != before[i].0);
            } else {
                assert(before[i].0 != before[x].0);
            }
        }
        if is_there(before, b) && b != block {
            let j = choose|j: int| 0 <= j < before.len() && (#[trigger] before[j]).0 == b;
            let x = if j < i {
                j
            } else {
                j - 1
            };
            assert(after[x].0 == b);
        }
    }
    assert forall|b: BlockId| is_there(after, b) implies #[trigger] as_map(after)[b] == as_map(
        before,
    )[b] by {
        let j = choose|j: int| 0 <= j < after.len() && (#[trigger] after[j]).0 == b;
        let x = if j < i {
            j
        } else {
            j + 1
        };
        lemma_entry(after, j);
        lemma_entry(before, x);
    }
    assert(as_map(after) =~= as_map(before).remove(block));
}

/// A request stays just where it is not older than the timeout, and with the
/// moment that it had.
pub proof fn law_requests_in_time_stay(
    requests: Map<BlockId, u128>,
    now: u128,
    timeout: u128,
    block: BlockId,
)
    ensures
        in_time(requests, now, timeout).contains_key(block) <==> requests.contains_key(block) && now
            <= requests[block] + timeout,
        in_time(requests, now, timeout).contains_key(block) ==> in_time(
            requests,
            now,
            timeout,
        )[block] == requests[block],
{
}

} // verus!
