//! Group commit: the writes that arrive together are framed into one append,
//! applied as one batch, and answered each with its own revisions.
use vstd::prelude::*;

use crate::mvcc::mutation::{Mutation, MutationView};
use crate::mvcc::revision::{Revision, WIRE_MAX};
use crate::mvcc::store::{apply_all, batch_view, KvStore};
use crate::storage_api::engine::StorageEngine;
use crate::wal::error::{Error, ErrorKind};
use crate::wal::record::{self, encodable, record_frame};

use crate::mvcc::meta::{applied_key_bytes, position_bytes};

verus! {

/// Most writes folded into a single flush.
///
/// Every write in a batch shares one fsync, so a larger cap means better
/// throughput under load and a longer worst-case wait for the writer that
/// opened the batch.
pub const MAX_BATCH: usize = 256;

/// How many writes may be queued before callers are made to wait.
pub const QUEUE_DEPTH: usize = 1024;

/// The log bytes of `ms`: each mutation's record, in order.
pub open spec fn log_bytes(ms: Seq<MutationView>) -> Seq<u8>
    decreases ms.len(),
{
    if ms.len() == 0 {
        Seq::empty()
    } else {
        log_bytes(ms.drop_last()) + record_frame(ms.last())
    }
}

/// The mutations of the first `n` requests, in order.
pub open spec fn flattened(requests: Seq<Seq<MutationView>>, n: nat) -> Seq<MutationView>
    decreases n,
{
    if n == 0 || n > requests.len() {
        Seq::empty()
    } else {
        flattened(requests, (n - 1) as nat) + requests[n - 1]
    }
}

/// The mathematical form of a list of requests.
pub open spec fn requests_view(requests: Seq<Vec<Mutation>>) -> Seq<Seq<MutationView>> {
    requests.map_values(|r: Vec<Mutation>| r@.map_values(|m: Mutation| m@))
}

/// Frames every mutation of every request into one append.
///
/// Returns the bytes to append and the mutations in the order they were
/// framed. A mutation that does not fit the record format fails the whole
/// batch as corrupt.
#[verifier::loop_isolation(false)]
pub fn encode_batch(mut requests: Vec<Vec<Mutation>>) -> (r: Result<(Vec<u8>, Vec<Mutation>), Error>)
    ensures
        ({
            let all = flattened(requests_view(requests@), requests@.len());
            if forall|i: int| 0 <= i < all.len() ==> encodable(#[trigger] all[i]) {
                r matches Ok((bytes, muts)) && bytes@ == log_bytes(all) && muts@.map_values(|m: Mutation| m@) == all
            } else {
                r matches Err(e) && e.kind_of() == ErrorKind::Corrupt
            }
        }),
{
    let ghost given = requests@;
    let ghost rv = requests_view(given);
    let ghost total = flattened(rv, given.len());
    let mut bytes: Vec<u8> = Vec::new();
    let mut all: Vec<Mutation> = Vec::new();
    let n = requests.len();
    let mut i: usize = 0;
    while i < n
        invariant
            n == given.len(),
            requests@.len() == n,
            forall|a: int| i <= a < n ==> #[trigger] requests@[a] == given[a],
            rv == requests_view(given),
            total == flattened(rv, n as nat),
            i <= n,
            all@.map_values(|m: Mutation| m@) == flattened(rv, i as nat),
            bytes@ == log_bytes(flattened(rv, i as nat)),
            forall|a: int| 0 <= a < flattened(rv, i as nat).len() ==> encodable(#[trigger] flattened(rv, i as nat)[a]),
        decreases n - i,
    {
        let mut request: Vec<Mutation> = Vec::new();
        std::mem::swap(&mut request, &mut requests[i]);
        let ghost req = request@.map_values(|m: Mutation| m@);
        assert(req == rv[i as int]);
        let ghost before = all@.map_values(|m: Mutation| m@);
        let k = request.len();
        let mut j: usize = 0;
        while j < k
            invariant
                k == request@.len(),
                req == request@.map_values(|m: Mutation| m@),
                n == given.len(),
                rv == requests_view(given),
                total == flattened(rv, n as nat),
                i < n,
                req == rv[i as int],
                before == flattened(rv, i as nat),
                forall|a: int| 0 <= a < before.len() ==> encodable(#[trigger] before[a]),
                j <= k,
                bytes@ == log_bytes(before + req.take(j as int)),
                forall|a: int| 0 <= a < j ==> encodable(#[trigger] req[a]),
            decreases k - j,
        {
            let ghost prior = bytes@;
            match record::encode(&request[j], &mut bytes) {
                Ok(()) => {},
                Err(e) => {
                    proof {
                        let sofar = flattened(rv, (i + 1) as nat);
                        assert(sofar == before + req);
                        assert(sofar[before.len() + j] == req[j as int]);
                        lemma_flattened_prefix(rv, (i + 1) as nat, n as nat);
                        assert(total[before.len() + j] == req[j as int]);
                        assert(request@[j as int]@ == req[j as int]);
                        assert(!encodable(total[before.len() + j]));
                        assert(before.len() + j < total.len());
                        assert(e.kind_of() == ErrorKind::Corrupt);
                    }
                    return Err(e);
                },
            }
            proof {
                let ext = before + req.take(j + 1);
                assert(ext.drop_last() =~= before + req.take(j as int));
                assert(ext.last() == req[j as int]);
            }
            j = j + 1;
        }
        proof {
            assert(req.take(k as int) =~= req);
        }
        all.append(&mut request);
        proof {
            assert(all@.map_values(|m: Mutation| m@) =~= before + req);
            assert(flattened(rv, (i + 1) as nat) == before + req);
        }
        i = i + 1;
    }
    Ok((bytes, all))
}

/// The mutations of the first `n` requests begin those of the first `m`.
proof fn lemma_flattened_prefix(requests: Seq<Seq<MutationView>>, n: nat, m: nat)
    requires
        n <= m <= requests.len(),
    ensures
        flattened(requests, m).len() >= flattened(requests, n).len(),
        forall|a: int|
            0 <= a < flattened(requests, n).len() ==> #[trigger] flattened(requests, m)[a] == flattened(
                requests,
                n,
            )[a],
    decreases m,
{
    if m > n {
        lemma_flattened_prefix(requests, n, (m - 1) as nat);
    }
}

/// The sum of the first `n` of `counts`.
pub open spec fn prefix_sum(counts: Seq<usize>, n: int) -> int
    decreases n,
{
    if n <= 0 {
        0
    } else {
        prefix_sum(counts, n - 1) + counts[n - 1]
    }
}

/// `x` held to the range `0..=len`.
pub open spec fn clamp(x: int, len: int) -> int {
    if x > len {
        len
    } else {
        x
    }
}

/// Splits a batch's revisions among the writers it folded together, the
/// `i`th taking the next `counts[i]` of them in order.
///
/// Writers past the end of `revisions` receive what is left, possibly nothing.
pub fn split_revisions(revisions: &[Revision], counts: &[usize]) -> (out: Vec<Vec<Revision>>)
    ensures
        out@.len() == counts@.len(),
        forall|i: int|
            0 <= i < counts@.len() ==> (#[trigger] out@[i])@ == revisions@.subrange(
                clamp(prefix_sum(counts@, i), revisions@.len() as int),
                clamp(prefix_sum(counts@, i + 1), revisions@.len() as int),
            ),
{
    let mut out: Vec<Vec<Revision>> = Vec::new();
    let len = revisions.len();
    let mut at: usize = 0;
    let mut i: usize = 0;
    while i < counts.len()
        invariant
            len == revisions@.len(),
            i <= counts@.len(),
            at as int == clamp(prefix_sum(counts@, i as int), len as int),
            out@.len() == i,
            forall|a: int|
                0 <= a < i ==> (#[trigger] out@[a])@ == revisions@.subrange(
                    clamp(prefix_sum(counts@, a), len as int),
                    clamp(prefix_sum(counts@, a + 1), len as int),
                ),
        decreases counts@.len() - i,
    {
        let end = if counts[i] > len - at {
            len
        } else {
            at + counts[i]
        };
        let mut mine: Vec<Revision> = Vec::new();
        let mut j = at;
        while j < end
            invariant
                at <= j <= end <= len,
                len == revisions@.len(),
                mine@ == revisions@.subrange(at as int, j as int),
            decreases end - j,
        {
            mine.push(revisions[j]);
            j = j + 1;
            assert(mine@ =~= revisions@.subrange(at as int, j as int));
        }
        proof {
            assert(prefix_sum(counts@, i + 1) == prefix_sum(counts@, i as int) + counts@[i as int]);
            assert(prefix_sum(counts@, i as int) >= 0) by {
                lemma_prefix_sum_nonnegative(counts@, i as int);
            }
        }
        out.push(mine);
        at = end;
        i = i + 1;
    }
    out
}

/// Sums of counts are never negative.
proof fn lemma_prefix_sum_nonnegative(counts: Seq<usize>, n: int)
    ensures
        prefix_sum(counts, n) >= 0,
    decreases n,
{
    if n > 0 {
        lemma_prefix_sum_nonnegative(counts, n - 1);
    }
}

/// Applies a durably logged batch to `store`, recording that the log has
/// been applied one record further per mutation, and returns the revisions.
///
/// A batch whose position or revisions would run past what the store can
/// count is refused, as is one the store fails to apply; either way the store
/// is left as it was.
pub fn apply_logged<E: StorageEngine>(store: &mut KvStore<E>, mutations: &[Mutation]) -> (r: Result<Vec<Revision>, Error>)
    requires
        old(store).wf(),
    ensures
        final(store).wf(),
        final(store).watermark() == old(store).watermark(),
        if old(store).applied_position() + mutations@.len() > u64::MAX || old(store).current().0
            + mutations@.len() >= WIRE_MAX {
            (r matches Err(e) && e.kind_of() == ErrorKind::Apply) && final(store).same_contents(old(store))
        } else {
            match r {
                Ok(revisions) => {
                    let s = apply_all(old(store).apply_start(), batch_view(mutations@));
                    &&& revisions@.map_values(|v: Revision| v@) == s.revisions
                    &&& final(store).history() == s.history
                    &&& final(store).current() == s.current
                    &&& final(store).applied_position() == old(store).applied_position() + mutations@.len()
                    &&& final(store).backend() == s.backend.insert(
                        applied_key_bytes(),
                        position_bytes((old(store).applied_position() + mutations@.len()) as u64),
                    )
                },
                Err(e) => e.kind_of() == ErrorKind::Apply && final(store).same_contents(old(store)),
            }
        },
{
    let applied = store.applied();
    let n = mutations.len() as u64;
    if applied > u64::MAX - n {
        return Err(Error::apply("the log position would overflow"));
    }
    let current = store.current_revision().main();
    if current >= WIRE_MAX || WIRE_MAX - current <= n {
        return Err(Error::apply("the store has no revisions left for the batch"));
    }
    match store.apply(mutations, applied + n) {
        Ok(revisions) => Ok(revisions),
        Err(e) => Err(Error::apply(e.message().as_str())),
    }
}

} // verus!
