use vstd::prelude::*;

verus! {

use vstd::multiset::Multiset;
use vstd::string::StringSliceAdditionalSpecFns;
use crate::dedupe::DeduplicationEngine;
use crate::event::Event;

/// Does a kind pass the allowlist? No list, or an empty list, lets
/// every kind through.
pub open spec fn kind_allowed(allowed: Option<Seq<u16>>, kind: u16) -> bool {
    match allowed {
        Option::None => true,
        Option::Some(ks) => ks.len() == 0 || ks.contains(kind),
    }
}

/// Timestamp-ascending order.
pub open spec fn sorted_by_ts(s: Seq<Event>) -> bool {
    forall|i: int, j: int| 0 <= i < j < s.len() ==> s[i].created_at <= s[j].created_at
}

/// The allowlist as a mathematical value.
pub open spec fn allowed_view(a: Option<Vec<u16>>) -> Option<Seq<u16>> {
    match a {
        Option::Some(v) => Option::Some(v@),
        Option::None => Option::None,
    }
}

pub fn kind_allowed_exec(allowed: &Option<Vec<u16>>, kind: u16) -> (r: bool)
    ensures
        r == kind_allowed(allowed_view(*allowed), kind),
{
    let ar = allowed.as_ref();
    match ar {
        None => true,
        Some(ks) => {
            proof {
                assert(ar is Some);
                assert(*allowed is Some);
                assert((*allowed)->0 == ar->0);
                assert(allowed_view(*allowed) == Option::Some(ks@));
            }
            if ks.len() == 0 {
                return true;
            }
            let mut i: usize = 0;
            while i < ks.len()
                invariant
                    i <= ks@.len(),
                    allowed_view(*allowed) == Option::Some(ks@),
                    forall|t: int| 0 <= t < i ==> ks@[t] != kind,
                decreases ks@.len() - i,
            {
                if ks[i] == kind {
                    proof {
                        assert(ks@[i as int] == kind);
                        assert(ks@.contains(kind));
                        assert(kind_allowed(allowed_view(*allowed), kind));
                    }
                    return true;
                }
                i = i + 1;
            }
            proof {
                assert(!ks@.contains(kind));
            }
            false
        },
    }
}

/// Sort events by `created_at`, ascending; the result holds exactly
/// the events given.
pub fn sort_by_created_at(v: Vec<Event>) -> (r: Vec<Event>)
    ensures
        sorted_by_ts(r@),
        r@.to_multiset() == v@.to_multiset(),
        r@.len() == v@.len(),
        forall|i: int| 0 <= i < r@.len() ==> v@.contains(#[trigger] r@[i]),
{
    broadcast use vstd::seq_lib::group_to_multiset_ensures;

    let mut src = v;
    let mut out: Vec<Event> = Vec::new();
    proof {
        assert(out@.to_multiset().add(src@.to_multiset()) =~= v@.to_multiset());
    }
    while src.len() > 0
        invariant
            sorted_by_ts(out@),
            out@.to_multiset().add(src@.to_multiset()) == v@.to_multiset(),
            out@.len() + src@.len() == v@.len(),
            forall|i: int, j: int|
                0 <= i < out@.len() && 0 <= j < src@.len() ==> out@[i].created_at
                    <= src@[j].created_at,
            forall|i: int| 0 <= i < out@.len() ==> v@.contains(#[trigger] out@[i]),
        decreases src@.len(),
    {
        let mut mi: usize = 0;
        let mut t: usize = 1;
        while t < src.len()
            invariant
                mi < t <= src@.len() || (t <= src@.len() && mi == 0),
                mi < src@.len(),
                t <= src@.len(),
                forall|u: int| 0 <= u < t ==> src@[mi as int].created_at <= src@[u].created_at,
            decreases src@.len() - t,
        {
            if src[t].created_at < src[mi].created_at {
                mi = t;
            }
            t = t + 1;
        }
        let ghost src0 = src@;
        let e = src.remove(mi);
        proof {
            src0.to_multiset_ensures();
            v@.to_multiset_ensures();
            assert(src@ == src0.remove(mi as int));
            assert(src@.to_multiset() =~= src0.to_multiset().remove(e));
            assert(src0.contains(e)) by {
                assert(src0[mi as int] == e);
            }
            assert(src0.to_multiset().count(e) > 0);
            assert(v@.contains(e)) by {
                assert(v@.to_multiset().count(e) > 0);
            }
        }
        let ghost out0 = out@;
        out.push(e);
        proof {
            out0.to_multiset_ensures();
            assert(out@ == out0.push(e));
            assert(out@.to_multiset() == out0.to_multiset().insert(e));
            assert(out@.to_multiset().add(src@.to_multiset()) =~= v@.to_multiset()) by {
                assert(src0.to_multiset().count(e) > 0);
                assert(out0.to_multiset().insert(e).add(src0.to_multiset().remove(e))
                    =~= out0.to_multiset().add(src0.to_multiset()));
                assert(out0.to_multiset().add(src0.to_multiset()) == v@.to_multiset());
            }
            assert(forall|j: int|
                0 <= j < src@.len() ==> e.created_at <= (#[trigger] src@[j]).created_at) by {
                assert(forall|j: int|
                    0 <= j < src@.len() ==> src@[j] == src0[if j < mi {
                        j
                    } else {
                        j + 1
                    }]);
            }
            assert(sorted_by_ts(out@)) by {
                assert(forall|i: int|
                    0 <= i < out@.len() - 1 ==> (#[trigger] out@[i]).created_at <= e.created_at);
            }
        }
    }
    proof {
        assert(src@.to_multiset() =~= Multiset::<Event>::empty());
        assert(out@.to_multiset().add(Multiset::<Event>::empty()) =~= out@.to_multiset());
    }
    out
}

/// Orders novel events into timestamp-ascending batches: incoming
/// events pass the kind allowlist and the deduplication engine, gather
/// in a pending buffer, and leave sorted, a batch at a time.
pub struct EventRouter {
    dedupe: DeduplicationEngine,
    batch_size: usize,
    max_latency_ms: u64,
    allowed_kinds: Option<Vec<u16>>,
    pending: Vec<Event>,
}

impl EventRouter {
    pub closed spec fn wf(self) -> bool {
        &&& self.dedupe.wf()
        &&& self.batch_size >= 1
        &&& forall|i: int| 0 <= i < self.pending@.len() ==> (#[trigger] self.pending@[i]).wf()
    }

    pub closed spec fn pending_view(self) -> Seq<Event> {
        self.pending@
    }

    pub closed spec fn bsize(self) -> nat {
        self.batch_size as nat
    }

    pub closed spec fn latency_ms(self) -> u64 {
        self.max_latency_ms
    }

    pub closed spec fn allowed(self) -> Option<Seq<u16>> {
        allowed_view(self.allowed_kinds)
    }

    pub closed spec fn engine(self) -> DeduplicationEngine {
        self.dedupe
    }

    pub closed spec fn store_map(self) -> Map<Seq<u8>, Seq<u8>> {
        self.dedupe.store_map()
    }

    pub fn new(
        dedupe: DeduplicationEngine,
        batch_size: usize,
        max_latency_ms: u64,
        allowed_kinds: Option<Vec<u16>>,
    ) -> (r: EventRouter)
        requires
            dedupe.wf(),
            batch_size >= 1,
        ensures
            r.wf(),
            r.pending_view() == Seq::<Event>::empty(),
            r.bsize() == batch_size,
            r.latency_ms() == max_latency_ms,
            r.allowed() == allowed_view(allowed_kinds),
            r.engine() == dedupe,
    {
        EventRouter { dedupe, batch_size, max_latency_ms, allowed_kinds, pending: Vec::new() }
    }

    pub fn pending_count(&self) -> (r: usize)
        ensures
            r == self.pending_view().len(),
    {
        self.pending.len()
    }

    pub fn batch_size(&self) -> (r: usize)
        ensures
            r == self.bsize(),
    {
        self.batch_size
    }

    pub fn max_latency_ms(&self) -> (r: u64)
        ensures
            r == self.latency_ms(),
    {
        self.max_latency_ms
    }

    /// Record a successful forward through to the shared archive.
    pub fn mark_forward_success(&mut self, event_id: &str)
        requires
            old(self).wf(),
        ensures
            final(self).wf(),
            final(self).pending_view() == old(self).pending_view(),
            final(self).bsize() == old(self).bsize(),
            final(self).allowed() == old(self).allowed(),
            exists|t: u64|
                final(self).store_map() == old(self).store_map().insert(
                    crate::store::fwd_key(event_id.spec_bytes()),
                    seq![49u8],
                ).insert(crate::store::succ_key(t, event_id.spec_bytes()), Seq::empty()),
    {
        self.dedupe.mark_forward_success(event_id);
    }

    /// Has this event been forwarded successfully?
    pub fn is_forward_success(&self, event_id: &str) -> (r: bool)
        requires
            self.wf(),
        ensures
            r == self.store_map().dom().contains(
                crate::store::fwd_key(event_id.spec_bytes()),
            ),
    {
        self.dedupe.is_forward_success(event_id)
    }

    /// Drain the oldest `min(batch_size, pending)` events, sorted by
    /// timestamp: what leaves plus what stays is exactly what was
    /// pending.
    pub fn flush_batch(&mut self) -> (b: Vec<Event>)
        requires
            old(self).wf(),
        ensures
            final(self).wf(),
            sorted_by_ts(b@),
            sorted_by_ts(final(self).pending_view()),
            b@.len() == if old(self).pending_view().len() <= old(self).bsize() {
                old(self).pending_view().len()
            } else {
                old(self).bsize()
            },
            b@.to_multiset().add(final(self).pending_view().to_multiset()) == old(
                self,
            ).pending_view().to_multiset(),
            forall|i: int, j: int|
                0 <= i < b@.len() && 0 <= j < final(self).pending_view().len() ==> (
                #[trigger] b@[i]).created_at <= (#[trigger] final(self).pending_view()[j]).created_at,
            forall|i: int| 0 <= i < b@.len() ==> (#[trigger] b@[i]).wf(),
            final(self).store_map() == old(self).store_map(),
            final(self).bsize() == old(self).bsize(),
            final(self).engine() == old(self).engine(),
            final(self).allowed() == old(self).allowed(),
    {
        broadcast use vstd::seq_lib::group_to_multiset_ensures;

        let mut p: Vec<Event> = Vec::new();
        std::mem::swap(&mut p, &mut self.pending);
        let ghost p0 = p@;
        let mut sorted = sort_by_created_at(p);
        let ghost s0 = sorted@;
        let k = crate::min_usize(self.batch_size, sorted.len());
        let mut batch: Vec<Event> = Vec::new();
        let mut rest: Vec<Event> = Vec::new();
        while sorted.len() > 0
            invariant
                k <= s0.len(),
                k <= self.batch_size as nat,
                batch@.len() + rest@.len() <= s0.len(),
                sorted@ == s0.skip((batch@.len() + rest@.len()) as int),
                batch@.len() <= k,
                batch@ == s0.take(batch@.len() as int),
                rest@.len() > 0 ==> batch@.len() == k,
                rest@ == s0.subrange(k as int, (k + rest@.len()) as int),
            decreases sorted@.len(),
        {
            let ghost j = batch@.len() + rest@.len();
            proof {
                assert(s0.skip(j as int).len() == s0.len() - j);
                assert(j < s0.len());
            }
            let e = sorted.remove(0);
            proof {
                assert(e == s0[j as int]);
                assert(sorted@ =~= s0.skip(j as int + 1));
            }
            if batch.len() < k {
                proof {
                    assert(rest@.len() == 0) by {
                        if rest@.len() > 0 {
                            assert(batch@.len() == k);
                        }
                    }
                    assert(j == batch@.len());
                }
                batch.push(e);
                proof {
                    assert(batch@ =~= s0.take(batch@.len() as int));
                }
            } else {
                proof {
                    assert(batch@.len() == k);
                }
                rest.push(e);
                proof {
                    assert(rest@ =~= s0.subrange(k as int, (k + rest@.len()) as int));
                }
            }
        }
        self.pending = rest;
        proof {
            assert(batch@.len() + self.pending@.len() == s0.len());
            if s0.len() <= k {
                assert(batch@ =~= s0);
                assert(self.pending@ =~= Seq::<Event>::empty());
            } else {
                assert(batch@ =~= s0.take(k as int));
                assert(self.pending@ =~= s0.subrange(k as int, s0.len() as int));
            }
            assert(batch@ + self.pending@ =~= s0);
            vstd::seq_lib::lemma_multiset_commutative(batch@, self.pending@);
            assert((batch@ + self.pending@).to_multiset() == s0.to_multiset());
            assert(sorted_by_ts(batch@)) by {
                assert(forall|a: int, b2: int|
                    0 <= a < b2 < batch@.len() ==> (#[trigger] batch@[a]).created_at <= (
                    #[trigger] batch@[b2]).created_at);
            }
            assert(sorted_by_ts(self.pending@)) by {
                assert(forall|a: int, b2: int|
                    0 <= a < b2 < self.pending@.len() ==> (#[trigger] self.pending@[a]).created_at
                        <= (#[trigger] self.pending@[b2]).created_at);
            }
            assert forall|i2: int, j2: int|
                0 <= i2 < batch@.len() && 0 <= j2 < self.pending@.len() implies (
            #[trigger] batch@[i2]).created_at <= (#[trigger] self.pending@[j2]).created_at by {
                assert(batch@[i2] == s0[i2]);
                assert(self.pending@[j2] == s0[k + j2]);
            }
            assert forall|i2: int| 0 <= i2 < batch@.len() implies (#[trigger] batch@[i2]).wf() by {
                assert(p0.contains(batch@[i2]));
            }
            assert forall|i2: int| 0 <= i2 < self.pending@.len() implies (
            #[trigger] self.pending@[i2]).wf() by {
                assert(p0.contains(self.pending@[i2]));
            }
        }
        batch
    }

    /// Drain everything, sorted by timestamp.
    pub fn flush_all(&mut self) -> (b: Vec<Event>)
        requires
            old(self).wf(),
        ensures
            final(self).wf(),
            sorted_by_ts(b@),
            b@.to_multiset() == old(self).pending_view().to_multiset(),
            b@.len() == old(self).pending_view().len(),
            final(self).pending_view() == Seq::<Event>::empty(),
            forall|i: int| 0 <= i < b@.len() ==> (#[trigger] b@[i]).wf(),
            final(self).store_map() == old(self).store_map(),
            final(self).engine() == old(self).engine(),
    {
        let mut p: Vec<Event> = Vec::new();
        std::mem::swap(&mut p, &mut self.pending);
        let ghost p0 = p@;
        let sorted = sort_by_created_at(p);
        proof {
            assert forall|i2: int| 0 <= i2 < sorted@.len() implies (#[trigger] sorted@[i2]).wf() by {
                assert(p0.contains(sorted@[i2]));
            }
            assert(self.pending@ =~= Seq::<Event>::empty());
        }
        sorted
    }

    /// Handle one arriving event: drop it if its kind is filtered or
    /// the engine has seen it; otherwise buffer it, and hand back a
    /// full batch once the buffer reaches the batch size.
    pub fn ingest(&mut self, event: Event) -> (r: Option<Vec<Event>>)
        requires
            old(self).wf(),
            event.wf(),
        ensures
            final(self).wf(),
            final(self).bsize() == old(self).bsize(),
            final(self).allowed() == old(self).allowed(),
            !kind_allowed(old(self).allowed(), event.kind) ==> r is None && *final(self)
                == *old(self),
            kind_allowed(old(self).allowed(), event.kind) && (old(self).engine().in_hot(
                event.spec_id_hex(),
            ) || old(self).engine().in_lru(event.spec_id_hex())) ==> r is None
                && final(self).pending_view() == old(self).pending_view()
                && final(self).store_map() == old(self).store_map(),
            kind_allowed(old(self).allowed(), event.kind) && !old(self).engine().observed(
                event.spec_id_hex(),
            ) ==> (match r {
                Option::None => final(self).pending_view() == old(self).pending_view().push(event)
                    && final(self).pending_view().len() < old(self).bsize(),
                Option::Some(b) => sorted_by_ts(b@) && b@.len() == old(self).bsize()
                    && b@.to_multiset().add(final(self).pending_view().to_multiset()) == old(
                    self,
                ).pending_view().push(event).to_multiset(),
            }),
            r matches Some(b) ==> sorted_by_ts(b@) && (forall|i: int|
                0 <= i < b@.len() ==> (#[trigger] b@[i]).wf()) && (forall|i: int, j: int|
                0 <= i < b@.len() && 0 <= j < final(self).pending_view().len() ==> (
                #[trigger] b@[i]).created_at <= (
                #[trigger] final(self).pending_view()[j]).created_at),
            // The engine learns nothing but this event's fingerprint.
            forall|id2: Seq<char>|
                id2 != event.spec_id_hex() && #[trigger] final(self).engine().observed(id2) ==> old(
                    self,
                ).engine().observed(id2),
    {
        if !kind_allowed_exec(&self.allowed_kinds, event.kind) {
            return None;
        }
        if self.dedupe.is_duplicate(&event) {
            return None;
        }
        self.pending.push(event);
        if self.pending.len() >= self.batch_size {
            let b = self.flush_batch();
            Some(b)
        } else {
            None
        }
    }
}

} // verus!
