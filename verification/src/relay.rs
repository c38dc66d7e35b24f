use vstd::prelude::*;

verus! {

use crate::event::clone_string;

/// Connection status of one upstream relay.
pub enum RelayStatus {
    Connected,
    Disconnected,
    Connecting,
    Error(String),
}

/// What the pool decides to do with a connection request.
pub enum ConnectDecision {
    AtCapacity,
    AlreadyConnected,
    Connect,
}

/// Bookkeeping of the upstream relay pool: which relays are held and
/// how many connections are allowed. The wire protocol itself stays
/// outside the library.
pub struct RelayDirectory {
    pub relays: Vec<String>,
    pub max_connections: usize,
}

impl RelayDirectory {
    pub open spec fn has_relay(self, url: Seq<char>) -> bool {
        exists|i: int| 0 <= i < self.relays@.len() && (#[trigger] self.relays@[i])@ == url
    }

    pub open spec fn wf(self) -> bool {
        forall|i: int, j: int|
            0 <= i < j < self.relays@.len() ==> (#[trigger] self.relays@[i])@ != (
            #[trigger] self.relays@[j])@
    }

    pub fn new(max_connections: usize) -> (r: RelayDirectory)
        ensures
            r.wf(),
            r.relays@ == Seq::<String>::empty(),
            r.max_connections == max_connections,
    {
        RelayDirectory { relays: Vec::new(), max_connections }
    }

    fn find(&self, url: &str) -> (r: Option<usize>)
        ensures
            r matches Some(i) ==> i < self.relays@.len() && self.relays@[i as int]@ == url@,
            r is None ==> !self.has_relay(url@),
    {
        let mut i: usize = 0;
        while i < self.relays.len()
            invariant
                i <= self.relays@.len(),
                forall|t: int| 0 <= t < i ==> (#[trigger] self.relays@[t])@ != url@,
            decreases self.relays@.len() - i,
        {
            if crate::subscription::str_eq(self.relays[i].as_str(), url) {
                return Some(i);
            }
            i = i + 1;
        }
        None
    }

    /// The decision the pool takes for a new relay: skip at capacity,
    /// skip one already held, otherwise connect and remember it.
    pub fn decide_connect(&mut self, url: &str) -> (r: ConnectDecision)
        requires
            old(self).wf(),
        ensures
            final(self).wf(),
            final(self).max_connections == old(self).max_connections,
            r is AtCapacity ==> old(self).relays@.len() >= old(self).max_connections && *final(self)
                == *old(self),
            r is AlreadyConnected ==> old(self).has_relay(url@) && *final(self) == *old(self),
            r is Connect ==> !old(self).has_relay(url@)
                && old(self).relays@.len() < old(self).max_connections
                && final(self).has_relay(url@)
                && final(self).relays@.len() == old(self).relays@.len() + 1,
    {
        if self.relays.len() >= self.max_connections {
            return ConnectDecision::AtCapacity;
        }
        match self.find(url) {
            Some(_) => ConnectDecision::AlreadyConnected,
            None => {
                let ghost r0 = self.relays@;
                self.relays.push(crate::subscription::str_to_string(url));
                proof {
                    assert(self.relays@[self.relays@.len() - 1]@ == url@);
                    assert(forall|t: int|
                        0 <= t < self.relays@.len() - 1 ==> self.relays@[t] == r0[t]);
                    assert forall|a: int, b: int| 0 <= a < b < self.relays@.len() implies (
                    #[trigger] self.relays@[a])@ != (#[trigger] self.relays@[b])@ by {
                        if b == self.relays@.len() - 1 {
                            if r0[a]@ == url@ {
                                assert(old(self).has_relay(url@));
                            }
                        } else {
                            assert(r0[a]@ != r0[b]@);
                        }
                    }
                }
                ConnectDecision::Connect
            },
        }
    }

    /// Forget a relay; says whether it was held.
    pub fn disconnect(&mut self, url: &str) -> (r: bool)
        requires
            old(self).wf(),
        ensures
            final(self).wf(),
            final(self).max_connections == old(self).max_connections,
            r == old(self).has_relay(url@),
            !r ==> *final(self) == *old(self),
            r ==> final(self).relays@.len() == old(self).relays@.len() - 1
                && !final(self).has_relay(url@),
    {
        match self.find(url) {
            None => false,
            Some(i) => {
                let ghost r0 = self.relays@;
                self.relays.remove(i);
                proof {
                    assert(self.relays@ =~= r0.remove(i as int));
                    assert(forall|t: int| 0 <= t < i ==> self.relays@[t] == r0[t]);
                    assert(forall|t: int|
                        i <= t < self.relays@.len() ==> self.relays@[t] == r0[t + 1]);
                    assert forall|a: int, b: int| 0 <= a < b < self.relays@.len() implies (
                    #[trigger] self.relays@[a])@ != (#[trigger] self.relays@[b])@ by {
                        let a2: int = if a < i {
                            a
                        } else {
                            a + 1
                        };
                        let b2: int = if b < i {
                            b
                        } else {
                            b + 1
                        };
                        assert(r0[a2]@ != r0[b2]@);
                    }
                    assert forall|t: int| 0 <= t < self.relays@.len() implies (
                    #[trigger] self.relays@[t])@ != url@ by {
                        let t2: int = if t < i {
                            t
                        } else {
                            t + 1
                        };
                        assert(self.relays@[t] == r0[t2]);
                        if t2 != i {
                            if t2 < i {
                                assert(r0[t2]@ != r0[i as int]@);
                            } else {
                                assert(r0[i as int]@ != r0[t2]@);
                            }
                        }
                    }
                }
                true
            },
        }
    }

    pub fn active_connections(&self) -> (r: usize)
        ensures
            r == self.relays@.len(),
    {
        self.relays.len()
    }

    /// The held relay urls.
    pub fn list_relays(&self) -> (r: Vec<String>)
        ensures
            r@.len() == self.relays@.len(),
            forall|i: int| 0 <= i < r@.len() ==> (#[trigger] r@[i])@ == self.relays@[i]@,
    {
        let mut out: Vec<String> = Vec::new();
        let mut i: usize = 0;
        while i < self.relays.len()
            invariant
                i <= self.relays@.len(),
                out@.len() == i,
                forall|t: int| 0 <= t < i ==> (#[trigger] out@[t])@ == self.relays@[t]@,
            decreases self.relays@.len() - i,
        {
            out.push(clone_string(&self.relays[i]));
            i = i + 1;
        }
        out
    }
}

/// The health loop reconnects exactly the relays seen disconnected.
pub fn should_reconnect(status: &RelayStatus) -> (r: bool)
    ensures
        r == (status is Disconnected),
{
    match status {
        RelayStatus::Disconnected => true,
        _ => false,
    }
}

} // verus!
