use vstd::prelude::*;

verus! {

use crate::hexutil::hex_of;
use crate::hexutil::is_lower_hex_seq;
use crate::hexutil::hex_encode;

/// An immutable signed record as produced by upstream relays, reduced to
/// the attributes the pipeline reads: a 32-byte identifier, the
/// publisher's key in hex, a 16-bit kind, a timestamp in seconds since
/// the epoch, and an opaque content string.
pub struct Event {
    pub id: Vec<u8>,
    pub pubkey: String,
    pub kind: u16,
    pub created_at: u64,
    pub content: String,
}

impl Event {
    /// Well-formedness: the identifier is exactly 32 bytes and the
    /// publisher key is 64 lower-case hex characters.
    pub open spec fn wf(self) -> bool {
        &&& self.id@.len() == 32
        &&& self.pubkey@.len() == 64
        &&& is_lower_hex_seq(self.pubkey@)
    }

    /// The deduplication fingerprint: the identifier in lower-case hex.
    pub open spec fn spec_id_hex(self) -> Seq<char> {
        hex_of(self.id@)
    }

    pub fn id_hex(&self) -> (r: String)
        ensures
            r@ == self.spec_id_hex(),
    {
        hex_encode(&self.id)
    }
}

/// Two events are the same when every modelled attribute agrees.
pub open spec fn same_event(a: Event, b: Event) -> bool {
    &&& a.id@ == b.id@
    &&& a.pubkey@ == b.pubkey@
    &&& a.kind == b.kind
    &&& a.created_at == b.created_at
    &&& a.content@ == b.content@
}

pub fn clone_string(s: &String) -> (r: String)
    ensures
        r@ == s@,
{
    s.clone()
}

pub fn clone_bytes(v: &Vec<u8>) -> (r: Vec<u8>)
    ensures
        r@ == v@,
{
    let mut r: Vec<u8> = Vec::new();
    let mut i: usize = 0;
    while i < v.len()
        invariant
            i <= v@.len(),
            r@ == v@.take(i as int),
        decreases v@.len() - i,
    {
        r.push(v[i]);
        proof {
            assert(r@ =~= v@.take(i + 1));
        }
        i = i + 1;
    }
    proof {
        assert(v@.take(v@.len() as int) =~= v@);
    }
    r
}

} // verus!
