use vstd::prelude::*;

verus! {

/// The four-byte big-endian length prefix of the TCP transport.
pub open spec fn be32(n: u32) -> Seq<u8> {
    seq![
        ((n / 0x1000000) % 256) as u8,
        ((n / 0x10000) % 256) as u8,
        ((n / 0x100) % 256) as u8,
        (n % 256) as u8,
    ]
}

/// Frame a serialized event for the TCP transport: its length as four
/// big-endian bytes, then the payload itself.
pub fn frame_message(payload: &Vec<u8>) -> (r: Option<Vec<u8>>)
    ensures
        payload@.len() <= u32::MAX ==> (r matches Some(f) && f@ == be32(
            payload@.len() as u32,
        ) + payload@),
        payload@.len() > u32::MAX ==> r is None,
{
    if payload.len() > u32::MAX as usize {
        return None;
    }
    let n = payload.len() as u32;
    let mut out: Vec<u8> = Vec::new();
    out.push(((n / 0x1000000) % 256) as u8);
    out.push(((n / 0x10000) % 256) as u8);
    out.push(((n / 0x100) % 256) as u8);
    out.push((n % 256) as u8);
    proof {
        assert(out@ =~= be32(n));
    }
    crate::store::push_bytes(&mut out, payload);
    Some(out)
}

/// An HTTP delivery counts as success exactly on a 2xx status.
pub fn status_ok(code: u16) -> (r: bool)
    ensures
        r == (200 <= code < 300),
{
    200 <= code && code < 300
}

/// The forwarder marks an event successfully forwarded only when every
/// attempted delivery succeeded; with no endpoints this holds
/// vacuously.
pub fn forward_outcome(results: &Vec<bool>) -> (r: bool)
    ensures
        r == (forall|i: int| 0 <= i < results@.len() ==> #[trigger] results@[i]),
{
    let mut i: usize = 0;
    while i < results.len()
        invariant
            i <= results@.len(),
            forall|t: int| 0 <= t < i ==> #[trigger] results@[t],
        decreases results@.len() - i,
    {
        if !results[i] {
            return false;
        }
        i = i + 1;
    }
    true
}

} // verus!
