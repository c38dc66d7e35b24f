use vstd::prelude::*;

verus! {

use vstd::string::StrSliceExecFns;
use vstd::string::StringSliceAdditionalSpecFns;
use vstd::utf8::decode_utf8;
use vstd::utf8::encode_utf8;
use vstd::utf8::valid_utf8;
use crate::codec::parse_event;
use crate::codec::render_event;
use crate::codec::sp_event;
use crate::codec::spec_render;
use crate::event::Event;
use crate::kvmap::ByteMap;
use crate::kvmap::lex_lt;
use crate::kvmap::lemma_lex_prefix;

/// Key family tags; ASCII prefixes group the keyspace lexically.
pub open spec fn evt_prefix() -> Seq<u8> {
    seq![101u8, 118u8, 116u8, 58u8]
}

pub open spec fn fwd_prefix() -> Seq<u8> {
    seq![102u8, 119u8, 100u8, 58u8]
}

pub open spec fn succ_prefix() -> Seq<u8> {
    seq![115u8, 117u8, 99u8, 99u8, 58u8]
}

/// Key under which an event's payload is archived.
pub open spec fn evt_key(id: Seq<u8>) -> Seq<u8> {
    evt_prefix() + id
}

/// Key of the forwarded flag.
pub open spec fn fwd_key(id: Seq<u8>) -> Seq<u8> {
    fwd_prefix() + id
}

pub open spec fn pow16(k: nat) -> nat
    decreases k,
{
    if k == 0 {
        1
    } else {
        16 * pow16((k - 1) as nat)
    }
}

/// ASCII byte of one lower-case hex digit.
pub open spec fn hex_byte(n: u8) -> u8 {
    if n < 10 {
        (48 + n) as u8
    } else {
        (87 + n) as u8
    }
}

/// `k` hex digits of `a`, most significant first.
pub open spec fn digs16(a: nat, k: nat) -> Seq<u8>
    decreases k,
{
    if k == 0 {
        Seq::empty()
    } else {
        digs16(a / 16, (k - 1) as nat).push(hex_byte((a % 16) as u8))
    }
}

/// The sixteen-digit zero-padded hex form of a millisecond timestamp;
/// lexical order on it agrees with numeric order.
pub open spec fn ts_hex16(ts: u64) -> Seq<u8> {
    digs16(ts as nat, 16)
}

/// Key in the time-ordered success index.
pub open spec fn succ_key(ts: u64, id: Seq<u8>) -> Seq<u8> {
    succ_prefix() + ts_hex16(ts) + seq![58u8] + id
}

pub proof fn lemma_pow16_pos(k: nat)
    ensures
        pow16(k) >= 1,
    decreases k,
{
    if k > 0 {
        lemma_pow16_pos((k - 1) as nat);
    }
}

pub proof fn lemma_digs16_len(a: nat, k: nat)
    ensures
        digs16(a, k).len() == k,
    decreases k,
{
    if k > 0 {
        lemma_digs16_len(a / 16, (k - 1) as nat);
    }
}

/// Numeric order becomes lexical order on fixed-width hex digits.
pub proof fn lemma_digs16_lt(a: nat, b: nat, k: nat)
    requires
        a < b,
        b < pow16(k),
    ensures
        lex_lt(digs16(a, k), digs16(b, k)),
    decreases k,
{
    if k == 0 {
        assert(b < 1);
        assert(false);
    } else {
        let p = pow16((k - 1) as nat);
        lemma_pow16_pos((k - 1) as nat);
        let da = a / 16;
        let db = b / 16;
        vstd::arithmetic::div_mod::lemma_div_is_ordered(a as int, b as int, 16);
        assert(da <= db);
        assert((b as int) < 16 * (p as int)) by {
            assert(pow16(k) == 16 * p);
        }
        vstd::arithmetic::div_mod::lemma_multiply_divide_lt(b as int, 16, p as int);
        assert(db < p);
        let sa = digs16(a, k);
        let sb = digs16(b, k);
        lemma_digs16_len(da, (k - 1) as nat);
        lemma_digs16_len(db, (k - 1) as nat);
        if da == db {
            vstd::arithmetic::div_mod::lemma_fundamental_div_mod(a as int, 16);
            vstd::arithmetic::div_mod::lemma_fundamental_div_mod(b as int, 16);
            assert(a % 16 < b % 16);
            assert(hex_byte((a % 16) as u8) < hex_byte((b % 16) as u8));
            crate::kvmap::lemma_lex_prefix(
                digs16(da, (k - 1) as nat),
                seq![hex_byte((a % 16) as u8)],
                seq![hex_byte((b % 16) as u8)],
            );
            assert(lex_lt(seq![hex_byte((a % 16) as u8)], seq![hex_byte((b % 16) as u8)])) by {
                assert(seq![hex_byte((a % 16) as u8)][0] == hex_byte((a % 16) as u8));
            }
            assert(sa =~= digs16(da, (k - 1) as nat) + seq![hex_byte((a % 16) as u8)]);
            assert(sb =~= digs16(db, (k - 1) as nat) + seq![hex_byte((b % 16) as u8)]);
        } else {
            lemma_digs16_lt(da, db, (k - 1) as nat);
            lemma_lex_append_ne(
                digs16(da, (k - 1) as nat),
                digs16(db, (k - 1) as nat),
                seq![hex_byte((a % 16) as u8)],
                seq![hex_byte((b % 16) as u8)],
            );
            assert(sa =~= digs16(da, (k - 1) as nat) + seq![hex_byte((a % 16) as u8)]);
            assert(sb =~= digs16(db, (k - 1) as nat) + seq![hex_byte((b % 16) as u8)]);
        }
    }
}

/// Sequences of equal length that already compare strictly keep their
/// order under any suffixes.
pub proof fn lemma_lex_append_ne(a: Seq<u8>, b: Seq<u8>, x: Seq<u8>, y: Seq<u8>)
    requires
        lex_lt(a, b),
        a.len() == b.len(),
    ensures
        lex_lt(a + x, b + y),
    decreases a.len(),
{
    if a.len() == 0 {
        assert(false);
    } else {
        assert((a + x)[0] == a[0] && (b + y)[0] == b[0]);
        if a[0] == b[0] {
            assert((a + x).drop_first() =~= a.drop_first() + x);
            assert((b + y).drop_first() =~= b.drop_first() + y);
            lemma_lex_append_ne(a.drop_first(), b.drop_first(), x, y);
        }
    }
}

/// The success index keeps time order: an earlier mark sits below a
/// later one whatever the two event ids are.
pub proof fn lemma_succ_key_order(t1: u64, id1: Seq<u8>, t2: u64, id2: Seq<u8>)
    requires
        t1 < t2,
    ensures
        lex_lt(succ_key(t1, id1), succ_key(t2, id2)),
{
    assert((t2 as nat) < pow16(16)) by {
        lemma_pow16_vals();
    }
    lemma_digs16_lt(t1 as nat, t2 as nat, 16);
    lemma_digs16_len(t1 as nat, 16);
    lemma_digs16_len(t2 as nat, 16);
    lemma_lex_append_ne(ts_hex16(t1), ts_hex16(t2), seq![58u8] + id1, seq![58u8] + id2);
    assert(ts_hex16(t1) + (seq![58u8] + id1) =~= ts_hex16(t1) + seq![58u8] + id1);
    assert(ts_hex16(t2) + (seq![58u8] + id2) =~= ts_hex16(t2) + seq![58u8] + id2);
    lemma_lex_prefix(
        succ_prefix(),
        ts_hex16(t1) + seq![58u8] + id1,
        ts_hex16(t2) + seq![58u8] + id2,
    );
    assert(succ_key(t1, id1) =~= succ_prefix() + (ts_hex16(t1) + seq![58u8] + id1));
    assert(succ_key(t2, id2) =~= succ_prefix() + (ts_hex16(t2) + seq![58u8] + id2));
}

pub proof fn lemma_pow16_vals()
    ensures
        pow16(16) == 0x10000000000000000,
        pow16(15) == 0x1000000000000000,
{
    assert(pow16(0) == 1);
    assert(pow16(1) == 0x10);
    assert(pow16(2) == 0x100);
    assert(pow16(3) == 0x1000);
    assert(pow16(4) == 0x10000);
    assert(pow16(5) == 0x100000);
    assert(pow16(6) == 0x1000000);
    assert(pow16(7) == 0x10000000);
    assert(pow16(8) == 0x100000000);
    assert(pow16(9) == 0x1000000000);
    assert(pow16(10) == 0x10000000000);
    assert(pow16(11) == 0x100000000000);
    assert(pow16(12) == 0x1000000000000);
    assert(pow16(13) == 0x10000000000000);
    assert(pow16(14) == 0x100000000000000);
    assert(pow16(15) == 0x1000000000000000);
    assert(pow16(16) == 0x10000000000000000);
}

fn hex_byte_exec(n: u8) -> (r: u8)
    requires
        n < 16,
    ensures
        r == hex_byte(n),
{
    if n < 10 {
        48 + n
    } else {
        87 + n
    }
}

pub fn push_bytes(dst: &mut Vec<u8>, src: &Vec<u8>)
    ensures
        final(dst)@ == old(dst)@ + src@,
{
    let mut i: usize = 0;
    while i < src.len()
        invariant
            i <= src@.len(),
            dst@ == old(dst)@ + src@.take(i as int),
        decreases src@.len() - i,
    {
        dst.push(src[i]);
        proof {
            assert(dst@ =~= old(dst)@ + src@.take(i + 1));
        }
        i = i + 1;
    }
    proof {
        assert(src@.take(src@.len() as int) =~= src@);
    }
}

/// The sixteen hex digits of a timestamp, executable form.
fn push_ts_digits(out: &mut Vec<u8>, a: u64, k: usize)
    ensures
        final(out)@ == old(out)@ + digs16(a as nat, k as nat),
    decreases k,
{
    if k > 0 {
        push_ts_digits(out, a / 16, k - 1);
        out.push(hex_byte_exec((a % 16) as u8));
        proof {
            assert(old(out)@ + digs16(a as nat, k as nat) =~= (old(out)@ + digs16(
                (a / 16) as nat,
                (k - 1) as nat,
            )).push(hex_byte((a % 16) as u8)));
        }
    } else {
        proof {
            assert(old(out)@ + digs16(a as nat, 0) =~= old(out)@);
        }
    }
}

fn ts_hex16_exec(ts: u64) -> (r: Vec<u8>)
    ensures
        r@ == ts_hex16(ts),
{
    let mut out: Vec<u8> = Vec::new();
    push_ts_digits(&mut out, ts, 16);
    proof {
        assert(Seq::<u8>::empty() + ts_hex16(ts) =~= ts_hex16(ts));
    }
    out
}

/// Relies on chrono::Utc::now / timestamp_millis for the wall-clock
/// time in milliseconds; nothing is assumed of the value returned.
#[verifier::external_body]
fn now_millis_signed() -> (r: i64) {
    chrono::Utc::now().timestamp_millis()
}

/// The wall-clock time in milliseconds, clamped below at the epoch.
fn now_millis() -> (r: u64) {
    let ms = now_millis_signed();
    if ms < 0 {
        0
    } else {
        ms as u64
    }
}

/// What a stored payload parses to.
pub open spec fn parse_stored(bytes: Seq<u8>) -> Option<crate::codec::EventFields> {
    if valid_utf8(bytes) {
        sp_event(decode_utf8(bytes))
    } else {
        None
    }
}

/// The durable keyspace: event payloads under `evt:`, forward flags
/// under `fwd:`, and a time-ordered index of successful deliveries
/// under `succ:`.
pub struct EventStore {
    map: ByteMap,
}

impl View for EventStore {
    type V = Map<Seq<u8>, Seq<u8>>;

    closed spec fn view(&self) -> Map<Seq<u8>, Seq<u8>> {
        self.map@
    }
}

impl EventStore {
    pub closed spec fn wf(self) -> bool {
        self.map.wf()
    }

    pub fn new() -> (r: EventStore)
        ensures
            r.wf(),
            r@ == Map::<Seq<u8>, Seq<u8>>::empty(),
    {
        EventStore { map: ByteMap::new() }
    }

    fn key_event(event_id: &str) -> (r: Vec<u8>)
        ensures
            r@ == evt_key(event_id.spec_bytes()),
    {
        let mut key: Vec<u8> = Vec::new();
        key.push(101u8);
        key.push(118u8);
        key.push(116u8);
        key.push(58u8);
        proof {
            assert(key@ =~= evt_prefix());
        }
        let idb = event_id.as_bytes_vec();
        push_bytes(&mut key, &idb);
        key
    }

    fn key_forward_status(event_id: &str) -> (r: Vec<u8>)
        ensures
            r@ == fwd_key(event_id.spec_bytes()),
    {
        let mut key: Vec<u8> = Vec::new();
        key.push(102u8);
        key.push(119u8);
        key.push(100u8);
        key.push(58u8);
        proof {
            assert(key@ =~= fwd_prefix());
        }
        let idb = event_id.as_bytes_vec();
        push_bytes(&mut key, &idb);
        key
    }

    fn key_success_index(epoch_ms: u64, event_id: &str) -> (r: Vec<u8>)
        ensures
            r@ == succ_key(epoch_ms, event_id.spec_bytes()),
    {
        let mut key: Vec<u8> = Vec::new();
        key.push(115u8);
        key.push(117u8);
        key.push(99u8);
        key.push(99u8);
        key.push(58u8);
        proof {
            assert(key@ =~= succ_prefix());
        }
        let ts = ts_hex16_exec(epoch_ms);
        push_bytes(&mut key, &ts);
        key.push(58u8);
        let idb = event_id.as_bytes_vec();
        push_bytes(&mut key, &idb);
        proof {
            assert(key@ =~= succ_key(epoch_ms, event_id.spec_bytes()));
        }
        key
    }

    /// Does the archive hold this event id?
    pub fn contains_event(&self, event_id: &str) -> (r: bool)
        requires
            self.wf(),
        ensures
            r == self@.dom().contains(evt_key(event_id.spec_bytes())),
    {
        let key = Self::key_event(event_id);
        self.map.contains_key(&key)
    }

    /// Archive an event's canonical rendering under its `evt:` key.
    pub fn store_event(&mut self, event: &Event)
        requires
            old(self).wf(),
        ensures
            final(self).wf(),
            final(self)@ == old(self)@.insert(
                evt_key(encode_utf8(event.spec_id_hex())),
                encode_utf8(spec_render(*event)),
            ),
    {
        let id_hex = event.id_hex();
        let key = Self::key_event(id_hex.as_str());
        let json = render_event(event);
        let bytes = json.as_str().as_bytes_vec();
        self.map.insert(key, bytes);
    }

    /// Read an event back from the archive; `None` when the id is
    /// unknown or the stored bytes do not parse.
    pub fn get_event(&self, event_id: &str) -> (r: Option<Event>)
        requires
            self.wf(),
        ensures
            ({
                let key = evt_key(event_id.spec_bytes());
                &&& r is Some ==> self@.dom().contains(key) && (parse_stored(self@[key]) matches Some(
                    f,
                ) && {
                    let ev = r.unwrap();
                    f.id == ev.id@ && f.pubkey == ev.pubkey@ && f.kind == ev.kind as nat
                        && f.created_at == ev.created_at as nat && f.content == ev.content@
                })
                &&& r is None ==> !self@.dom().contains(key) || parse_stored(self@[key]) is None
            }),
    {
        let key = Self::key_event(event_id);
        match self.map.get(&key) {
            None => None,
            Some(bytes) => {
                match crate::text::string_from_utf8(bytes) {
                    None => None,
                    Some(s) => parse_event(s.as_str()),
                }
            },
        }
    }

    /// Remove an event from the archive only.
    pub fn delete_event(&mut self, event_id: &str)
        requires
            old(self).wf(),
        ensures
            final(self).wf(),
            final(self)@ == old(self)@.remove(evt_key(event_id.spec_bytes())),
    {
        let key = Self::key_event(event_id);
        self.map.remove(&key);
    }

    /// Number of keys held, over every family.
    pub fn approximate_count(&self) -> (r: u64)
        requires
            self.wf(),
        ensures
            r == self@.dom().len(),
    {
        proof {
            self.map.lemma_finite();
        }
        self.map.len() as u64
    }

    /// Record a successful forward at the given wall-clock time: the
    /// flag and the index entry appear together.
    pub fn mark_forward_success_at(&mut self, event_id: &str, epoch_ms: u64)
        requires
            old(self).wf(),
        ensures
            final(self).wf(),
            final(self)@ == old(self)@.insert(fwd_key(event_id.spec_bytes()), seq![49u8]).insert(
                succ_key(epoch_ms, event_id.spec_bytes()),
                Seq::empty(),
            ),
    {
        let fkey = Self::key_forward_status(event_id);
        let skey = Self::key_success_index(epoch_ms, event_id);
        let mut one: Vec<u8> = Vec::new();
        one.push(49u8);
        proof {
            assert(one@ =~= seq![49u8]);
        }
        let empty: Vec<u8> = Vec::new();
        proof {
            assert(empty@ =~= Seq::<u8>::empty());
        }
        self.map.insert(fkey, one);
        self.map.insert(skey, empty);
    }

    /// Record a successful forward at the present wall-clock time.
    pub fn mark_forward_success(&mut self, event_id: &str)
        requires
            old(self).wf(),
        ensures
            final(self).wf(),
            exists|t: u64|
                final(self)@ == old(self)@.insert(fwd_key(event_id.spec_bytes()), seq![49u8]).insert(
                    succ_key(t, event_id.spec_bytes()),
                    Seq::empty(),
                ),
    {
        let now = now_millis();
        self.mark_forward_success_at(event_id, now);
    }

    /// Has this event been forwarded successfully?
    pub fn is_forward_success(&self, event_id: &str) -> (r: bool)
        requires
            self.wf(),
        ensures
            r == self@.dom().contains(fwd_key(event_id.spec_bytes())),
    {
        let key = Self::key_forward_status(event_id);
        self.map.contains_key(&key)
    }

    /// The ids of the most recently marked deliveries, newest first:
    /// the keyspace read backwards, keeping only well-formed entries of
    /// the success index, up to `limit` of them.
    pub fn load_recent_success_ids(&self, limit: usize) -> (r: Vec<String>)
        requires
            self.wf(),
        ensures
            exists|ks: Seq<Seq<u8>>|
                #[trigger] is_desc_key_enum(self@.dom(), ks) && ({
                    let ids = collect_succ_ids(ks, limit as nat);
                    &&& r@.len() == ids.len()
                    &&& forall|i: int|
                        0 <= i < ids.len() ==> valid_utf8(#[trigger] ids[i]) && r@[i as int]@
                            == decode_utf8(ids[i])
                }),
    {
        let keys = self.map.keys_desc();
        let ghost ks0 = keys@.map_values(|v: Vec<u8>| v@);
        proof {
            assert(is_desc_key_enum(self@.dom(), ks0)) by {
                assert(forall|i: int|
                    0 <= i < ks0.len() ==> self@.dom().contains(#[trigger] ks0[i]));
                assert(forall|i: int, j: int| 0 <= i < j < ks0.len() ==> lex_lt(ks0[j], ks0[i]));
                assert forall|k: Seq<u8>| self@.dom().contains(k) implies exists|i: int|
                    0 <= i < ks0.len() && #[trigger] ks0[i] == k by {
                    let i = choose|i: int| 0 <= i < keys@.len() && (#[trigger] keys@[i])@ == k;
                    assert(ks0[i] == k);
                }
            }
        }
        let mut result: Vec<String> = Vec::new();
        let ghost acc_ids: Seq<Seq<u8>> = Seq::empty();
        let mut acc = Ghost(acc_ids);
        let mut i: usize = 0;
        proof {
            assert(ks0.skip(0) =~= ks0);
            assert(Seq::<Seq<u8>>::empty() + collect_succ_ids(ks0, limit as nat)
                =~= collect_succ_ids(ks0, limit as nat));
        }
        while i < keys.len() && result.len() < limit
            invariant
                i <= keys@.len(),
                ks0.len() == keys@.len(),
                forall|t: int| 0 <= t < ks0.len() ==> #[trigger] ks0[t] == keys@[t]@,
                result@.len() == acc@.len(),
                result@.len() <= limit,
                forall|t: int|
                    0 <= t < acc@.len() ==> valid_utf8(#[trigger] acc@[t]) && result@[t]@
                        == decode_utf8(acc@[t]),
                collect_succ_ids(ks0, limit as nat) == acc@ + collect_succ_ids(
                    ks0.skip(i as int),
                    (limit - result@.len()) as nat,
                ),
            decreases keys@.len() - i,
        {
            let k = &keys[i];
            let ghost rest = ks0.skip(i as int);
            let ghost rem = (limit - result@.len()) as nat;
            proof {
                assert(rest[0] == k@);
                assert(rest.drop_first() =~= ks0.skip(i + 1));
            }
            let mut is_succ = k.len() >= 5;
            if is_succ {
                if !(k[0] == 115 && k[1] == 117 && k[2] == 99 && k[3] == 99 && k[4] == 58) {
                    is_succ = false;
                }
            }
            proof {
                if is_succ {
                    assert(k@.take(5) =~= succ_prefix());
                } else {
                    if k@.len() >= 5 && k@.take(5) == succ_prefix() {
                        assert(k@[0] == 115 && k@[1] == 117 && k@[2] == 99 && k@[3] == 99 && k@[4]
                            == 58) by {
                            assert(k@.take(5)[0] == k@[0]);
                            assert(k@.take(5)[1] == k@[1]);
                            assert(k@.take(5)[2] == k@[2]);
                            assert(k@.take(5)[3] == k@[3]);
                            assert(k@.take(5)[4] == k@[4]);
                        }
                    }
                    assert(succ_id_of(k@) is None);
                }
            }
            if is_succ {
                let mut j: usize = 5;
                loop
                    invariant
                        5 <= j <= k@.len(),
                        forall|t: int| 5 <= t < j ==> k@[t] != 58,
                    ensures
                        5 <= j <= k@.len(),
                        forall|t: int| 5 <= t < j ==> k@[t] != 58,
                        j < k@.len() ==> k@[j as int] == 58,
                    decreases k@.len() - j,
                {
                    if j >= k.len() {
                        break;
                    }
                    if k[j] == 58 {
                        break;
                    }
                    j = j + 1;
                }
                if j < k.len() {
                    proof {
                        lemma_first_colon_found(k@.skip(5), j - 5);
                        assert forall|t: int| 0 <= t < j - 5 implies k@.skip(5)[t] != 58 by {
                            assert(k@.skip(5)[t] == k@[t + 5]);
                        }
                        assert(k@.skip(5)[j - 5] == k@[j as int]);
                        assert(first_colon(k@.skip(5)) == Some((j - 5) as int));
                        assert(succ_id_of(k@) == Some(k@.skip(j + 1)));
                    }
                    let idb = bytes_suffix(k, j + 1);
                    match crate::text::string_from_utf8(idb) {
                        Some(s) => {
                            let ghost idseq = k@.skip(j + 1);
                            result.push(s);
                            proof {
                                acc@ = acc@.push(idseq);
                            }
                            proof {
                                assert(collect_succ_ids(rest, rem) == seq![idseq]
                                    + collect_succ_ids(rest.drop_first(), (rem - 1) as nat));
                                assert(acc@ + collect_succ_ids(ks0.skip(i + 1), (rem - 1) as nat)
                                    =~= acc@.drop_last() + (seq![idseq] + collect_succ_ids(
                                    rest.drop_first(),
                                    (rem - 1) as nat,
                                )));
                            }
                        },
                        None => {
                            proof {
                                assert(!valid_utf8(k@.skip(j + 1)));
                                assert(collect_succ_ids(rest, rem) == collect_succ_ids(
                                    rest.drop_first(),
                                    rem,
                                ));
                            }
                        },
                    }
                } else {
                    proof {
                        lemma_first_colon_missing(k@.skip(5));
                        assert forall|t: int| 0 <= t < k@.skip(5).len() implies k@.skip(5)[t]
                            != 58 by {
                            assert(k@.skip(5)[t] == k@[t + 5]);
                        }
                        assert(succ_id_of(k@) is None);
                        assert(collect_succ_ids(rest, rem) == collect_succ_ids(
                            rest.drop_first(),
                            rem,
                        ));
                    }
                }
            } else {
                proof {
                    assert(collect_succ_ids(rest, rem) == collect_succ_ids(
                        rest.drop_first(),
                        rem,
                    ));
                }
            }
            i = i + 1;
        }
        proof {
            let rem = (limit - result@.len()) as nat;
            if i == keys@.len() {
                assert(ks0.skip(i as int).len() == 0);
                assert(collect_succ_ids(ks0.skip(i as int), rem) =~= Seq::<Seq<u8>>::empty());
            } else {
                assert(result@.len() == limit);
                assert(collect_succ_ids(ks0.skip(i as int), 0) =~= Seq::<Seq<u8>>::empty());
            }
            assert(acc@ + Seq::<Seq<u8>>::empty() =~= acc@);
            assert(collect_succ_ids(ks0, limit as nat) == acc@);
        }
        result
    }
}

/// Does `k` start with `p`?
pub open spec fn starts_with(k: Seq<u8>, p: Seq<u8>) -> bool {
    k.len() >= p.len() && k.take(p.len() as int) == p
}

/// Index of the first colon, if any.
pub open spec fn first_colon(s: Seq<u8>) -> Option<int>
    decreases s.len(),
{
    if s.len() == 0 {
        None
    } else if s[0] == 58 {
        Some(0)
    } else {
        match first_colon(s.drop_first()) {
            Some(j) => Some(j + 1),
            None => None,
        }
    }
}

pub proof fn lemma_first_colon_found(s: Seq<u8>, j: int)
    requires
        0 <= j < s.len(),
        s[j] == 58,
        forall|t: int| 0 <= t < j ==> s[t] != 58,
    ensures
        first_colon(s) == Some(j),
    decreases j,
{
    if j == 0 {
    } else {
        assert(s[0] != 58);
        assert(s.drop_first()[j - 1] == s[j]);
        assert forall|t: int| 0 <= t < j - 1 implies s.drop_first()[t] != 58 by {
            assert(s.drop_first()[t] == s[t + 1]);
        }
        lemma_first_colon_found(s.drop_first(), j - 1);
    }
}

pub proof fn lemma_first_colon_missing(s: Seq<u8>)
    requires
        forall|t: int| 0 <= t < s.len() ==> s[t] != 58,
    ensures
        first_colon(s) is None,
    decreases s.len(),
{
    if s.len() > 0 {
        assert forall|t: int| 0 <= t < s.drop_first().len() implies s.drop_first()[t] != 58 by {
            assert(s.drop_first()[t] == s[t + 1]);
        }
        lemma_first_colon_missing(s.drop_first());
    }
}

/// The event id inside a well-formed success-index key: the bytes
/// after the colon that ends the timestamp.
pub open spec fn succ_id_of(k: Seq<u8>) -> Option<Seq<u8>> {
    if !starts_with(k, succ_prefix()) {
        None
    } else {
        match first_colon(k.skip(5)) {
            Some(j) => Some(k.skip(5 + j + 1)),
            None => None,
        }
    }
}

/// Walking keys newest-first, keep the decodable ids of success-index
/// entries until `limit` of them are found.
pub open spec fn collect_succ_ids(keys: Seq<Seq<u8>>, limit: nat) -> Seq<Seq<u8>>
    decreases keys.len(),
{
    if keys.len() == 0 || limit == 0 {
        Seq::empty()
    } else {
        match succ_id_of(keys[0]) {
            Some(id) => if valid_utf8(id) {
                seq![id] + collect_succ_ids(keys.drop_first(), (limit - 1) as nat)
            } else {
                collect_succ_ids(keys.drop_first(), limit)
            },
            None => collect_succ_ids(keys.drop_first(), limit),
        }
    }
}

/// A complete walk of a keyspace from its end: every key once, in
/// strictly descending lexicographic order.
pub open spec fn is_desc_key_enum(dom: Set<Seq<u8>>, ks: Seq<Seq<u8>>) -> bool {
    &&& forall|i: int| 0 <= i < ks.len() ==> dom.contains(#[trigger] ks[i])
    &&& forall|i: int, j: int| 0 <= i < j < ks.len() ==> lex_lt(#[trigger] ks[j], #[trigger] ks[i])
    &&& forall|k: Seq<u8>| dom.contains(k) ==> exists|i: int| 0 <= i < ks.len() && #[trigger] ks[i] == k
}

/// Every digit byte is a hex digit, never the colon separator.
pub proof fn lemma_digs16_no_colon(a: nat, k: nat)
    ensures
        forall|i: int| 0 <= i < digs16(a, k).len() ==> (#[trigger] digs16(a, k)[i]) != 58,
    decreases k,
{
    if k > 0 {
        lemma_digs16_no_colon(a / 16, (k - 1) as nat);
        lemma_digs16_len(a / 16, (k - 1) as nat);
        assert forall|i: int| 0 <= i < digs16(a, k).len() implies (#[trigger] digs16(a, k)[i])
            != 58 by {
            if i < k - 1 {
                assert(digs16(a, k)[i] == digs16(a / 16, (k - 1) as nat)[i]);
            } else {
                assert(digs16(a, k)[i] == hex_byte((a % 16) as u8));
            }
        }
    }
}

/// Event keys are one-to-one in the id they carry.
pub proof fn lemma_evt_key_injective(a: Seq<u8>, b: Seq<u8>)
    requires
        evt_key(a) == evt_key(b),
    ensures
        a == b,
{
    assert(evt_key(a).skip(4) =~= a);
    assert(evt_key(b).skip(4) =~= b);
}

/// Reading the id back out of a success-index key recovers exactly the
/// id the key was built from.
pub proof fn lemma_succ_id_of_key(ts: u64, id: Seq<u8>)
    ensures
        succ_id_of(succ_key(ts, id)) == Some(id),
{
    let k = succ_key(ts, id);
    lemma_digs16_len(ts as nat, 16);
    lemma_digs16_no_colon(ts as nat, 16);
    assert(k.len() == 5 + 16 + 1 + id.len());
    assert(starts_with(k, succ_prefix())) by {
        assert(k.take(5) =~= succ_prefix());
    }
    let body = k.skip(5);
    assert(body =~= ts_hex16(ts) + seq![58u8] + id);
    assert forall|t: int| 0 <= t < 16 implies body[t] != 58 by {
        assert(body[t] == ts_hex16(ts)[t]);
    }
    assert(body[16] == 58);
    lemma_first_colon_found(body, 16);
    assert(k.skip(22int) =~= id);
}

/// A keyspace has exactly one complete descending walk.
pub proof fn lemma_desc_enum_unique(dom: Set<Seq<u8>>, ks1: Seq<Seq<u8>>, ks2: Seq<Seq<u8>>)
    requires
        is_desc_key_enum(dom, ks1),
        is_desc_key_enum(dom, ks2),
    ensures
        ks1 == ks2,
    decreases ks1.len(),
{
    if ks1.len() == 0 {
        if ks2.len() > 0 {
            assert(dom.contains(ks2[0]));
            let i = choose|i: int| 0 <= i < ks1.len() && ks1[i] == ks2[0];
            assert(false);
        }
        assert(ks1 =~= ks2);
    } else {
        assert(dom.contains(ks1[0]));
        assert(ks2.len() > 0) by {
            let j = choose|j: int| 0 <= j < ks2.len() && ks2[j] == ks1[0];
        }
        assert(ks1[0] == ks2[0]) by {
            let j = choose|j: int| 0 <= j < ks2.len() && ks2[j] == ks1[0];
            if j > 0 {
                assert(lex_lt(ks2[j], ks2[0]));
                assert(dom.contains(ks2[0]));
                let i = choose|i: int| 0 <= i < ks1.len() && ks1[i] == ks2[0];
                if i > 0 {
                    assert(lex_lt(ks1[i], ks1[0]));
                    crate::kvmap::lemma_lex_asymm(ks2[j], ks2[0]);
                    assert(false);
                } else {
                    crate::kvmap::lemma_lex_irrefl(ks1[0]);
                    assert(false);
                }
            }
        }
        let head = ks1[0];
        let dom2 = dom.remove(head);
        let t1 = ks1.drop_first();
        let t2 = ks2.drop_first();
        assert(is_desc_key_enum(dom2, t1)) by {
            lemma_desc_enum_tail(dom, ks1);
        }
        assert(is_desc_key_enum(dom2, t2)) by {
            lemma_desc_enum_tail(dom, ks2);
        }
        lemma_desc_enum_unique(dom2, t1, t2);
        assert(ks1 =~= ks2) by {
            assert(forall|i: int| 1 <= i < ks1.len() ==> ks1[i] == t1[i - 1]);
            assert(forall|i: int| 1 <= i < ks2.len() ==> ks2[i] == t2[i - 1]);
        }
    }
}

/// Dropping the first (largest) key of a walk leaves a complete
/// descending walk of the keyspace without it.
pub proof fn lemma_desc_enum_tail(dom: Set<Seq<u8>>, ks: Seq<Seq<u8>>)
    requires
        is_desc_key_enum(dom, ks),
        ks.len() > 0,
    ensures
        is_desc_key_enum(dom.remove(ks[0]), ks.drop_first()),
{
    let head = ks[0];
    let tail = ks.drop_first();
    assert forall|i: int| 0 <= i < tail.len() implies dom.remove(head).contains(
        #[trigger] tail[i],
    ) by {
        assert(tail[i] == ks[i + 1]);
        assert(dom.contains(ks[i + 1]));
        assert(lex_lt(ks[i + 1], head));
        crate::kvmap::lemma_lex_irrefl(head);
        assert(ks[i + 1] != head);
    }
    assert forall|i: int, j: int| 0 <= i < j < tail.len() implies lex_lt(
        #[trigger] tail[j],
        #[trigger] tail[i],
    ) by {
        assert(tail[i] == ks[i + 1] && tail[j] == ks[j + 1]);
    }
    assert forall|k: Seq<u8>| dom.remove(head).contains(k) implies exists|i: int|
        0 <= i < tail.len() && #[trigger] tail[i] == k by {
        assert(dom.contains(k));
        let i = choose|i: int| 0 <= i < ks.len() && #[trigger] ks[i] == k;
        assert(i != 0);
        assert(tail[i - 1] == k);
    }
}

fn bytes_suffix(v: &Vec<u8>, start: usize) -> (r: Vec<u8>)
    requires
        start <= v@.len(),
    ensures
        r@ == v@.skip(start as int),
{
    let mut r: Vec<u8> = Vec::new();
    let mut i: usize = start;
    while i < v.len()
        invariant
            start <= i <= v@.len(),
            r@ == v@.subrange(start as int, i as int),
        decreases v@.len() - i,
    {
        r.push(v[i]);
        proof {
            assert(r@ =~= v@.subrange(start as int, i + 1));
        }
        i = i + 1;
    }
    proof {
        assert(v@.subrange(start as int, v@.len() as int) =~= v@.skip(start as int));
    }
    r
}

} // verus!
