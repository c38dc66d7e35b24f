use vstd::prelude::*;

verus! {

use vstd::string::StrSliceExecFns;
use vstd::string::StringExecFns;
use vstd::string::StringSliceAdditionalSpecFns;
use vstd::utf8::encode_utf8;
use crate::codec::dec_of;
use crate::codec::esc;
use crate::codec::push_dec;
use crate::codec::push_escaped;
use crate::crypto::encrypt_with_secret;
use crate::crypto::sealed_payload;
use crate::event::Event;
use crate::event::clone_string;

/// One subscription as handed to the fanout path.
pub struct SubscriptionRow {
    pub follower_pubkey: String,
    pub shared_secret: String,
}

/// A bot as returned to callers.
pub struct BotRecord {
    pub bot_pubkey: String,
    pub nostr_pubkey: String,
    pub eth_address: String,
}

/// A per-subscriber encrypted copy of an event, ready for push
/// delivery.
pub struct FanoutMessage {
    pub target_pubkey: String,
    pub bot_pubkey: String,
    pub kind: u16,
    pub original_event_id: String,
    pub payload: String,
}

/// A registered bot with its profile fields.
pub struct BotRow {
    pub bot_pubkey: String,
    pub nostr_pubkey: String,
    pub eth_address: String,
    pub name: String,
    pub last_seen_at: u64,
}

/// One bot-follower pair with its shared secret.
pub struct SubRow {
    pub bot_pubkey: String,
    pub follower_pubkey: String,
    pub shared_secret: String,
}

#[derive(Debug)]
pub enum SubscriptionError {
    EthAddressTaken,
    UnknownBot,
    EncryptionFailed,
}

/// Keep the subscriptions of one bot.
pub open spec fn sub_of(pk: Seq<char>) -> spec_fn(SubRow) -> bool {
    |s: SubRow| s.bot_pubkey@ == pk
}

/// The relational subscription state: bots keyed by their pubkey with
/// a unique eth address each, subscriptions keyed by the bot-follower
/// pair and owned by an existing bot, and the platform's current
/// signing key.
pub struct SubscriptionDirectory {
    pub bots: Vec<BotRow>,
    pub subs: Vec<SubRow>,
    pub platform_pubkey: Option<String>,
}

impl SubscriptionDirectory {
    pub open spec fn platform_view(self) -> Option<Seq<char>> {
        match self.platform_pubkey {
            Option::Some(p) => Option::Some(p@),
            Option::None => Option::None,
        }
    }

    pub open spec fn has_bot(self, pk: Seq<char>) -> bool {
        exists|i: int|
            0 <= i < self.bots@.len() && (#[trigger] self.bots@[i]).bot_pubkey@ == pk
    }

    pub open spec fn has_eth(self, eth: Seq<char>) -> bool {
        exists|i: int|
            0 <= i < self.bots@.len() && (#[trigger] self.bots@[i]).eth_address@ == eth
    }

    /// A different bot already holds this eth address.
    pub open spec fn eth_taken(self, pk: Seq<char>, eth: Seq<char>) -> bool {
        exists|i: int|
            0 <= i < self.bots@.len() && (#[trigger] self.bots@[i]).eth_address@ == eth
                && self.bots@[i].bot_pubkey@ != pk
    }

    /// This bot-follower pair is subscribed.
    pub open spec fn has_pair(self, pk: Seq<char>, follower: Seq<char>) -> bool {
        exists|i: int|
            0 <= i < self.subs@.len() && (#[trigger] self.subs@[i]).bot_pubkey@ == pk
                && self.subs@[i].follower_pubkey@ == follower
    }

    pub open spec fn subs_for(self, pk: Seq<char>) -> Seq<SubRow> {
        self.subs@.filter(sub_of(pk))
    }

    /// Unique bot keys, unique eth addresses, unique pairs, and every
    /// subscription owned by a registered bot.
    pub open spec fn wf(self) -> bool {
        &&& forall|i: int, j: int|
            0 <= i < j < self.bots@.len() ==> (#[trigger] self.bots@[i]).bot_pubkey@
                != (#[trigger] self.bots@[j]).bot_pubkey@
        &&& forall|i: int, j: int|
            0 <= i < j < self.bots@.len() ==> (#[trigger] self.bots@[i]).eth_address@
                != (#[trigger] self.bots@[j]).eth_address@
        &&& forall|i: int, j: int|
            0 <= i < j < self.subs@.len() ==> !((#[trigger] self.subs@[i]).bot_pubkey@
                == (#[trigger] self.subs@[j]).bot_pubkey@
                && self.subs@[i].follower_pubkey@ == self.subs@[j].follower_pubkey@)
        &&& forall|i: int|
            0 <= i < self.subs@.len() ==> self.has_bot(
                (#[trigger] self.subs@[i]).bot_pubkey@,
            )
    }

    pub fn new() -> (r: SubscriptionDirectory)
        ensures
            r.wf(),
            r.bots@ == Seq::<BotRow>::empty(),
            r.subs@ == Seq::<SubRow>::empty(),
            r.platform_view() is None,
    {
        SubscriptionDirectory { bots: Vec::new(), subs: Vec::new(), platform_pubkey: None }
    }

    fn find_bot(&self, pk: &str) -> (r: Option<usize>)
        ensures
            r matches Some(i) ==> i < self.bots@.len()
                && self.bots@[i as int].bot_pubkey@ == pk@,
            r is None ==> !self.has_bot(pk@),
    {
        let mut i: usize = 0;
        while i < self.bots.len()
            invariant
                i <= self.bots@.len(),
                forall|t: int| 0 <= t < i ==> (#[trigger] self.bots@[t]).bot_pubkey@ != pk@,
            decreases self.bots@.len() - i,
        {
            if str_eq(self.bots[i].bot_pubkey.as_str(), pk) {
                return Some(i);
            }
            i = i + 1;
        }
        None
    }

    /// Register or update a bot; the bot key is the conflict target,
    /// and a row never duplicates. Claiming an eth address already
    /// held by a different bot is refused — and that is the only
    /// refusal. An update keeps the row's last-seen time and leaves
    /// every other bot's row in place.
    pub fn register_bot(
        &mut self,
        bot_pubkey: &str,
        nostr_pubkey: &str,
        eth_address: &str,
        name: &str,
    ) -> (r: Result<(), SubscriptionError>)
        requires
            old(self).wf(),
        ensures
            final(self).wf(),
            final(self).subs@ == old(self).subs@,
            final(self).platform_view() == old(self).platform_view(),
            r is Err <==> old(self).eth_taken(bot_pubkey@, eth_address@),
            r is Ok ==> final(self).bots@.len() == old(self).bots@.len() + (
            if old(self).has_bot(bot_pubkey@) {
                0int
            } else {
                1int
            }),
            r is Ok ==> exists|i: int|
                0 <= i < final(self).bots@.len() && {
                    let b = #[trigger] final(self).bots@[i];
                    &&& b.bot_pubkey@ == bot_pubkey@
                    &&& b.nostr_pubkey@ == nostr_pubkey@
                    &&& b.eth_address@ == eth_address@
                    &&& b.name@ == name@
                    &&& forall|j: int|
                        0 <= j < old(self).bots@.len() && (#[trigger] old(
                            self,
                        ).bots@[j]).bot_pubkey@ == bot_pubkey@ ==> b.last_seen_at
                            == old(self).bots@[j].last_seen_at
                },
            r is Ok ==> forall|j: int|
                0 <= j < old(self).bots@.len() && (#[trigger] old(self).bots@[j]).bot_pubkey@
                    != bot_pubkey@ ==> final(self).bots@[j] == old(self).bots@[j],
            r is Err ==> *final(self) == *old(self),
    {
        // A different bot already holding the eth address is the
        // relational uniqueness violation.
        let mut i: usize = 0;
        while i < self.bots.len()
            invariant
                *self == *old(self),
                old(self).wf(),
                i <= self.bots@.len(),
                forall|t: int|
                    0 <= t < i ==> !((#[trigger] self.bots@[t]).eth_address@ == eth_address@
                        && self.bots@[t].bot_pubkey@ != bot_pubkey@),
            decreases self.bots@.len() - i,
        {
            if str_eq(self.bots[i].eth_address.as_str(), eth_address) && !str_eq(
                self.bots[i].bot_pubkey.as_str(),
                bot_pubkey,
            ) {
                proof {
                    assert(old(self).bots@[i as int].eth_address@ == eth_address@);
                    assert(old(self).eth_taken(bot_pubkey@, eth_address@));
                }
                return Err(SubscriptionError::EthAddressTaken);
            }
            i = i + 1;
        }
        let row = BotRow {
            bot_pubkey: str_to_string(bot_pubkey),
            nostr_pubkey: str_to_string(nostr_pubkey),
            eth_address: str_to_string(eth_address),
            name: str_to_string(name),
            last_seen_at: 0,
        };
        match self.find_bot(bot_pubkey) {
            Some(j) => {
                let ghost b0 = self.bots@;
                let last_seen = self.bots[j].last_seen_at;
                self.bots.set(j, BotRow { last_seen_at: last_seen, ..row });
                proof {
                    assert(self.bots@[j as int].bot_pubkey@ == bot_pubkey@);
                    assert(self.bots@[j as int].eth_address@ == eth_address@);
                    assert(forall|t: int|
                        0 <= t < self.bots@.len() && t != j ==> self.bots@[t] == b0[t]);
                    assert(old(self).has_bot(bot_pubkey@)) by {
                        assert(b0[j as int].bot_pubkey@ == bot_pubkey@);
                    }
                    assert forall|t: int| 0 <= t < self.bots@.len() implies (
                    #[trigger] self.bots@[t]).bot_pubkey@ == b0[t].bot_pubkey@ by {}
                    assert forall|a: int, c: int| 0 <= a < c < self.bots@.len() implies (
                    #[trigger] self.bots@[a]).bot_pubkey@ != (
                    #[trigger] self.bots@[c]).bot_pubkey@ by {
                        assert(b0[a].bot_pubkey@ != b0[c].bot_pubkey@);
                    }
                    assert forall|a: int, c: int| 0 <= a < c < self.bots@.len() implies (
                    #[trigger] self.bots@[a]).eth_address@ != (
                    #[trigger] self.bots@[c]).eth_address@ by {
                        if a != j && c != j {
                            assert(b0[a].eth_address@ != b0[c].eth_address@);
                        } else {
                            let o: int = if a == j {
                                c
                            } else {
                                a
                            };
                            assert(b0[o].bot_pubkey@ != b0[j as int].bot_pubkey@);
                            assert(!(b0[o].eth_address@ == eth_address@ && b0[o].bot_pubkey@
                                != bot_pubkey@));
                            assert(b0[o].eth_address@ != eth_address@);
                        }
                    }
                    assert forall|i2: int| 0 <= i2 < self.subs@.len() implies self.has_bot(
                        (#[trigger] self.subs@[i2]).bot_pubkey@,
                    ) by {
                        assert(old(self).has_bot(self.subs@[i2].bot_pubkey@));
                        let w = choose|w: int|
                            0 <= w < b0.len() && (#[trigger] b0[w]).bot_pubkey@
                                == self.subs@[i2].bot_pubkey@;
                        assert(self.bots@[w].bot_pubkey@ == self.subs@[i2].bot_pubkey@);
                    }
                }
            },
            None => {
                self.bots.push(row);
                proof {
                    let n = self.bots@.len();
                    let b0 = old(self).bots@;
                    assert(self.bots@[n - 1].bot_pubkey@ == bot_pubkey@);
                    assert(self.bots@[n - 1].eth_address@ == eth_address@);
                    assert(forall|t: int| 0 <= t < n - 1 ==> self.bots@[t] == b0[t]);
                    assert forall|a: int, c: int| 0 <= a < c < n implies (
                    #[trigger] self.bots@[a]).bot_pubkey@ != (
                    #[trigger] self.bots@[c]).bot_pubkey@ by {
                        if c == n - 1 {
                            if b0[a].bot_pubkey@ == bot_pubkey@ {
                                assert(old(self).has_bot(bot_pubkey@));
                            }
                        } else {
                            assert(b0[a].bot_pubkey@ != b0[c].bot_pubkey@);
                        }
                    }
                    assert forall|a: int, c: int| 0 <= a < c < n implies (
                    #[trigger] self.bots@[a]).eth_address@ != (
                    #[trigger] self.bots@[c]).eth_address@ by {
                        if c == n - 1 {
                            assert(!(b0[a].eth_address@ == eth_address@ && b0[a].bot_pubkey@
                                != bot_pubkey@));
                            if b0[a].bot_pubkey@ == bot_pubkey@ {
                                assert(old(self).has_bot(bot_pubkey@));
                            }
                        } else {
                            assert(b0[a].eth_address@ != b0[c].eth_address@);
                        }
                    }
                    assert forall|i2: int| 0 <= i2 < self.subs@.len() implies self.has_bot(
                        (#[trigger] self.subs@[i2]).bot_pubkey@,
                    ) by {
                        assert(old(self).has_bot(self.subs@[i2].bot_pubkey@));
                        let w = choose|w: int|
                            0 <= w < b0.len() && (#[trigger] b0[w]).bot_pubkey@
                                == self.subs@[i2].bot_pubkey@;
                        assert(self.bots@[w].bot_pubkey@ == self.subs@[i2].bot_pubkey@);
                    }
                }
            },
        }
        Ok(())
    }

    /// Add or refresh a follower's subscription to a bot; the pair is
    /// the conflict target, a row never duplicates, and every other
    /// pair's row stays in place. The bot must exist.
    pub fn add_subscription(
        &mut self,
        bot_pubkey: &str,
        follower_pubkey: &str,
        shared_secret: &str,
    ) -> (r: Result<(), SubscriptionError>)
        requires
            old(self).wf(),
        ensures
            final(self).wf(),
            final(self).bots@ == old(self).bots@,
            final(self).platform_view() == old(self).platform_view(),
            r is Err <==> !old(self).has_bot(bot_pubkey@),
            r is Ok ==> final(self).subs@.len() == old(self).subs@.len() + (
            if old(self).has_pair(bot_pubkey@, follower_pubkey@) {
                0int
            } else {
                1int
            }),
            r is Ok ==> exists|i: int|
                0 <= i < final(self).subs@.len() && {
                    let s = #[trigger] final(self).subs@[i];
                    s.bot_pubkey@ == bot_pubkey@ && s.follower_pubkey@ == follower_pubkey@
                        && s.shared_secret@ == shared_secret@
                },
            r is Ok ==> forall|j: int|
                0 <= j < old(self).subs@.len() && !((#[trigger] old(self).subs@[j]).bot_pubkey@
                    == bot_pubkey@ && old(self).subs@[j].follower_pubkey@ == follower_pubkey@)
                    ==> final(self).subs@[j] == old(self).subs@[j],
            r is Err ==> *final(self) == *old(self),
    {
        match self.find_bot(bot_pubkey) {
            None => {
                return Err(SubscriptionError::UnknownBot);
            },
            Some(_) => {},
        }
        proof {
            assert(old(self).has_bot(bot_pubkey@));
        }
        let row = SubRow {
            bot_pubkey: str_to_string(bot_pubkey),
            follower_pubkey: str_to_string(follower_pubkey),
            shared_secret: str_to_string(shared_secret),
        };
        let mut i: usize = 0;
        while i < self.subs.len()
            invariant
                *self == *old(self),
                old(self).wf(),
                old(self).has_bot(bot_pubkey@),
                row.bot_pubkey@ == bot_pubkey@,
                row.follower_pubkey@ == follower_pubkey@,
                row.shared_secret@ == shared_secret@,
                i <= self.subs@.len(),
                forall|t: int|
                    0 <= t < i ==> !((#[trigger] self.subs@[t]).bot_pubkey@ == bot_pubkey@
                        && self.subs@[t].follower_pubkey@ == follower_pubkey@),
            decreases self.subs@.len() - i,
        {
            if str_eq(self.subs[i].bot_pubkey.as_str(), bot_pubkey) && str_eq(
                self.subs[i].follower_pubkey.as_str(),
                follower_pubkey,
            ) {
                let ghost s0 = self.subs@;
                self.subs.set(i, row);
                proof {
                    assert(self.subs@[i as int].bot_pubkey@ == bot_pubkey@);
                    assert(self.subs@[i as int].follower_pubkey@ == follower_pubkey@);
                    assert(self.subs@[i as int].shared_secret@ == shared_secret@);
                    assert(s0[i as int].bot_pubkey@ == bot_pubkey@);
                    assert(s0[i as int].follower_pubkey@ == follower_pubkey@);
                    assert(forall|t: int|
                        0 <= t < self.subs@.len() && t != i ==> self.subs@[t] == s0[t]);
                    assert(forall|t: int|
                        0 <= t < self.subs@.len() ==> (#[trigger] self.subs@[t]).bot_pubkey@
                            == s0[t].bot_pubkey@ && self.subs@[t].follower_pubkey@
                            == s0[t].follower_pubkey@);
                    assert forall|a: int, c: int| 0 <= a < c < self.subs@.len() implies !((
                    #[trigger] self.subs@[a]).bot_pubkey@ == (
                    #[trigger] self.subs@[c]).bot_pubkey@ && self.subs@[a].follower_pubkey@
                        == self.subs@[c].follower_pubkey@) by {
                        assert(!(s0[a].bot_pubkey@ == s0[c].bot_pubkey@
                            && s0[a].follower_pubkey@ == s0[c].follower_pubkey@));
                    }
                    assert forall|i2: int| 0 <= i2 < self.subs@.len() implies self.has_bot(
                        (#[trigger] self.subs@[i2]).bot_pubkey@,
                    ) by {
                        assert(old(self).has_bot(s0[i2].bot_pubkey@));
                        let w = choose|w: int|
                            0 <= w < old(self).bots@.len() && (#[trigger] old(
                                self,
                            ).bots@[w]).bot_pubkey@ == s0[i2].bot_pubkey@;
                        assert(self.bots@[w].bot_pubkey@ == self.subs@[i2].bot_pubkey@);
                    }
                }
                return Ok(());
            }
            i = i + 1;
        }
        self.subs.push(row);
        proof {
            let n = self.subs@.len();
            let s0 = old(self).subs@;
            assert(self.subs@[n - 1].bot_pubkey@ == bot_pubkey@);
            assert(self.subs@[n - 1].follower_pubkey@ == follower_pubkey@);
            assert(self.subs@[n - 1].shared_secret@ == shared_secret@);
            assert(forall|t: int| 0 <= t < n - 1 ==> self.subs@[t] == s0[t]);
            assert forall|a: int, c: int| 0 <= a < c < n implies !((
            #[trigger] self.subs@[a]).bot_pubkey@ == (#[trigger] self.subs@[c]).bot_pubkey@
                && self.subs@[a].follower_pubkey@ == self.subs@[c].follower_pubkey@) by {
                if c == n - 1 {
                    assert(!(s0[a].bot_pubkey@ == bot_pubkey@ && s0[a].follower_pubkey@
                        == follower_pubkey@));
                } else {
                    assert(!(s0[a].bot_pubkey@ == s0[c].bot_pubkey@ && s0[a].follower_pubkey@
                        == s0[c].follower_pubkey@));
                }
            }
            assert forall|i2: int| 0 <= i2 < self.subs@.len() implies self.has_bot(
                (#[trigger] self.subs@[i2]).bot_pubkey@,
            ) by {
                let pk2 = if i2 < n - 1 {
                    s0[i2].bot_pubkey@
                } else {
                    bot_pubkey@
                };
                assert(self.subs@[i2].bot_pubkey@ == pk2);
                assert(old(self).has_bot(pk2));
                let w = choose|w: int|
                    0 <= w < old(self).bots@.len() && (#[trigger] old(self).bots@[w]).bot_pubkey@
                        == pk2;
                assert(self.bots@[w].bot_pubkey@ == pk2);
            }
        }
        Ok(())
    }

    /// The followers of a bot with their shared secrets.
    pub fn list_subscriptions(&self, bot_pubkey: &str) -> (r: Vec<SubscriptionRow>)
        ensures
            r@.len() == self.subs_for(bot_pubkey@).len(),
            forall|i: int|
                0 <= i < r@.len() ==> (#[trigger] r@[i]).follower_pubkey@ == self.subs_for(
                    bot_pubkey@,
                )[i].follower_pubkey@ && r@[i].shared_secret@ == self.subs_for(
                    bot_pubkey@,
                )[i].shared_secret@,
    {
        let mut out: Vec<SubscriptionRow> = Vec::new();
        let mut i: usize = 0;
        proof {
            assert(self.subs@.take(0) =~= Seq::<SubRow>::empty());
            assert(Seq::<SubRow>::empty().filter(sub_of(bot_pubkey@)) =~= Seq::<SubRow>::empty())
                by {
                reveal(Seq::filter);
            }
        }
        while i < self.subs.len()
            invariant
                i <= self.subs@.len(),
                out@.len() == self.subs@.take(i as int).filter(sub_of(bot_pubkey@)).len(),
                forall|t: int|
                    0 <= t < out@.len() ==> (#[trigger] out@[t]).follower_pubkey@
                        == self.subs@.take(i as int).filter(sub_of(bot_pubkey@))[t].follower_pubkey@
                        && out@[t].shared_secret@ == self.subs@.take(i as int).filter(
                        sub_of(bot_pubkey@),
                    )[t].shared_secret@,
            decreases self.subs@.len() - i,
        {
            let ghost pre = self.subs@.take(i as int);
            proof {
                lemma_filter_push(pre, self.subs@[i as int], sub_of(bot_pubkey@));
                assert(self.subs@.take(i + 1) =~= pre.push(self.subs@[i as int]));
            }
            if str_eq(self.subs[i].bot_pubkey.as_str(), bot_pubkey) {
                out.push(
                    SubscriptionRow {
                        follower_pubkey: clone_string(&self.subs[i].follower_pubkey),
                        shared_secret: clone_string(&self.subs[i].shared_secret),
                    },
                );
            }
            i = i + 1;
        }
        proof {
            assert(self.subs@.take(self.subs@.len() as int) =~= self.subs@);
        }
        out
    }

    /// One encrypted message per follower of the event's publisher;
    /// an encryption failure abandons the whole fanout — and below the
    /// cipher's block-counter limit there is none, so the fanout is
    /// owed.
    pub fn fanout_for_event(&self, event: &Event) -> (r: Result<
        Vec<FanoutMessage>,
        SubscriptionError,
    >)
        requires
            event.wf(),
        ensures
            self.subs_for(event.pubkey@).len() == 0 ==> r is Ok,
            encode_utf8(event.content@).len() / 64 < 0xFFFFFFFF ==> r is Ok,
            r matches Ok(msgs) ==> {
                let subs = self.subs_for(event.pubkey@);
                &&& msgs@.len() == subs.len()
                &&& forall|i: int|
                    0 <= i < msgs@.len() ==> {
                        let m = #[trigger] msgs@[i];
                        &&& m.target_pubkey@ == subs[i].follower_pubkey@
                        &&& m.bot_pubkey@ == event.pubkey@
                        &&& m.kind == event.kind
                        &&& m.original_event_id@ == event.spec_id_hex()
                        &&& exists|nonce: Seq<u8>|
                            nonce.len() == 12 && m.payload@ == sealed_payload(
                                encode_utf8(subs[i].shared_secret@),
                                nonce,
                                encode_utf8(event.content@),
                            )
                    }
            },
    {
        let subscribers = self.list_subscriptions(event.pubkey.as_str());
        proof {
            assert(subscribers@.len() == self.subs_for(event.pubkey@).len());
        }
        let r = fanout_messages(event, &subscribers);
        proof {
            match &r {
                Result::Ok(msgs) => {
                    assert forall|i: int| 0 <= i < msgs@.len() implies (
                    #[trigger] msgs@[i]).target_pubkey@ == self.subs_for(
                        event.pubkey@,
                    )[i].follower_pubkey@ by {
                        assert(msgs@[i].target_pubkey@ == subscribers@[i].follower_pubkey@);
                    }
                },
                Result::Err(_) => {},
            }
        }
        r
    }

    /// The bot holding an eth address, if any.
    pub fn find_bot_by_eth(&self, eth_address: &str) -> (r: Option<BotRecord>)
        ensures
            r is Some <==> self.has_eth(eth_address@),
            r matches Some(b) ==> b.eth_address@ == eth_address@ && exists|i: int|
                0 <= i < self.bots@.len() && {
                    let row = #[trigger] self.bots@[i];
                    row.eth_address@ == eth_address@ && row.bot_pubkey@ == b.bot_pubkey@
                        && row.nostr_pubkey@ == b.nostr_pubkey@
                },
    {
        let mut i: usize = 0;
        while i < self.bots.len()
            invariant
                i <= self.bots@.len(),
                forall|t: int| 0 <= t < i ==> (#[trigger] self.bots@[t]).eth_address@ != eth_address@,
            decreases self.bots@.len() - i,
        {
            if str_eq(self.bots[i].eth_address.as_str(), eth_address) {
                proof {
                    assert(self.bots@[i as int].eth_address@ == eth_address@);
                }
                return Some(
                    BotRecord {
                        bot_pubkey: clone_string(&self.bots[i].bot_pubkey),
                        nostr_pubkey: clone_string(&self.bots[i].nostr_pubkey),
                        eth_address: clone_string(&self.bots[i].eth_address),
                    },
                );
            }
            i = i + 1;
        }
        None
    }

    /// Refresh a bot's last-seen time; unknown bots change nothing.
    pub fn update_bot_last_seen(&mut self, bot_pubkey: &str, now_ms: u64)
        requires
            old(self).wf(),
        ensures
            final(self).wf(),
            final(self).subs@ == old(self).subs@,
            final(self).platform_view() == old(self).platform_view(),
            final(self).bots@.len() == old(self).bots@.len(),
            forall|i: int|
                0 <= i < final(self).bots@.len() ==> {
                    let b = #[trigger] final(self).bots@[i];
                    let b0 = old(self).bots@[i];
                    b.bot_pubkey@ == b0.bot_pubkey@ && b.nostr_pubkey@ == b0.nostr_pubkey@
                        && b.eth_address@ == b0.eth_address@ && b.name@ == b0.name@
                        && b.last_seen_at == (if b0.bot_pubkey@ == bot_pubkey@ {
                        now_ms
                    } else {
                        b0.last_seen_at
                    })
                },
    {
        match self.find_bot(bot_pubkey) {
            None => {
                proof {
                    assert forall|i: int| 0 <= i < self.bots@.len() implies (
                    #[trigger] self.bots@[i]).bot_pubkey@ != bot_pubkey@ by {
                        if self.bots@[i].bot_pubkey@ == bot_pubkey@ {
                            assert(old(self).has_bot(bot_pubkey@));
                        }
                    }
                }
            },
            Some(j) => {
                let ghost b0 = self.bots@;
                let row = BotRow {
                    bot_pubkey: clone_string(&self.bots[j].bot_pubkey),
                    nostr_pubkey: clone_string(&self.bots[j].nostr_pubkey),
                    eth_address: clone_string(&self.bots[j].eth_address),
                    name: clone_string(&self.bots[j].name),
                    last_seen_at: now_ms,
                };
                self.bots.set(j, row);
                proof {
                    assert(forall|t: int|
                        0 <= t < self.bots@.len() && t != j ==> self.bots@[t] == b0[t]);
                    assert(self.bots@[j as int].bot_pubkey@ == b0[j as int].bot_pubkey@);
                    assert(self.bots@[j as int].eth_address@ == b0[j as int].eth_address@);
                    assert forall|t: int|
                        0 <= t < self.bots@.len() && t != j implies (
                    #[trigger] self.bots@[t]).bot_pubkey@ != bot_pubkey@ by {
                        if t < j {
                            assert(b0[t].bot_pubkey@ != b0[j as int].bot_pubkey@);
                        } else {
                            assert(b0[j as int].bot_pubkey@ != b0[t].bot_pubkey@);
                        }
                    }
                    assert(forall|t: int|
                        0 <= t < self.bots@.len() ==> (#[trigger] self.bots@[t]).bot_pubkey@
                            == b0[t].bot_pubkey@ && self.bots@[t].eth_address@
                            == b0[t].eth_address@);
                    assert forall|a: int, c: int| 0 <= a < c < self.bots@.len() implies (
                    #[trigger] self.bots@[a]).bot_pubkey@ != (
                    #[trigger] self.bots@[c]).bot_pubkey@ && self.bots@[a].eth_address@ != (
                    self.bots@[c]).eth_address@ by {
                        assert(b0[a].bot_pubkey@ != b0[c].bot_pubkey@);
                        assert(b0[a].eth_address@ != b0[c].eth_address@);
                    }
                    assert forall|i2: int| 0 <= i2 < self.subs@.len() implies self.has_bot(
                        (#[trigger] self.subs@[i2]).bot_pubkey@,
                    ) by {
                        assert(old(self).has_bot(self.subs@[i2].bot_pubkey@));
                        let w = choose|w: int|
                            0 <= w < b0.len() && (#[trigger] b0[w]).bot_pubkey@
                                == self.subs@[i2].bot_pubkey@;
                        assert(self.bots@[w].bot_pubkey@ == self.subs@[i2].bot_pubkey@);
                    }
                }
            },
        }
    }

    /// Remove a bot; its subscriptions go with it, and every other
    /// bot's subscriptions stay as they were.
    pub fn remove_bot(&mut self, bot_pubkey: &str)
        requires
            old(self).wf(),
        ensures
            final(self).wf(),
            !final(self).has_bot(bot_pubkey@),
            final(self).subs_for(bot_pubkey@) == Seq::<SubRow>::empty(),
            final(self).platform_view() == old(self).platform_view(),
            forall|pk: Seq<char>|
                pk != bot_pubkey@ ==> (#[trigger] final(self).subs_for(pk)) == old(self).subs_for(
                    pk,
                ),
    {
        let mut rest: Vec<SubRow> = Vec::new();
        std::mem::swap(&mut rest, &mut self.subs);
        let ghost old_subs = rest@;
        let mut kept: Vec<SubRow> = Vec::new();
        proof {
            assert(old_subs.take(0) =~= Seq::<SubRow>::empty());
            assert(Seq::<SubRow>::empty().filter(keep_other(bot_pubkey@)) =~= Seq::<
                SubRow,
            >::empty()) by {
                reveal(Seq::filter);
            }
        }
        while rest.len() > 0
            invariant
                self.bots@ == old(self).bots@,
                self.platform_pubkey == old(self).platform_pubkey,
                old(self).wf(),
                old_subs == old(self).subs@,
                kept@.len() + rest@.len() >= kept@.len(),
                rest@ == old_subs.skip((old_subs.len() - rest@.len()) as int),
                rest@.len() <= old_subs.len(),
                kept@ == old_subs.take((old_subs.len() - rest@.len()) as int).filter(
                    keep_other(bot_pubkey@),
                ),
                forall|t: int|
                    0 <= t < kept@.len() ==> (#[trigger] kept@[t]).bot_pubkey@ != bot_pubkey@,
                forall|t: int|
                    0 <= t < kept@.len() ==> exists|u: int|
                        0 <= u < old_subs.len() - rest@.len() && #[trigger] kept@[t] == old_subs[u],
                forall|a: int, b: int|
                    0 <= a < b < kept@.len() ==> !((#[trigger] kept@[a]).bot_pubkey@ == (
                    #[trigger] kept@[b]).bot_pubkey@ && kept@[a].follower_pubkey@
                        == kept@[b].follower_pubkey@),
            decreases rest@.len(),
        {
            let ghost j = old_subs.len() - rest@.len();
            let ghost pre = old_subs.take(j as int);
            let row = rest.remove(0);
            proof {
                assert(row == old_subs[j as int]);
                assert(rest@ =~= old_subs.skip(j as int + 1));
                lemma_filter_push(pre, row, keep_other(bot_pubkey@));
                assert(old_subs.take(j as int + 1) =~= pre.push(row));
            }
            if !str_eq(row.bot_pubkey.as_str(), bot_pubkey) {
                let ghost kept0 = kept@;
                kept.push(row);
                proof {
                    assert(kept@[kept@.len() - 1] == old_subs[j as int]);
                    assert forall|a: int, b: int| 0 <= a < b < kept@.len() implies !((
                    #[trigger] kept@[a]).bot_pubkey@ == (#[trigger] kept@[b]).bot_pubkey@
                        && kept@[a].follower_pubkey@ == kept@[b].follower_pubkey@) by {
                        if b == kept@.len() - 1 {
                            let u = choose|u: int|
                                0 <= u < j && #[trigger] kept0[a] == old_subs[u];
                            assert(kept@[a] == old_subs[u]);
                            assert(!(old_subs[u].bot_pubkey@ == old_subs[j as int].bot_pubkey@
                                && old_subs[u].follower_pubkey@
                                == old_subs[j as int].follower_pubkey@));
                        }
                    }
                    assert forall|t: int| 0 <= t < kept@.len() implies exists|u: int|
                        0 <= u < j + 1 && #[trigger] kept@[t] == old_subs[u] by {
                        if t == kept@.len() - 1 {
                            assert(kept@[t] == old_subs[j as int]);
                        } else {
                            let u = choose|u: int| 0 <= u < j && #[trigger] kept0[t] == old_subs[u];
                            assert(kept@[t] == old_subs[u]);
                        }
                    }
                }
            }
        }
        proof {
            assert(old_subs.take(old_subs.len() as int) =~= old_subs);
        }
        self.subs = kept;
        match self.find_bot(bot_pubkey) {
            Some(j) => {
                let ghost b0 = self.bots@;
                self.bots.remove(j);
                proof {
                    assert(self.bots@ =~= b0.remove(j as int));
                    assert forall|i: int| 0 <= i < self.bots@.len() implies (
                    #[trigger] self.bots@[i]).bot_pubkey@ != bot_pubkey@ by {
                        let i0: int = if i < j {
                            i
                        } else {
                            i + 1
                        };
                        assert(self.bots@[i] == b0[i0]);
                        if i0 != j {
                            if i0 < j {
                                assert(b0[i0].bot_pubkey@ != b0[j as int].bot_pubkey@);
                            } else {
                                assert(b0[j as int].bot_pubkey@ != b0[i0].bot_pubkey@);
                            }
                        }
                    }
                    assert forall|i: int| 0 <= i < self.subs@.len() implies self.has_bot(
                        (#[trigger] self.subs@[i]).bot_pubkey@,
                    ) by {
                        let pk = self.subs@[i].bot_pubkey@;
                        lemma_filter_keeps(old_subs, keep_other(bot_pubkey@), i);
                        assert(old(self).has_bot(pk));
                        let i0 = choose|t: int|
                            0 <= t < b0.len() && (#[trigger] b0[t]).bot_pubkey@ == pk;
                        assert(pk != bot_pubkey@);
                        assert(i0 != j) by {
                            if i0 == j {
                                assert(b0[j as int].bot_pubkey@ == pk);
                            }
                        }
                        if i0 < j {
                            assert(self.bots@[i0].bot_pubkey@ == pk);
                        } else {
                            assert(self.bots@[i0 - 1].bot_pubkey@ == pk);
                        }
                    }
                }
            },
            None => {
                proof {
                    assert forall|i: int| 0 <= i < self.bots@.len() implies (
                    #[trigger] self.bots@[i]).bot_pubkey@ != bot_pubkey@ by {
                        if self.bots@[i].bot_pubkey@ == bot_pubkey@ {
                            assert(old(self).has_bot(bot_pubkey@));
                        }
                    }
                    assert forall|i: int| 0 <= i < self.subs@.len() implies self.has_bot(
                        (#[trigger] self.subs@[i]).bot_pubkey@,
                    ) by {
                        lemma_filter_keeps(old_subs, keep_other(bot_pubkey@), i);
                        assert(old(self).has_bot(self.subs@[i].bot_pubkey@));
                        let i0 = choose|t: int|
                            0 <= t < old(self).bots@.len() && (#[trigger] old(
                                self,
                            ).bots@[t]).bot_pubkey@ == self.subs@[i].bot_pubkey@;
                        assert(self.bots@[i0].bot_pubkey@ == self.subs@[i].bot_pubkey@);
                    }
                }
            },
        }
        proof {
            lemma_filter_none(self.subs@, sub_of(bot_pubkey@));
            assert forall|pk: Seq<char>| pk != bot_pubkey@ implies (#[trigger] self.subs_for(pk))
                == old(self).subs_for(pk) by {
                lemma_filter_filter(old_subs, keep_other(bot_pubkey@), sub_of(pk));
            }
        }
    }
}

/// The announcement broadcast when the operator's signing key
/// changes, with the keys in the order the wire format fixes.
pub open spec fn rotation_content(new: Seq<char>, prev: Option<Seq<char>>, ts: u64) -> Seq<char> {
    ("{\"new_pubkey\":\"")@ + esc(new) + ("\",\"op\":\"platform_key_rotation\",\"previous_pubkey\":")@
        + (match prev {
        Option::Some(p) => ("\"")@ + esc(p) + ("\"")@,
        Option::None => ("null")@,
    }) + (",\"ts\":")@ + dec_of(ts as nat) + ("}")@
}

impl SubscriptionDirectory {
    /// Track the operator's signing key: when the stored key differs
    /// from the current one (or none is stored), store the new key and
    /// hand back the rotation announcement to broadcast.
    pub fn ensure_platform_pubkey(&mut self, current_pubkey: &str, now_ts: u64) -> (r: Option<
        String,
    >)
        requires
            old(self).wf(),
        ensures
            final(self).wf(),
            final(self).bots@ == old(self).bots@,
            final(self).subs@ == old(self).subs@,
            old(self).platform_view() == Option::Some(current_pubkey@) ==> r is None && *final(self)
                == *old(self),
            old(self).platform_view() != Option::Some(current_pubkey@)
                ==> final(self).platform_view() == Option::Some(current_pubkey@)
                && (r matches Some(c) && c@ == rotation_content(
                current_pubkey@,
                old(self).platform_view(),
                now_ts,
            )),
    {
        let same = match self.platform_pubkey.as_ref() {
            Some(p) => crate::subscription::str_eq(p.as_str(), current_pubkey),
            None => false,
        };
        if same {
            return None;
        }
        let mut content = String::new();
        content.append("{\"new_pubkey\":\"");
        push_escaped(&mut content, current_pubkey);
        content.append("\",\"op\":\"platform_key_rotation\",\"previous_pubkey\":");
        match self.platform_pubkey.as_ref() {
            Some(p) => {
                content.append("\"");
                push_escaped(&mut content, p.as_str());
                content.append("\"");
            },
            None => {
                content.append("null");
            },
        }
        content.append(",\"ts\":");
        push_dec(&mut content, now_ts);
        content.append("}");
        self.platform_pubkey = Some(str_to_string(current_pubkey));
        proof {
            assert(content@ =~= rotation_content(
                current_pubkey@,
                old(self).platform_view(),
                now_ts,
            ));
        }
        Some(content)
    }
}

/// Filtered sequences only keep what was there.
pub proof fn lemma_filter_keeps<A>(s: Seq<A>, p: spec_fn(A) -> bool, i: int)
    requires
        0 <= i < s.filter(p).len(),
    ensures
        p(s.filter(p)[i]),
        s.contains(s.filter(p)[i]),
    decreases s.len(),
{
    reveal(Seq::filter);
    if s.len() > 0 {
        if p(s.last()) && i == s.filter(p).len() - 1 {
            assert(s.filter(p)[i] == s.last());
        } else {
            lemma_filter_keeps(s.drop_last(), p, i);
            assert(s.drop_last().contains(s.drop_last().filter(p)[i]));
            let w = choose|t: int|
                0 <= t < s.drop_last().len() && s.drop_last()[t] == s.drop_last().filter(p)[i];
            assert(s[w] == s.filter(p)[i]);
        }
    }
}

/// Nothing passes: the filter is empty.
pub proof fn lemma_filter_none<A>(s: Seq<A>, p: spec_fn(A) -> bool)
    requires
        forall|i: int| 0 <= i < s.len() ==> !p(#[trigger] s[i]),
    ensures
        s.filter(p) == Seq::<A>::empty(),
    decreases s.len(),
{
    reveal(Seq::filter);
    if s.len() > 0 {
        assert(!p(s.last()));
        assert(forall|i: int| 0 <= i < s.drop_last().len() ==> s.drop_last()[i] == s[i]);
        lemma_filter_none(s.drop_last(), p);
    }
}

/// A stricter filter after a looser one is the stricter filter alone.
pub proof fn lemma_filter_filter<A>(s: Seq<A>, p1: spec_fn(A) -> bool, p2: spec_fn(A) -> bool)
    requires
        forall|x: A| #[trigger] p2(x) ==> p1(x),
    ensures
        s.filter(p1).filter(p2) == s.filter(p2),
    decreases s.len(),
{
    reveal(Seq::filter);
    if s.len() > 0 {
        lemma_filter_filter(s.drop_last(), p1, p2);
        let dl = s.drop_last();
        if p1(s.last()) {
            assert(s.filter(p1) == dl.filter(p1).push(s.last()));
            lemma_filter_push(dl.filter(p1), s.last(), p2);
        } else {
            assert(!p2(s.last()));
            assert(s.filter(p1) == dl.filter(p1));
            assert(s.filter(p2) == dl.filter(p2));
        }
    }
}


/// Keep subscriptions of every other bot.
pub open spec fn keep_other(pk: Seq<char>) -> spec_fn(SubRow) -> bool {
    |s: SubRow| s.bot_pubkey@ != pk
}

/// Appending one element extends a filter by that element when it
/// passes, else leaves it unchanged.
pub proof fn lemma_filter_push<A>(s: Seq<A>, x: A, p: spec_fn(A) -> bool)
    ensures
        s.push(x).filter(p) == if p(x) {
            s.filter(p).push(x)
        } else {
            s.filter(p)
        },
{
    reveal(Seq::filter);
    assert(s.push(x).drop_last() =~= s);
    assert(s.push(x).last() == x);
}

pub fn str_eq(a: &str, b: &str) -> (r: bool)
    ensures
        r <==> a@ == b@,
{
    let an = a.unicode_len();
    let bn = b.unicode_len();
    if an != bn {
        return false;
    }
    let mut i: usize = 0;
    while i < an
        invariant
            a@.len() == an,
            b@.len() == bn,
            an == bn,
            i <= an,
            forall|t: int| 0 <= t < i ==> a@[t] == b@[t],
        decreases an - i,
    {
        if a.get_char(i) != b.get_char(i) {
            return false;
        }
        i = i + 1;
    }
    proof {
        assert(a@ =~= b@);
    }
    true
}

pub fn str_to_string(s: &str) -> (r: String)
    ensures
        r@ == s@,
{
    String::from_str(s)
}

/// One encrypted message per subscriber row, in the rows' order; an
/// encryption failure abandons the whole fanout — and below the
/// cipher's block-counter limit there is none, so success is owed.
/// This is the piece a database-backed service runs after its query.
pub fn fanout_messages(event: &Event, subscribers: &Vec<SubscriptionRow>) -> (r: Result<
    Vec<FanoutMessage>,
    SubscriptionError,
>)
    requires
        event.wf(),
    ensures
        subscribers@.len() == 0 ==> r is Ok,
        encode_utf8(event.content@).len() / 64 < 0xFFFFFFFF ==> r is Ok,
        r matches Ok(msgs) ==> {
            &&& msgs@.len() == subscribers@.len()
            &&& forall|i: int|
                0 <= i < msgs@.len() ==> {
                    let m = #[trigger] msgs@[i];
                    &&& m.target_pubkey@ == subscribers@[i].follower_pubkey@
                    &&& m.bot_pubkey@ == event.pubkey@
                    &&& m.kind == event.kind
                    &&& m.original_event_id@ == event.spec_id_hex()
                    &&& exists|nonce: Seq<u8>|
                        nonce.len() == 12 && m.payload@ == sealed_payload(
                            encode_utf8(subscribers@[i].shared_secret@),
                            nonce,
                            encode_utf8(event.content@),
                        )
                }
        },
{
    let mut out: Vec<FanoutMessage> = Vec::new();
    let id_hex = event.id_hex();
    let mut i: usize = 0;
    while i < subscribers.len()
        invariant
            i <= subscribers@.len(),
            out@.len() == i,
            event.wf(),
            id_hex@ == event.spec_id_hex(),
            forall|t: int|
                0 <= t < out@.len() ==> {
                    let m = #[trigger] out@[t];
                    &&& m.target_pubkey@ == subscribers@[t].follower_pubkey@
                    &&& m.bot_pubkey@ == event.pubkey@
                    &&& m.kind == event.kind
                    &&& m.original_event_id@ == event.spec_id_hex()
                    &&& exists|nonce: Seq<u8>|
                        nonce.len() == 12 && m.payload@ == sealed_payload(
                            encode_utf8(subscribers@[t].shared_secret@),
                            nonce,
                            encode_utf8(event.content@),
                        )
                },
        decreases subscribers@.len() - i,
    {
        let payload = match encrypt_with_secret(
            event.content.as_str(),
            subscribers[i].shared_secret.as_str(),
        ) {
            None => {
                proof {
                    assert(encode_utf8(event.content@).len() / 64 >= 0xFFFFFFFF);
                }
                return Err(SubscriptionError::EncryptionFailed);
            },
            Some(p) => p,
        };
        out.push(
            FanoutMessage {
                target_pubkey: clone_string(&subscribers[i].follower_pubkey),
                bot_pubkey: clone_string(&event.pubkey),
                kind: event.kind,
                original_event_id: clone_string(&id_hex),
                payload,
            },
        );
        i = i + 1;
    }
    Ok(out)
}

} // verus!
