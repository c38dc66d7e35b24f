use vstd::prelude::*;

verus! {

use vstd::utf8::encode_utf8;
use crate::codec::lemma_parse_render;
use crate::codec::spec_render;
use crate::event::Event;
use crate::store::evt_key;
use crate::store::fwd_key;
use crate::store::parse_stored;
use crate::store::succ_key;
use crate::store::succ_prefix;
use crate::store::starts_with;

/// Archiving is lossless: the bytes `store_event` writes under an
/// event's key parse back, through `get_event`'s reading, to an event
/// with exactly the original's attributes.
pub proof fn lemma_archive_round_trip(e: Event, m: Map<Seq<u8>, Seq<u8>>)
    requires
        e.wf(),
    ensures
        ({
            let key = evt_key(encode_utf8(e.spec_id_hex()));
            let m2 = m.insert(key, encode_utf8(spec_render(e)));
            &&& m2.dom().contains(key)
            &&& parse_stored(m2[key]) matches Some(f) && f.id == e.id@ && f.pubkey == e.pubkey@
                && f.kind == e.kind as nat && f.created_at == e.created_at as nat && f.content
                == e.content@
        }),
{
    broadcast use vstd::utf8::encode_utf8_valid_utf8;
    broadcast use vstd::utf8::encode_utf8_decode_utf8;

    lemma_parse_render(e);
}

/// Marking a forward success is atomic over the two key families: the
/// state it leaves holds the flag and the matching index entry
/// together, and the rest of the keyspace is untouched.
pub proof fn lemma_mark_forward_success_keys(m: Map<Seq<u8>, Seq<u8>>, id: Seq<u8>, ts: u64)
    ensures
        ({
            let m2 = m.insert(fwd_key(id), seq![49u8]).insert(succ_key(ts, id), Seq::empty());
            &&& m2.dom().contains(fwd_key(id))
            &&& m2.dom().contains(succ_key(ts, id))
            &&& forall|k: Seq<u8>|
                k != fwd_key(id) && k != succ_key(ts, id) ==> (#[trigger] m2.dom().contains(k)
                    == m.dom().contains(k)) && (m.dom().contains(k) ==> m2[k] == m[k])
        }),
{
    crate::store::lemma_digs16_len(ts as nat, 16);
    assert(fwd_key(id)[0] == 102u8);
    assert(succ_key(ts, id)[0] == 115u8);
    assert(fwd_key(id) != succ_key(ts, id));
}

/// No event id appears twice among the identifiers of a sequence.
pub open spec fn distinct_ids(s: Seq<Event>) -> bool {
    forall|i: int, j: int| 0 <= i < j < s.len() ==> (#[trigger] s[i]).id@ != (#[trigger] s[j]).id@
}

proof fn lemma_dup_count<A>(s: Seq<A>, a: int, b: int)
    requires
        0 <= a < b < s.len(),
        s[a] == s[b],
    ensures
        s.to_multiset().count(s[a]) >= 2,
{
    broadcast use vstd::seq_lib::group_to_multiset_ensures;

    let s0 = s.subrange(0, b);
    let s1 = s.subrange(b, s.len() as int);
    assert(s =~= s0 + s1);
    vstd::seq_lib::lemma_multiset_commutative(s0, s1);
    assert(s0.to_multiset().count(s[a]) >= 1) by {
        assert(s0[a] == s[a]);
        assert(s0.contains(s[a]));
    }
    assert(s1.to_multiset().count(s[a]) >= 1) by {
        assert(s1[0] == s[b]);
        assert(s1.contains(s[a]));
    }
}

/// Distinct identifiers bound every event's count by one.
proof fn lemma_distinct_count(pending: Seq<Event>, x: Event)
    requires
        distinct_ids(pending),
    ensures
        pending.to_multiset().count(x) <= 1,
{
    broadcast use vstd::seq_lib::group_to_multiset_ensures;

    assert(pending.no_duplicates()) by {
        assert forall|i: int, j: int|
            0 <= i < pending.len() && 0 <= j < pending.len() && i != j implies pending[i]
            != pending[j] by {
            if pending[i] == pending[j] {
                if i < j {
                    assert(pending[i].id@ != pending[j].id@);
                } else {
                    assert(pending[j].id@ != pending[i].id@);
                }
            }
        }
    }
    pending.lemma_multiset_has_no_duplicates();
    if pending.to_multiset().count(x) > 1 {
        assert(pending.to_multiset().contains(x));
    }
}

/// One side of a split of a distinct-id buffer keeps its ids distinct.
proof fn lemma_part_distinct(pending: Seq<Event>, part: Seq<Event>, other: Seq<Event>)
    requires
        part.to_multiset().add(other.to_multiset()) == pending.to_multiset(),
        distinct_ids(pending),
    ensures
        distinct_ids(part),
{
    broadcast use vstd::seq_lib::group_to_multiset_ensures;

    assert forall|i: int, j: int| 0 <= i < j < part.len() implies (#[trigger] part[i]).id@ != (
    #[trigger] part[j]).id@ by {
        if part[i].id@ == part[j].id@ {
            let x = part[i];
            let y = part[j];
            if x == y {
                lemma_dup_count(part, i, j);
                assert(pending.to_multiset().count(x) >= 2);
                lemma_distinct_count(pending, x);
            } else {
                assert(part.contains(x) && part.contains(y));
                assert(part.to_multiset().count(x) >= 1);
                assert(part.to_multiset().count(y) >= 1);
                assert(pending.to_multiset().count(x) >= 1);
                assert(pending.to_multiset().count(y) >= 1);
                assert(pending.contains(x) && pending.contains(y));
                let ix = choose|t: int| 0 <= t < pending.len() && pending[t] == x;
                let iy = choose|t: int| 0 <= t < pending.len() && pending[t] == y;
                assert(ix != iy);
                if ix < iy {
                    assert(pending[ix].id@ != pending[iy].id@);
                } else {
                    assert(pending[iy].id@ != pending[ix].id@);
                }
            }
        }
    }
}

/// A flushed batch repeats no event id, and shares none with what
/// stays pending: splitting a buffer of distinct identifiers keeps
/// them distinct on both sides.
pub proof fn lemma_batch_ids_distinct(pending: Seq<Event>, batch: Seq<Event>, rest: Seq<Event>)
    requires
        batch.to_multiset().add(rest.to_multiset()) == pending.to_multiset(),
        distinct_ids(pending),
    ensures
        distinct_ids(batch),
        distinct_ids(rest),
        forall|i: int, j: int|
            0 <= i < batch.len() && 0 <= j < rest.len() ==> (#[trigger] batch[i]).id@ != (
            #[trigger] rest[j]).id@,
{
    broadcast use vstd::seq_lib::group_to_multiset_ensures;

    lemma_part_distinct(pending, batch, rest);
    assert(rest.to_multiset().add(batch.to_multiset()) =~= pending.to_multiset());
    lemma_part_distinct(pending, rest, batch);
    assert forall|i: int, j: int|
        0 <= i < batch.len() && 0 <= j < rest.len() implies (#[trigger] batch[i]).id@ != (
    #[trigger] rest[j]).id@ by {
        if batch[i].id@ == rest[j].id@ {
            let x = batch[i];
            let y = rest[j];
            assert(batch.contains(x) && rest.contains(y));
            assert(batch.to_multiset().count(x) >= 1);
            assert(rest.to_multiset().count(y) >= 1);
            if x == y {
                assert(pending.to_multiset().count(x) >= 2);
                lemma_distinct_count(pending, x);
            } else {
                assert(pending.to_multiset().count(x) >= 1);
                assert(pending.to_multiset().count(y) >= 1);
                assert(pending.contains(x) && pending.contains(y));
                let ix = choose|t: int| 0 <= t < pending.len() && pending[t] == x;
                let iy = choose|t: int| 0 <= t < pending.len() && pending[t] == y;
                assert(ix != iy);
                if ix < iy {
                    assert(pending[ix].id@ != pending[iy].id@);
                } else {
                    assert(pending[iy].id@ != pending[ix].id@);
                }
            }
        }
    }
}

/// Every listed key also sits in the walk's tail when none equals the
/// walk's head.
proof fn lemma_keys_into_tail(ks: Seq<Seq<u8>>, keys: Seq<Seq<u8>>)
    requires
        ks.len() > 0,
        forall|i: int| 0 <= i < keys.len() ==> ks.contains(#[trigger] keys[i]),
        forall|i: int| 0 <= i < keys.len() ==> #[trigger] keys[i] != ks[0],
    ensures
        forall|i: int| 0 <= i < keys.len() ==> ks.drop_first().contains(#[trigger] keys[i]),
{
    assert forall|i: int| 0 <= i < keys.len() implies ks.drop_first().contains(
        #[trigger] keys[i],
    ) by {
        let j = choose|j: int| 0 <= j < ks.len() && ks[j] == keys[i];
        assert(j != 0);
        assert(ks.drop_first()[j - 1] == keys[i]);
    }
}

/// Index-family membership carries into the walk's tail.
proof fn lemma_succ_into_tail(ks: Seq<Seq<u8>>, keys: Seq<Seq<u8>>)
    requires
        ks.len() > 0,
        forall|j: int|
            0 <= j < ks.len() && starts_with(#[trigger] ks[j], succ_prefix()) ==> keys.contains(
                ks[j],
            ),
    ensures
        forall|j: int|
            0 <= j < ks.drop_first().len() && starts_with(
                #[trigger] ks.drop_first()[j],
                succ_prefix(),
            ) ==> keys.contains(ks.drop_first()[j]),
{
    assert forall|j: int|
        0 <= j < ks.drop_first().len() && starts_with(
            #[trigger] ks.drop_first()[j],
            succ_prefix(),
        ) implies keys.contains(ks.drop_first()[j]) by {
        assert(ks.drop_first()[j] == ks[j + 1]);
    }
}

/// A walk head that is one of an ascending key family is its largest
/// member, and no other member equals it.
proof fn lemma_head_is_last_key(ks: Seq<Seq<u8>>, keys: Seq<Seq<u8>>)
    requires
        ks.len() > 0,
        keys.len() > 0,
        forall|a: int, b: int|
            0 <= a < b < ks.len() ==> crate::kvmap::lex_lt(#[trigger] ks[b], #[trigger] ks[a]),
        forall|a: int, b: int|
            0 <= a < b < keys.len() ==> crate::kvmap::lex_lt(
                #[trigger] keys[a],
                #[trigger] keys[b],
            ),
        forall|i: int| 0 <= i < keys.len() ==> ks.contains(#[trigger] keys[i]),
        keys.contains(ks[0]),
    ensures
        ks[0] == keys[keys.len() - 1],
        forall|i: int| 0 <= i < keys.len() - 1 ==> #[trigger] keys[i] != ks[0],
{
    let head = ks[0];
    let i0 = choose|i: int| 0 <= i < keys.len() && keys[i] == head;
    let last = keys.len() - 1;
    if i0 < last {
        assert(crate::kvmap::lex_lt(keys[i0], keys[last]));
        assert(ks.contains(keys[last]));
        let j = choose|j: int| 0 <= j < ks.len() && ks[j] == keys[last];
        if j == 0 {
            crate::kvmap::lemma_lex_irrefl(head);
        } else {
            assert(crate::kvmap::lex_lt(ks[j], ks[0]));
            crate::kvmap::lemma_lex_asymm(head, keys[last]);
        }
    }
    assert(keys[i0] == head && i0 == last);
    assert forall|i: int| 0 <= i < keys.len() - 1 implies #[trigger] keys[i] != ks[0] by {
        if keys[i] == ks[0] {
            assert(crate::kvmap::lex_lt(keys[i], keys[last]));
            crate::kvmap::lemma_lex_irrefl(head);
        }
    }
}

/// The recent-ids law, over the keys themselves: walk any strictly
/// descending key list holding a strictly ascending family of
/// success-index keys — and no other keys of that family — and the
/// collected ids are the keys' ids, newest first.
#[verifier::rlimit(100)]
#[verifier::spinoff_prover]
pub proof fn lemma_recent_ids_reverse(ks: Seq<Seq<u8>>, keys: Seq<Seq<u8>>, ids: Seq<Seq<u8>>)
    requires
        forall|a: int, b: int|
            0 <= a < b < ks.len() ==> crate::kvmap::lex_lt(#[trigger] ks[b], #[trigger] ks[a]),
        keys.len() == ids.len(),
        forall|a: int, b: int|
            0 <= a < b < keys.len() ==> crate::kvmap::lex_lt(
                #[trigger] keys[a],
                #[trigger] keys[b],
            ),
        forall|i: int|
            0 <= i < keys.len() ==> crate::store::succ_id_of(#[trigger] keys[i]) == Some(ids[i]),
        forall|i: int| 0 <= i < keys.len() ==> starts_with(#[trigger] keys[i], succ_prefix()),
        forall|i: int| 0 <= i < ids.len() ==> vstd::utf8::valid_utf8(#[trigger] ids[i]),
        forall|i: int| 0 <= i < keys.len() ==> ks.contains(#[trigger] keys[i]),
        forall|j: int|
            0 <= j < ks.len() && starts_with(#[trigger] ks[j], succ_prefix()) ==> keys.contains(
                ks[j],
            ),
    ensures
        crate::store::collect_succ_ids(ks, ids.len()) == ids.reverse(),
    decreases ks.len(),
{
    if ks.len() == 0 {
        if keys.len() > 0 {
            assert(ks.contains(keys[0]));
            let j = choose|j: int| 0 <= j < ks.len() && ks[j] == keys[0];
        }
        assert(keys.len() == 0);
        assert(crate::store::collect_succ_ids(ks, 0) =~= ids.reverse());
    } else {
        let head = ks[0];
        let tail = ks.drop_first();
        assert(forall|a: int, b: int|
            0 <= a < b < tail.len() ==> crate::kvmap::lex_lt(
                #[trigger] tail[b],
                #[trigger] tail[a],
            ));
        if !starts_with(head, succ_prefix()) {
            assert(crate::store::succ_id_of(head) is None);
            assert(crate::store::collect_succ_ids(ks, ids.len())
                == crate::store::collect_succ_ids(tail, ids.len()));
            assert forall|i: int| 0 <= i < keys.len() implies #[trigger] keys[i] != head by {
                if keys[i] == head {
                    assert(starts_with(keys[i], succ_prefix()));
                }
            }
            lemma_keys_into_tail(ks, keys);
            lemma_succ_into_tail(ks, keys);
            lemma_recent_ids_reverse(tail, keys, ids);
        } else {
            assert(keys.contains(head));
            assert(keys.len() > 0) by {
                let i = choose|i: int| 0 <= i < keys.len() && keys[i] == head;
            }
            lemma_head_is_last_key(ks, keys);
            let last = keys.len() - 1;
            assert(crate::store::succ_id_of(head) == Some(ids[last]));
            assert(vstd::utf8::valid_utf8(ids[last]));
            assert(crate::store::collect_succ_ids(ks, ids.len()) == seq![ids[last]]
                + crate::store::collect_succ_ids(tail, (ids.len() - 1) as nat));
            let keys2 = keys.drop_last();
            let ids2 = ids.drop_last();
            assert(forall|i: int| 0 <= i < keys2.len() ==> #[trigger] keys2[i] == keys[i]);
            assert(forall|i: int| 0 <= i < keys2.len() ==> #[trigger] keys2[i] != head);
            assert forall|i: int| 0 <= i < keys2.len() implies ks.contains(
                #[trigger] keys2[i],
            ) by {
                assert(ks.contains(keys[i]));
            }
            lemma_keys_into_tail(ks, keys2);
            assert forall|j: int|
                0 <= j < ks.len() && starts_with(#[trigger] ks[j], succ_prefix()) && j
                    > 0 implies keys2.contains(ks[j]) by {
                assert(keys.contains(ks[j]));
                let i = choose|i: int| 0 <= i < keys.len() && keys[i] == ks[j];
                assert(i != last) by {
                    if i == last {
                        assert(ks[j] == head);
                        assert(crate::kvmap::lex_lt(ks[j], ks[0]));
                        crate::kvmap::lemma_lex_irrefl(head);
                    }
                }
                assert(keys2[i] == ks[j]);
            }
            assert forall|j: int|
                0 <= j < tail.len() && starts_with(
                    #[trigger] tail[j],
                    succ_prefix(),
                ) implies keys2.contains(tail[j]) by {
                assert(tail[j] == ks[j + 1]);
            }
            lemma_recent_ids_reverse(tail, keys2, ids2);
            assert(seq![ids[last]] + ids2.reverse() =~= ids.reverse()) by {
                assert(forall|t: int|
                    0 <= t < ids2.len() ==> #[trigger] ids2.reverse()[t] == ids2[ids2.len() - 1
                        - t]);
                assert(forall|t: int|
                    0 <= t < ids.len() ==> #[trigger] ids.reverse()[t] == ids[ids.len() - 1 - t]);
            }
            assert(crate::store::collect_succ_ids(ks, ids.len()) =~= ids.reverse());
        }
    }
}

/// The recent-ids law over marks: deliveries recorded at strictly
/// increasing times come back newest first from any complete
/// descending walk of the keyspace — and a keyspace has exactly one
/// such walk, so this pins down what `load_recent_success_ids`
/// returns after a run of marks.
#[verifier::rlimit(50)]
#[verifier::spinoff_prover]
pub proof fn lemma_recent_marks_reverse(ks: Seq<Seq<u8>>, ts: Seq<u64>, ids: Seq<Seq<u8>>)
    requires
        forall|a: int, b: int|
            0 <= a < b < ks.len() ==> crate::kvmap::lex_lt(#[trigger] ks[b], #[trigger] ks[a]),
        ts.len() == ids.len(),
        forall|a: int, b: int| 0 <= a < b < ts.len() ==> #[trigger] ts[a] < #[trigger] ts[b],
        forall|i: int| 0 <= i < ids.len() ==> vstd::utf8::valid_utf8(#[trigger] ids[i]),
        forall|i: int| 0 <= i < ts.len() ==> ks.contains(succ_key(#[trigger] ts[i], ids[i])),
        forall|j: int|
            0 <= j < ks.len() && starts_with(#[trigger] ks[j], succ_prefix()) ==> exists|i: int|
                0 <= i < ts.len() && ks[j] == succ_key(ts[i], ids[i]),
    ensures
        crate::store::collect_succ_ids(ks, ids.len()) == ids.reverse(),
{
    let keys = Seq::new(ts.len(), |i: int| succ_key(ts[i], ids[i]));
    assert forall|a: int, b: int| 0 <= a < b < keys.len() implies crate::kvmap::lex_lt(
        #[trigger] keys[a],
        #[trigger] keys[b],
    ) by {
        crate::store::lemma_succ_key_order(ts[a], ids[a], ts[b], ids[b]);
    }
    assert forall|i: int| 0 <= i < keys.len() implies crate::store::succ_id_of(#[trigger] keys[i])
        == Some(ids[i]) by {
        crate::store::lemma_succ_id_of_key(ts[i], ids[i]);
    }
    assert forall|i: int| 0 <= i < keys.len() implies starts_with(
        #[trigger] keys[i],
        succ_prefix(),
    ) by {
        lemma_starts_with_succ(ts[i], ids[i]);
    }
    assert forall|i: int| 0 <= i < keys.len() implies ks.contains(#[trigger] keys[i]) by {
        assert(ks.contains(succ_key(ts[i], ids[i])));
    }
    assert forall|j: int|
        0 <= j < ks.len() && starts_with(#[trigger] ks[j], succ_prefix()) implies keys.contains(
        ks[j],
    ) by {
        let i = choose|i: int| 0 <= i < ts.len() && ks[j] == succ_key(ts[i], ids[i]);
        assert(keys[i] == ks[j]);
    }
    lemma_recent_ids_reverse(ks, keys, ids);
}

/// A success-index key carries its family tag.
pub proof fn lemma_starts_with_succ(ts: u64, id: Seq<u8>)
    ensures
        starts_with(succ_key(ts, id), succ_prefix()),
{
    crate::store::lemma_digs16_len(ts as nat, 16);
    assert(succ_key(ts, id).take(5) =~= succ_prefix());
}

} // verus!
