use vstd::prelude::*;

verus! {

use crate::event::clone_bytes;

/// Strict lexicographic order on byte sequences, the order an embedded
/// key-value store keeps its keyspace in.
pub open spec fn lex_lt(a: Seq<u8>, b: Seq<u8>) -> bool
    decreases a.len(),
{
    if b.len() == 0 {
        false
    } else if a.len() == 0 {
        true
    } else if a[0] < b[0] {
        true
    } else if a[0] > b[0] {
        false
    } else {
        lex_lt(a.drop_first(), b.drop_first())
    }
}

pub proof fn lemma_lex_irrefl(a: Seq<u8>)
    ensures
        !lex_lt(a, a),
    decreases a.len(),
{
    if a.len() > 0 {
        lemma_lex_irrefl(a.drop_first());
    }
}

pub proof fn lemma_lex_trichotomy(a: Seq<u8>, b: Seq<u8>)
    ensures
        lex_lt(a, b) || lex_lt(b, a) || a == b,
    decreases a.len(),
{
    if a.len() == 0 && b.len() == 0 {
        assert(a =~= b);
    } else if a.len() > 0 && b.len() > 0 && a[0] == b[0] {
        lemma_lex_trichotomy(a.drop_first(), b.drop_first());
        if a.drop_first() == b.drop_first() {
            assert(a.drop_first().len() == b.drop_first().len());
            assert(a =~= b) by {
                assert(forall|i: int|
                    1 <= i < a.len() ==> a[i] == a.drop_first()[i - 1] && b[i] == b.drop_first()[i
                        - 1]);
            }
        }
    }
}

pub proof fn lemma_lex_asymm(a: Seq<u8>, b: Seq<u8>)
    requires
        lex_lt(a, b),
    ensures
        !lex_lt(b, a),
        a != b,
    decreases a.len(),
{
    lemma_lex_irrefl(a);
    if a.len() > 0 && b.len() > 0 && a[0] == b[0] {
        lemma_lex_asymm(a.drop_first(), b.drop_first());
    }
}

pub proof fn lemma_lex_trans(a: Seq<u8>, b: Seq<u8>, c: Seq<u8>)
    requires
        lex_lt(a, b),
        lex_lt(b, c),
    ensures
        lex_lt(a, c),
    decreases a.len() + b.len() + c.len(),
{
    if b.len() == 0 {
    } else if a.len() == 0 {
    } else if c.len() == 0 {
    } else {
        if a[0] == b[0] && b[0] == c[0] {
            lemma_lex_trans(a.drop_first(), b.drop_first(), c.drop_first());
        }
    }
}

/// Sequences sharing a prefix compare by what follows it.
pub proof fn lemma_lex_prefix(p: Seq<u8>, a: Seq<u8>, b: Seq<u8>)
    ensures
        lex_lt(p + a, p + b) == lex_lt(a, b),
    decreases p.len(),
{
    if p.len() == 0 {
        assert(p + a =~= a);
        assert(p + b =~= b);
    } else {
        assert((p + a).len() > 0 && (p + b).len() > 0);
        assert((p + a)[0] == p[0] && (p + b)[0] == p[0]);
        assert((p + a).drop_first() =~= p.drop_first() + a);
        assert((p + b).drop_first() =~= p.drop_first() + b);
        lemma_lex_prefix(p.drop_first(), a, b);
    }
}

/// Equality test on byte vectors.
pub fn bytes_eq(a: &Vec<u8>, b: &Vec<u8>) -> (r: bool)
    ensures
        r <==> a@ == b@,
{
    if a.len() != b.len() {
        proof {
            assert(a@.len() != b@.len());
        }
        return false;
    }
    let mut i: usize = 0;
    while i < a.len()
        invariant
            a@.len() == b@.len(),
            i <= a@.len(),
            forall|t: int| 0 <= t < i ==> a@[t] == b@[t],
        decreases a@.len() - i,
    {
        if a[i] != b[i] {
            return false;
        }
        i = i + 1;
    }
    proof {
        assert(a@ =~= b@);
    }
    true
}

/// Executable strict lexicographic comparison.
pub fn lex_lt_exec(a: &Vec<u8>, b: &Vec<u8>) -> (r: bool)
    ensures
        r == lex_lt(a@, b@),
{
    let mut i: usize = 0;
    proof {
        assert(a@.skip(0) =~= a@);
        assert(b@.skip(0) =~= b@);
    }
    loop
        invariant
            i <= a@.len(),
            i <= b@.len(),
            lex_lt(a@, b@) == lex_lt(a@.skip(i as int), b@.skip(i as int)),
        decreases a@.len() - i,
    {
        if i >= b.len() {
            proof {
                assert(b@.skip(i as int).len() == 0);
            }
            return false;
        }
        if i >= a.len() {
            proof {
                assert(a@.skip(i as int).len() == 0);
                assert(b@.skip(i as int).len() > 0);
            }
            return true;
        }
        let x = a[i];
        let y = b[i];
        proof {
            assert(a@.skip(i as int)[0] == a@[i as int]);
            assert(b@.skip(i as int)[0] == b@[i as int]);
        }
        if x < y {
            return true;
        }
        if x > y {
            return false;
        }
        proof {
            assert(a@.skip(i as int).drop_first() =~= a@.skip(i + 1));
            assert(b@.skip(i as int).drop_first() =~= b@.skip(i + 1));
        }
        i = i + 1;
    }
}

pub struct MapEntry {
    pub key: Vec<u8>,
    pub val: Vec<u8>,
}

/// The keyspace a run of entries holds, as a mathematical map.
pub open spec fn as_map_of(s: Seq<MapEntry>) -> Map<Seq<u8>, Seq<u8>>
    decreases s.len(),
{
    if s.len() == 0 {
        Map::empty()
    } else {
        as_map_of(s.drop_last()).insert(s.last().key@, s.last().val@)
    }
}

/// Entries strictly ascending by key, as an embedded store keeps them.
pub open spec fn entries_sorted(s: Seq<MapEntry>) -> bool {
    forall|i: int, j: int|
        0 <= i < j < s.len() ==> lex_lt((#[trigger] s[i]).key@, (#[trigger] s[j]).key@)
}

pub proof fn lemma_sorted_distinct(s: Seq<MapEntry>, i: int, j: int)
    requires
        entries_sorted(s),
        0 <= i < s.len(),
        0 <= j < s.len(),
        i != j,
    ensures
        s[i].key@ != s[j].key@,
{
    if i < j {
        lemma_lex_asymm(s[i].key@, s[j].key@);
    } else {
        lemma_lex_asymm(s[j].key@, s[i].key@);
    }
}

pub proof fn lemma_as_map_dom(s: Seq<MapEntry>)
    ensures
        forall|k: Seq<u8>|
            as_map_of(s).dom().contains(k) <==> exists|i: int|
                0 <= i < s.len() && (#[trigger] s[i]).key@ == k,
        as_map_of(s).dom().finite(),
    decreases s.len(),
{
    if s.len() == 0 {
    } else {
        lemma_as_map_dom(s.drop_last());
        assert forall|k: Seq<u8>| as_map_of(s).dom().contains(k) implies exists|i: int|
            0 <= i < s.len() && (#[trigger] s[i]).key@ == k by {
            if k == s.last().key@ {
                assert(s[s.len() - 1].key@ == k);
            } else {
                assert(as_map_of(s.drop_last()).dom().contains(k));
                let i = choose|i: int|
                    0 <= i < s.drop_last().len() && (#[trigger] s.drop_last()[i]).key@ == k;
                assert(s[i].key@ == k);
            }
        }
        assert forall|k: Seq<u8>|
            exists|i: int| 0 <= i < s.len() && (#[trigger] s[i]).key@ == k implies as_map_of(
            s,
        ).dom().contains(k) by {
            let i = choose|i: int| 0 <= i < s.len() && (#[trigger] s[i]).key@ == k;
            if i == s.len() - 1 {
            } else {
                assert(s.drop_last()[i].key@ == k);
            }
        }
    }
}

pub proof fn lemma_as_map_get(s: Seq<MapEntry>, i: int)
    requires
        entries_sorted(s),
        0 <= i < s.len(),
    ensures
        as_map_of(s).dom().contains(s[i].key@),
        as_map_of(s)[s[i].key@] == s[i].val@,
    decreases s.len(),
{
    if i == s.len() - 1 {
    } else {
        assert(s.drop_last()[i] == s[i]);
        assert(entries_sorted(s.drop_last())) by {
            assert(forall|a: int, b: int|
                0 <= a < b < s.drop_last().len() ==> s.drop_last()[a] == s[a] && s.drop_last()[b]
                    == s[b]);
        }
        lemma_as_map_get(s.drop_last(), i);
        lemma_sorted_distinct(s, i, s.len() - 1);
    }
}

pub proof fn lemma_as_map_update(s: Seq<MapEntry>, i: int, e: MapEntry)
    requires
        entries_sorted(s),
        0 <= i < s.len(),
        e.key@ == s[i].key@,
    ensures
        as_map_of(s.update(i, e)) == as_map_of(s).insert(e.key@, e.val@),
        entries_sorted(s.update(i, e)),
    decreases s.len(),
{
    let s2 = s.update(i, e);
    assert(forall|t: int| 0 <= t < s.len() && t != i ==> s2[t] == s[t]);
    assert(s2[i].key@ == s[i].key@);
    assert(entries_sorted(s2)) by {
        assert(forall|a: int, b: int|
            0 <= a < b < s2.len() ==> (#[trigger] s2[a]).key@ == s[a].key@ && (#[trigger] s2[b]).key@
                == s[b].key@);
    }
    if i == s.len() - 1 {
        assert(s2.drop_last() =~= s.drop_last());
        assert(s2.last() == e);
        assert(as_map_of(s.drop_last()).insert(e.key@, e.val@) =~= as_map_of(s.drop_last()).insert(
            s.last().key@,
            s.last().val@,
        ).insert(e.key@, e.val@));
    } else {
        assert(s2.drop_last() =~= s.drop_last().update(i, e));
        assert(s2.last() == s.last());
        assert(s.drop_last()[i] == s[i]);
        assert(entries_sorted(s.drop_last())) by {
            assert(forall|a: int, b: int|
                0 <= a < b < s.drop_last().len() ==> s.drop_last()[a] == s[a] && s.drop_last()[b]
                    == s[b]);
        }
        lemma_as_map_update(s.drop_last(), i, e);
        lemma_sorted_distinct(s, i, s.len() - 1);
        assert(as_map_of(s.drop_last()).insert(e.key@, e.val@).insert(s.last().key@, s.last().val@)
            =~= as_map_of(s.drop_last()).insert(s.last().key@, s.last().val@).insert(
            e.key@,
            e.val@,
        ));
    }
}

pub proof fn lemma_as_map_insert_at(s: Seq<MapEntry>, i: int, e: MapEntry)
    requires
        forall|t: int| 0 <= t < s.len() ==> (#[trigger] s[t]).key@ != e.key@,
        0 <= i <= s.len(),
    ensures
        as_map_of(s.insert(i, e)) == as_map_of(s).insert(e.key@, e.val@),
    decreases s.len(),
{
    let s2 = s.insert(i, e);
    if i == s.len() {
        assert(s2.drop_last() =~= s);
        assert(s2.last() == e);
    } else {
        assert(s2.len() == s.len() + 1);
        assert(s2.last() == s.last());
        assert(s2.drop_last() =~= s.drop_last().insert(i, e)) by {
            assert(forall|t: int| 0 <= t < i ==> s2[t] == s[t]);
            assert(s2[i] == e);
            assert(forall|t: int| i < t < s2.len() ==> s2[t] == s[t - 1]);
        }
        assert(forall|t: int|
            0 <= t < s.drop_last().len() ==> (#[trigger] s.drop_last()[t]).key@ != e.key@);
        lemma_as_map_insert_at(s.drop_last(), i, e);
        assert(s.last().key@ != e.key@);
        assert(as_map_of(s.drop_last()).insert(e.key@, e.val@).insert(s.last().key@, s.last().val@)
            =~= as_map_of(s.drop_last()).insert(s.last().key@, s.last().val@).insert(
            e.key@,
            e.val@,
        ));
    }
}

pub proof fn lemma_as_map_remove(s: Seq<MapEntry>, i: int)
    requires
        entries_sorted(s),
        0 <= i < s.len(),
    ensures
        as_map_of(s.remove(i)) == as_map_of(s).remove(s[i].key@),
        entries_sorted(s.remove(i)),
    decreases s.len(),
{
    let s2 = s.remove(i);
    assert(forall|t: int| 0 <= t < i ==> s2[t] == s[t]);
    assert(forall|t: int| i <= t < s2.len() ==> s2[t] == s[t + 1]);
    assert(entries_sorted(s2)) by {
        assert forall|a: int, b: int| 0 <= a < b < s2.len() implies lex_lt(
            (#[trigger] s2[a]).key@,
            (#[trigger] s2[b]).key@,
        ) by {
            let a2: int = if a < i {
                a
            } else {
                a + 1
            };
            let b2: int = if b < i {
                b
            } else {
                b + 1
            };
            assert(s2[a] == s[a2] && s2[b] == s[b2]);
            assert(lex_lt(s[a2].key@, s[b2].key@));
        }
    }
    if i == s.len() - 1 {
        assert(s2 =~= s.drop_last());
        lemma_as_map_dom(s.drop_last());
        assert(!as_map_of(s.drop_last()).dom().contains(s[i].key@)) by {
            if as_map_of(s.drop_last()).dom().contains(s[i].key@) {
                let j = choose|j: int|
                    0 <= j < s.drop_last().len() && (#[trigger] s.drop_last()[j]).key@ == s[i].key@;
                assert(s[j].key@ == s[i].key@);
                lemma_sorted_distinct(s, j, i);
            }
        }
        assert(as_map_of(s2) =~= as_map_of(s).remove(s[i].key@));
    } else {
        assert(s2.drop_last() =~= s.drop_last().remove(i));
        assert(s2.last() == s.last());
        assert(s.drop_last()[i] == s[i]);
        assert(entries_sorted(s.drop_last())) by {
            assert(forall|a: int, b: int|
                0 <= a < b < s.drop_last().len() ==> s.drop_last()[a] == s[a] && s.drop_last()[b]
                    == s[b]);
        }
        lemma_as_map_remove(s.drop_last(), i);
        lemma_sorted_distinct(s, i, s.len() - 1);
        assert(as_map_of(s.drop_last()).remove(s[i].key@).insert(s.last().key@, s.last().val@)
            =~= as_map_of(s.drop_last()).insert(s.last().key@, s.last().val@).remove(s[i].key@));
    }
}

pub proof fn lemma_as_map_card(s: Seq<MapEntry>)
    requires
        entries_sorted(s),
    ensures
        as_map_of(s).dom().finite(),
        as_map_of(s).dom().len() == s.len(),
    decreases s.len(),
{
    if s.len() == 0 {
    } else {
        assert(entries_sorted(s.drop_last())) by {
            assert(forall|a: int, b: int|
                0 <= a < b < s.drop_last().len() ==> s.drop_last()[a] == s[a] && s.drop_last()[b]
                    == s[b]);
        }
        lemma_as_map_card(s.drop_last());
        lemma_as_map_dom(s.drop_last());
        assert(!as_map_of(s.drop_last()).dom().contains(s.last().key@)) by {
            if as_map_of(s.drop_last()).dom().contains(s.last().key@) {
                let j = choose|j: int|
                    0 <= j < s.drop_last().len() && (#[trigger] s.drop_last()[j]).key@
                        == s.last().key@;
                assert(s[j].key@ == s[s.len() - 1].key@);
                lemma_sorted_distinct(s, j, s.len() - 1);
            }
        }
        assert(as_map_of(s).dom() =~= as_map_of(s.drop_last()).dom().insert(s.last().key@));
    }
}

/// An exact in-memory keyspace: byte keys kept in ascending
/// lexicographic order, byte values. It stands where the embedded
/// store's single keyspace stood.
pub struct ByteMap {
    entries: Vec<MapEntry>,
}

impl View for ByteMap {
    type V = Map<Seq<u8>, Seq<u8>>;

    closed spec fn view(&self) -> Map<Seq<u8>, Seq<u8>> {
        as_map_of(self.entries@)
    }
}

impl ByteMap {
    pub closed spec fn wf(self) -> bool {
        entries_sorted(self.entries@)
    }

    pub fn new() -> (r: ByteMap)
        ensures
            r.wf(),
            r@ == Map::<Seq<u8>, Seq<u8>>::empty(),
            r@.dom().finite(),
    {
        let r = ByteMap { entries: Vec::new() };
        proof {
            lemma_as_map_dom(r.entries@);
        }
        r
    }

    pub proof fn lemma_finite(self)
        requires
            self.wf(),
        ensures
            self@.dom().finite(),
    {
        lemma_as_map_card(self.entries@);
    }

    /// First position whose key is not below `k`; all earlier keys are
    /// strictly below `k`.
    fn lower_bound(&self, k: &Vec<u8>) -> (r: usize)
        requires
            self.wf(),
        ensures
            r <= self.entries@.len(),
            forall|t: int| 0 <= t < r ==> lex_lt((#[trigger] self.entries@[t]).key@, k@),
            r < self.entries@.len() ==> !lex_lt(self.entries@[r as int].key@, k@),
    {
        let mut i: usize = 0;
        loop
            invariant
                self.wf(),
                i <= self.entries@.len(),
                forall|t: int| 0 <= t < i ==> lex_lt((#[trigger] self.entries@[t]).key@, k@),
            decreases self.entries@.len() - i,
        {
            if i >= self.entries.len() {
                return i;
            }
            if !lex_lt_exec(&self.entries[i].key, k) {
                return i;
            }
            i = i + 1;
        }
    }

    pub fn contains_key(&self, k: &Vec<u8>) -> (r: bool)
        requires
            self.wf(),
        ensures
            r == self@.dom().contains(k@),
    {
        proof {
            lemma_as_map_dom(self.entries@);
        }
        let i = self.lower_bound(k);
        if i < self.entries.len() && bytes_eq(&self.entries[i].key, k) {
            proof {
                assert(self.entries@[i as int].key@ == k@);
            }
            true
        } else {
            proof {
                assert forall|t: int| 0 <= t < self.entries@.len() implies (
                #[trigger] self.entries@[t]).key@ != k@ by {
                    if t < i {
                        lemma_lex_asymm(self.entries@[t].key@, k@);
                    } else if t == i {
                    } else {
                        assert(lex_lt(self.entries@[i as int].key@, self.entries@[t].key@));
                        lemma_lex_trichotomy(self.entries@[i as int].key@, k@);
                        assert(lex_lt(k@, self.entries@[i as int].key@) || self.entries@[i as int].key@ == k@);
                        if lex_lt(k@, self.entries@[i as int].key@) {
                            lemma_lex_trans(k@, self.entries@[i as int].key@, self.entries@[t].key@);
                            lemma_lex_asymm(k@, self.entries@[t].key@);
                        }
                    }
                }
            }
            false
        }
    }

    pub fn get(&self, k: &Vec<u8>) -> (r: Option<Vec<u8>>)
        requires
            self.wf(),
        ensures
            r is Some <==> self@.dom().contains(k@),
            r matches Some(v) ==> v@ == self@[k@],
    {
        proof {
            lemma_as_map_dom(self.entries@);
        }
        let i = self.lower_bound(k);
        if i < self.entries.len() && bytes_eq(&self.entries[i].key, k) {
            proof {
                lemma_as_map_get(self.entries@, i as int);
            }
            Some(clone_bytes(&self.entries[i].val))
        } else {
            proof {
                assert forall|t: int| 0 <= t < self.entries@.len() implies (
                #[trigger] self.entries@[t]).key@ != k@ by {
                    if t < i {
                        lemma_lex_asymm(self.entries@[t].key@, k@);
                    } else if t == i {
                    } else {
                        assert(lex_lt(self.entries@[i as int].key@, self.entries@[t].key@));
                        lemma_lex_trichotomy(self.entries@[i as int].key@, k@);
                        if lex_lt(k@, self.entries@[i as int].key@) {
                            lemma_lex_trans(k@, self.entries@[i as int].key@, self.entries@[t].key@);
                            lemma_lex_asymm(k@, self.entries@[t].key@);
                        }
                    }
                }
            }
            None
        }
    }

    pub fn insert(&mut self, k: Vec<u8>, v: Vec<u8>)
        requires
            old(self).wf(),
        ensures
            final(self).wf(),
            final(self)@ == old(self)@.insert(k@, v@),
    {
        let i = self.lower_bound(&k);
        let ghost s0 = self.entries@;
        if i < self.entries.len() && bytes_eq(&self.entries[i].key, &k) {
            self.entries.set(i, MapEntry { key: k, val: v });
            proof {
                lemma_as_map_update(s0, i as int, self.entries@[i as int]);
            }
        } else {
            proof {
                assert forall|t: int| 0 <= t < s0.len() implies (#[trigger] s0[t]).key@ != k@ by {
                    if t < i {
                        lemma_lex_asymm(s0[t].key@, k@);
                    } else if t == i {
                    } else {
                        assert(lex_lt(s0[i as int].key@, s0[t].key@));
                        lemma_lex_trichotomy(s0[i as int].key@, k@);
                        if lex_lt(k@, s0[i as int].key@) {
                            lemma_lex_trans(k@, s0[i as int].key@, s0[t].key@);
                            lemma_lex_asymm(k@, s0[t].key@);
                        }
                    }
                }
            }
            self.entries.insert(i, MapEntry { key: k, val: v });
            proof {
                let s2 = self.entries@;
                lemma_as_map_insert_at(s0, i as int, s2[i as int]);
                assert(s0.insert(i as int, s2[i as int]) =~= s2);
                assert(entries_sorted(s2)) by {
                    assert forall|a: int, b: int| 0 <= a < b < s2.len() implies lex_lt(
                        (#[trigger] s2[a]).key@,
                        (#[trigger] s2[b]).key@,
                    ) by {
                        if b < i {
                            assert(s2[a] == s0[a] && s2[b] == s0[b]);
                        } else if a == i && b > i {
                            assert(s2[b] == s0[b - 1]);
                            assert(b - 1 >= i);
                            assert(!lex_lt(s0[i as int].key@, k@));
                            lemma_lex_trichotomy(s0[i as int].key@, k@);
                            assert(lex_lt(k@, s0[i as int].key@));
                            if b - 1 > i {
                                assert(lex_lt(s0[i as int].key@, s0[b - 1].key@));
                                lemma_lex_trans(k@, s0[i as int].key@, s0[b - 1].key@);
                            }
                        } else if b == i {
                            assert(s2[a] == s0[a]);
                            assert(lex_lt(s0[a].key@, k@));
                        } else if a < i && b > i {
                            assert(s2[a] == s0[a] && s2[b] == s0[b - 1]);
                            if b - 1 == i {
                                assert(lex_lt(s0[a].key@, k@));
                                assert(!lex_lt(s0[i as int].key@, k@));
                                lemma_lex_trichotomy(s0[i as int].key@, k@);
                                lemma_lex_trans(s0[a].key@, k@, s0[i as int].key@);
                            } else {
                                assert(lex_lt(s0[a].key@, s0[b - 1].key@));
                            }
                        } else {
                            assert(s2[a] == s0[a - 1] && s2[b] == s0[b - 1]);
                            assert(lex_lt(s0[a - 1].key@, s0[b - 1].key@));
                        }
                    }
                }
            }
        }
    }

    pub fn remove(&mut self, k: &Vec<u8>)
        requires
            old(self).wf(),
        ensures
            final(self).wf(),
            final(self)@ == old(self)@.remove(k@),
    {
        proof {
            lemma_as_map_dom(self.entries@);
        }
        let i = self.lower_bound(k);
        let ghost s0 = self.entries@;
        if i < self.entries.len() && bytes_eq(&self.entries[i].key, k) {
            self.entries.remove(i);
            proof {
                lemma_as_map_remove(s0, i as int);
                assert(self.entries@ =~= s0.remove(i as int));
            }
        } else {
            proof {
                assert forall|t: int| 0 <= t < s0.len() implies (#[trigger] s0[t]).key@ != k@ by {
                    if t < i {
                        lemma_lex_asymm(s0[t].key@, k@);
                    } else if t == i {
                    } else {
                        assert(lex_lt(s0[i as int].key@, s0[t].key@));
                        lemma_lex_trichotomy(s0[i as int].key@, k@);
                        if lex_lt(k@, s0[i as int].key@) {
                            lemma_lex_trans(k@, s0[i as int].key@, s0[t].key@);
                            lemma_lex_asymm(k@, s0[t].key@);
                        }
                    }
                }
                assert(!self@.dom().contains(k@));
                assert(self@.remove(k@) =~= self@);
            }
        }
    }

    pub fn len(&self) -> (r: usize)
        requires
            self.wf(),
        ensures
            r == self@.dom().len(),
    {
        proof {
            lemma_as_map_card(self.entries@);
        }
        self.entries.len()
    }

    /// All keys in strictly descending lexicographic order, one for
    /// each key the map holds — the reverse scan of the keyspace.
    pub fn keys_desc(&self) -> (r: Vec<Vec<u8>>)
        requires
            self.wf(),
        ensures
            r@.len() == self@.dom().len(),
            forall|i: int| 0 <= i < r@.len() ==> self@.dom().contains((#[trigger] r@[i])@),
            forall|i: int, j: int| 0 <= i < j < r@.len() ==> lex_lt(r@[j]@, r@[i]@),
            forall|k: Seq<u8>|
                self@.dom().contains(k) ==> exists|i: int|
                    0 <= i < r@.len() && (#[trigger] r@[i])@ == k,
    {
        proof {
            lemma_as_map_dom(self.entries@);
            lemma_as_map_card(self.entries@);
        }
        let n = self.entries.len();
        let mut out: Vec<Vec<u8>> = Vec::new();
        let mut t: usize = 0;
        while t < n
            invariant
                self.wf(),
                n == self.entries@.len(),
                t <= n,
                out@.len() == t,
                forall|i: int| 0 <= i < t ==> (#[trigger] out@[i])@ == self.entries@[n - 1 - i].key@,
            decreases n - t,
        {
            out.push(clone_bytes(&self.entries[n - 1 - t].key));
            t = t + 1;
        }
        proof {
            assert forall|i: int, j: int| 0 <= i < j < out@.len() implies lex_lt(
                out@[j]@,
                out@[i]@,
            ) by {
                assert(out@[i]@ == self.entries@[n - 1 - i].key@);
                assert(out@[j]@ == self.entries@[n - 1 - j].key@);
                assert(lex_lt(self.entries@[n - 1 - j].key@, self.entries@[n - 1 - i].key@));
            }
            assert forall|k: Seq<u8>| self@.dom().contains(k) implies exists|i: int|
                0 <= i < out@.len() && (#[trigger] out@[i])@ == k by {
                let e = choose|e: int|
                    0 <= e < self.entries@.len() && (#[trigger] self.entries@[e]).key@ == k;
                assert(out@[n - 1 - e]@ == k);
            }
            assert forall|i: int| 0 <= i < out@.len() implies self@.dom().contains(
                (#[trigger] out@[i])@,
            ) by {
                assert(self.entries@[n - 1 - i].key@ == out@[i]@);
            }
        }
        out
    }
}

} // verus!
