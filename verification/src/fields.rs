//! Deduplication fields: an ordered mapping from string keys to string
//! values, kept sorted by the UTF-8 bytes of the keys with no duplicate key.
//!
//! Keeping the entries in sorted order makes the representation canonical:
//! two field sets holding the same key-value pairs are identical sequences,
//! whatever order the pairs were inserted in. The fingerprint therefore only
//! depends on the mapping itself.

use vstd::prelude::*;
use vstd::utf8::encode_utf8;
use crate::bytes::{
    lex_lt,
    lex_cmp,
    lemma_lex_lt_irreflexive,
    lemma_lex_lt_asymmetric,
    lemma_lex_lt_connected,
    lemma_lex_lt_transitive,
};
use crate::text::lemma_encode_utf8_injective;

verus! {

/// An ordered mapping of deduplication fields.
pub struct PdIssueFields {
    entries: Vec<(String, String)>,
}

impl View for PdIssueFields {
    type V = Seq<(Seq<char>, Seq<char>)>;

    closed spec fn view(&self) -> Seq<(Seq<char>, Seq<char>)> {
        Seq::new(self.entries@.len(), |i: int| (self.entries@[i].0@, self.entries@[i].1@))
    }
}

/// The UTF-8 bytes of an entry's key, which give the sort order.
pub open spec fn key_bytes(e: (Seq<char>, Seq<char>)) -> Seq<u8> {
    encode_utf8(e.0)
}

/// Entries are strictly sorted by key bytes (and keys therefore unique).
pub open spec fn fields_wf(s: Seq<(Seq<char>, Seq<char>)>) -> bool {
    forall|i: int, j: int|
        0 <= i < j < s.len() ==> #[trigger] lex_lt(key_bytes(s[i]), key_bytes(s[j]))
}

/// Whether some entry of `s` carries the key `k`.
pub open spec fn has_key(s: Seq<(Seq<char>, Seq<char>)>, k: Seq<char>) -> bool {
    exists|i: int| 0 <= i < s.len() && (#[trigger] s[i]).0 == k
}

/// The entries folded into a key-value map, later entries winning.
pub open spec fn seq_to_map(s: Seq<(Seq<char>, Seq<char>)>) -> Map<Seq<char>, Seq<char>>
    decreases s.len(),
{
    if s.len() == 0 {
        Map::empty()
    } else {
        seq_to_map(s.drop_last()).insert(s.last().0, s.last().1)
    }
}

/// Sorted entries have pairwise distinct keys.
pub proof fn lemma_wf_distinct(s: Seq<(Seq<char>, Seq<char>)>)
    requires
        fields_wf(s),
    ensures
        forall|i: int, j: int|
            0 <= i < s.len() && 0 <= j < s.len() && i != j ==> (#[trigger] s[i]).0 != (
            #[trigger] s[j]).0,
{
    assert forall|i: int, j: int|
        0 <= i < s.len() && 0 <= j < s.len() && i != j implies (#[trigger] s[i]).0 != (
    #[trigger] s[j]).0 by {
        if i < j {
            assert(lex_lt(key_bytes(s[i]), key_bytes(s[j])));
            if s[i].0 == s[j].0 {
                lemma_lex_lt_irreflexive(key_bytes(s[i]));
            }
        } else {
            assert(lex_lt(key_bytes(s[j]), key_bytes(s[i])));
            if s[i].0 == s[j].0 {
                lemma_lex_lt_irreflexive(key_bytes(s[i]));
            }
        }
    }
}

/// The domain of the folded map is exactly the set of keys.
proof fn lemma_seq_to_map_dom(s: Seq<(Seq<char>, Seq<char>)>)
    ensures
        forall|k: Seq<char>| #[trigger] seq_to_map(s).dom().contains(k) <==> has_key(s, k),
    decreases s.len(),
{
    if s.len() > 0 {
        let d = s.drop_last();
        lemma_seq_to_map_dom(d);
        assert forall|k: Seq<char>| #[trigger] seq_to_map(s).dom().contains(k) implies has_key(
            s,
            k,
        ) by {
            if k == s.last().0 {
                assert(0 <= s.len() - 1 < s.len() && s[s.len() - 1].0 == k);
            } else {
                assert(seq_to_map(d).dom().contains(k));
                assert(has_key(d, k));
                let i = choose|i: int| 0 <= i < d.len() && (#[trigger] d[i]).0 == k;
                assert(s[i] == d[i]);
                assert(s[i].0 == k);
            }
        }
        assert forall|k: Seq<char>| has_key(s, k) implies #[trigger] seq_to_map(s).dom().contains(
            k,
        ) by {
            let i = choose|i: int| 0 <= i < s.len() && (#[trigger] s[i]).0 == k;
            if i == s.len() - 1 {
            } else {
                assert(0 <= i < d.len() && d[i].0 == k);
                assert(has_key(d, k));
                assert(seq_to_map(d).dom().contains(k));
            }
        }
    }
}

/// With distinct keys, the folded map sends each key to its entry's value.
proof fn lemma_seq_to_map_values(s: Seq<(Seq<char>, Seq<char>)>)
    requires
        forall|i: int, j: int|
            0 <= i < s.len() && 0 <= j < s.len() && i != j ==> (#[trigger] s[i]).0 != (
            #[trigger] s[j]).0,
    ensures
        forall|i: int|
            0 <= i < s.len() ==> seq_to_map(s).dom().contains((#[trigger] s[i]).0) && seq_to_map(
                s,
            )[s[i].0] == s[i].1,
    decreases s.len(),
{
    if s.len() > 0 {
        let d = s.drop_last();
        assert forall|i: int, j: int|
            0 <= i < d.len() && 0 <= j < d.len() && i != j implies (#[trigger] d[i]).0 != (
        #[trigger] d[j]).0 by {
            assert(s[i].0 != s[j].0);
        }
        lemma_seq_to_map_values(d);
        assert forall|i: int|
            0 <= i < s.len() implies seq_to_map(s).dom().contains((#[trigger] s[i]).0)
            && seq_to_map(s)[s[i].0] == s[i].1 by {
            if i < s.len() - 1 {
                assert(d[i] == s[i]);
                assert(s[i].0 != s[s.len() - 1].0);
            }
        }
    }
}

/// Canonical form: sorted entry sequences with the same key-value map are
/// the same sequence.
pub proof fn lemma_sorted_map_canonical(s: Seq<(Seq<char>, Seq<char>)>, t: Seq<(Seq<char>, Seq<char>)>)
    requires
        fields_wf(s),
        fields_wf(t),
        seq_to_map(s) == seq_to_map(t),
    ensures
        s == t,
    decreases s.len(),
{
    lemma_seq_to_map_dom(s);
    lemma_seq_to_map_dom(t);
    lemma_wf_distinct(s);
    lemma_wf_distinct(t);
    lemma_seq_to_map_values(s);
    lemma_seq_to_map_values(t);
    if s.len() == 0 {
        if t.len() > 0 {
            assert(seq_to_map(t).dom().contains(t[t.len() - 1].0));
            assert(has_key(s, t[t.len() - 1].0));
            assert(false);
        }
        assert(s =~= t);
    } else if t.len() == 0 {
        assert(seq_to_map(s).dom().contains(s[s.len() - 1].0));
        assert(has_key(t, s[s.len() - 1].0));
        assert(false);
    } else {
        let ks = s.last().0;
        let kt = t.last().0;
        assert(seq_to_map(s).dom().contains(s[s.len() - 1].0));
        assert(seq_to_map(t).dom().contains(t[t.len() - 1].0));
        assert(has_key(t, ks));
        assert(has_key(s, kt));
        let j = choose|j: int| 0 <= j < t.len() && (#[trigger] t[j]).0 == ks;
        let i = choose|i: int| 0 <= i < s.len() && (#[trigger] s[i]).0 == kt;
        if ks != kt {
            assert(j != t.len() - 1);
            assert(lex_lt(key_bytes(t[j]), key_bytes(t[t.len() - 1])));
            assert(i != s.len() - 1);
            assert(lex_lt(key_bytes(s[i]), key_bytes(s[s.len() - 1])));
            lemma_lex_lt_asymmetric(encode_utf8(ks), encode_utf8(kt));
            assert(false);
        }
        assert(seq_to_map(s)[ks] == s.last().1);
        assert(seq_to_map(t)[kt] == t.last().1);
        assert(s.last() == t.last());

        let ds = s.drop_last();
        let dt = t.drop_last();
        assert(fields_wf(ds)) by {
            assert forall|p: int, q: int|
                0 <= p < q < ds.len() implies #[trigger] lex_lt(
                key_bytes(ds[p]),
                key_bytes(ds[q]),
            ) by {
                assert(ds[p] == s[p] && ds[q] == s[q]);
                assert(lex_lt(key_bytes(s[p]), key_bytes(s[q])));
            }
        }
        assert(fields_wf(dt)) by {
            assert forall|p: int, q: int|
                0 <= p < q < dt.len() implies #[trigger] lex_lt(
                key_bytes(dt[p]),
                key_bytes(dt[q]),
            ) by {
                assert(dt[p] == t[p] && dt[q] == t[q]);
                assert(lex_lt(key_bytes(t[p]), key_bytes(t[q])));
            }
        }
        lemma_seq_to_map_dom(ds);
        lemma_seq_to_map_dom(dt);
        assert(!seq_to_map(ds).dom().contains(ks)) by {
            if has_key(ds, ks) {
                let p = choose|p: int| 0 <= p < ds.len() && (#[trigger] ds[p]).0 == ks;
                assert(s[p].0 == ks && s[s.len() - 1].0 == ks);
            }
        }
        assert(!seq_to_map(dt).dom().contains(kt)) by {
            if has_key(dt, kt) {
                let p = choose|p: int| 0 <= p < dt.len() && (#[trigger] dt[p]).0 == kt;
                assert(t[p].0 == kt && t[t.len() - 1].0 == kt);
            }
        }
        assert(seq_to_map(ds) =~= seq_to_map(s).remove(ks));
        assert(seq_to_map(dt) =~= seq_to_map(t).remove(kt));
        lemma_sorted_map_canonical(ds, dt);
        assert(s =~= t) by {
            assert(ds.len() == dt.len());
            assert(forall|p: int| 0 <= p < ds.len() ==> #[trigger] s[p] == ds[p]);
            assert(forall|p: int| 0 <= p < dt.len() ==> #[trigger] t[p] == dt[p]);
        }
    }
}

impl PdIssueFields {
    /// The entries are strictly sorted by key bytes.
    pub open spec fn wf(&self) -> bool {
        fields_wf(self@)
    }

    /// The key-value mapping the entries represent.
    pub open spec fn as_map(&self) -> Map<Seq<char>, Seq<char>> {
        seq_to_map(self@)
    }

    /// An empty field mapping.
    pub fn new() -> (r: PdIssueFields)
        ensures
            r@ == Seq::<(Seq<char>, Seq<char>)>::empty(),
            r.wf(),
    {
        let r = PdIssueFields { entries: Vec::new() };
        proof {
            assert(r@ =~= Seq::<(Seq<char>, Seq<char>)>::empty());
        }
        r
    }

    /// Number of entries.
    pub fn len(&self) -> (n: usize)
        ensures
            n == self@.len(),
    {
        self.entries.len()
    }

    /// Read access to the entries, sorted by key.
    pub fn entries(&self) -> (r: &Vec<(String, String)>)
        ensures
            r@.len() == self@.len(),
            forall|i: int|
                0 <= i < self@.len() ==> (#[trigger] r@[i]).0@ == self@[i].0 && r@[i].1@
                    == self@[i].1,
    {
        &self.entries
    }

    /// The position where `kb` sorts in: the first entry whose key bytes are
    /// not below `kb`.
    fn find_slot(&self, kb: &[u8]) -> (idx: usize)
        ensures
            idx <= self@.len(),
            forall|i: int| 0 <= i < idx ==> lex_lt(key_bytes(#[trigger] self@[i]), kb@),
            idx < self@.len() ==> !lex_lt(key_bytes(self@[idx as int]), kb@),
    {
        let mut idx: usize = 0;
        loop
            invariant_except_break
                idx <= self@.len(),
                forall|i: int| 0 <= i < idx ==> lex_lt(key_bytes(#[trigger] self@[i]), kb@),
            ensures
                idx <= self@.len(),
                forall|i: int| 0 <= i < idx ==> lex_lt(key_bytes(#[trigger] self@[i]), kb@),
                idx < self@.len() ==> !lex_lt(key_bytes(self@[idx as int]), kb@),
            decreases self@.len() - idx,
        {
            if idx == self.entries.len() {
                break;
            }
            let e = &self.entries[idx];
            proof {
                assert(e.0@ == self@[idx as int].0);
            }
            match lex_cmp(e.0.as_str().as_bytes(), kb) {
                core::cmp::Ordering::Less => {
                    idx = idx + 1;
                },
                _ => {
                    break;
                },
            }
        }
        idx
    }

    /// Insert a key-value pair; an existing entry with the same key is
    /// replaced. On a well-formed mapping this is exactly map insertion.
    pub fn insert(&mut self, key: String, value: String)
        ensures
            old(self).wf() ==> final(self).wf(),
            old(self).wf() ==> final(self).as_map() == old(self).as_map().insert(key@, value@),
    {
        let ghost s0 = self@;
        let idx = self.find_slot(key.as_str().as_bytes());
        let replace = if idx < self.entries.len() {
            let e = &self.entries[idx];
            proof {
                assert(e.0@ == self@[idx as int].0);
            }
            match lex_cmp(e.0.as_str().as_bytes(), key.as_str().as_bytes()) {
                core::cmp::Ordering::Equal => true,
                _ => false,
            }
        } else {
            false
        };
        let ghost kb = encode_utf8(key@);
        if replace {
            proof {
                lemma_encode_utf8_injective(s0[idx as int].0, key@);
            }
            self.entries.remove(idx);
            self.entries.insert(idx, (key, value));
            proof {
                assert(self@ =~= s0.update(idx as int, (key@, value@)));
                if fields_wf(s0) {
                    assert(fields_wf(self@)) by {
                        assert forall|p: int, q: int|
                            0 <= p < q < self@.len() implies #[trigger] lex_lt(
                            key_bytes(self@[p]),
                            key_bytes(self@[q]),
                        ) by {
                            assert(key_bytes(self@[p]) == key_bytes(s0[p]));
                            assert(key_bytes(self@[q]) == key_bytes(s0[q]));
                            assert(lex_lt(key_bytes(s0[p]), key_bytes(s0[q])));
                        }
                    }
                    lemma_wf_distinct(s0);
                    lemma_map_update(s0, idx as int, key@, value@);
                }
            }
        } else {
            self.entries.insert(idx, (key, value));
            proof {
                assert(self@ =~= s0.insert(idx as int, (key@, value@)));
                if fields_wf(s0) {
                    if idx < s0.len() {
                        assert(kb != key_bytes(s0[idx as int]));
                        if !lex_lt(kb, key_bytes(s0[idx as int])) {
                            lemma_lex_lt_connected(key_bytes(s0[idx as int]), kb);
                            assert(false);
                        }
                    }
                    assert forall|q: int|
                        idx <= q < s0.len() implies #[trigger] lex_lt(kb, key_bytes(s0[q])) by {
                        if q > idx {
                            assert(lex_lt(key_bytes(s0[idx as int]), key_bytes(s0[q])));
                            lemma_lex_lt_transitive(
                                kb,
                                key_bytes(s0[idx as int]),
                                key_bytes(s0[q]),
                            );
                        }
                    }
                    assert(fields_wf(self@)) by {
                        assert forall|p: int, q: int|
                            0 <= p < q < self@.len() implies #[trigger] lex_lt(
                            key_bytes(self@[p]),
                            key_bytes(self@[q]),
                        ) by {
                            if q < idx {
                                assert(self@[p] == s0[p] && self@[q] == s0[q]);
                                assert(lex_lt(key_bytes(s0[p]), key_bytes(s0[q])));
                            } else if q == idx {
                                assert(self@[p] == s0[p]);
                                assert(lex_lt(key_bytes(s0[p]), kb));
                            } else if p < idx {
                                assert(self@[p] == s0[p] && self@[q] == s0[q - 1]);
                                if q - 1 == idx {
                                    assert(lex_lt(key_bytes(s0[p]), kb));
                                    assert(lex_lt(kb, key_bytes(s0[idx as int])));
                                    lemma_lex_lt_transitive(
                                        key_bytes(s0[p]),
                                        kb,
                                        key_bytes(s0[idx as int]),
                                    );
                                } else {
                                    assert(lex_lt(key_bytes(s0[p]), key_bytes(s0[q - 1])));
                                }
                            } else if p == idx {
                                assert(self@[q] == s0[q - 1]);
                                assert(lex_lt(kb, key_bytes(s0[q - 1])));
                            } else {
                                assert(self@[p] == s0[p - 1] && self@[q] == s0[q - 1]);
                                assert(lex_lt(key_bytes(s0[p - 1]), key_bytes(s0[q - 1])));
                            }
                        }
                    }
                    assert forall|i: int| 0 <= i < s0.len() implies (#[trigger] s0[i]).0
                        != key@ by {
                        if i < idx {
                            assert(lex_lt(key_bytes(s0[i]), kb));
                            if s0[i].0 == key@ {
                                lemma_lex_lt_irreflexive(kb);
                            }
                        } else {
                            assert(lex_lt(kb, key_bytes(s0[i])));
                            if s0[i].0 == key@ {
                                lemma_lex_lt_irreflexive(kb);
                            }
                        }
                    }
                    lemma_map_insert_at(s0, idx as int, key@, value@);
                }
            }
        }
    }
}

/// Replacing the entry that holds key `k` is map insertion at `k`.
proof fn lemma_map_update(s: Seq<(Seq<char>, Seq<char>)>, idx: int, k: Seq<char>, v: Seq<char>)
    requires
        forall|i: int, j: int|
            0 <= i < s.len() && 0 <= j < s.len() && i != j ==> (#[trigger] s[i]).0 != (
            #[trigger] s[j]).0,
        0 <= idx < s.len(),
        s[idx].0 == k,
    ensures
        seq_to_map(s.update(idx, (k, v))) == seq_to_map(s).insert(k, v),
    decreases s.len(),
{
    let u = s.update(idx, (k, v));
    let d = s.drop_last();
    if idx == s.len() - 1 {
        assert(u.drop_last() =~= d);
        assert(u.last() == (k, v));
        assert(seq_to_map(u) == seq_to_map(d).insert(k, v));
        assert(seq_to_map(d).insert(k, s.last().1).insert(k, v) =~= seq_to_map(d).insert(k, v));
    } else {
        assert(u.drop_last() =~= d.update(idx, (k, v)));
        assert(u.last() == s.last());
        assert forall|i: int, j: int|
            0 <= i < d.len() && 0 <= j < d.len() && i != j implies (#[trigger] d[i]).0 != (
        #[trigger] d[j]).0 by {
            assert(s[i].0 != s[j].0);
        }
        assert(d[idx] == s[idx]);
        lemma_map_update(d, idx, k, v);
        assert(s.last().0 != k) by {
            assert(s[s.len() - 1].0 != s[idx].0);
        }
        assert(seq_to_map(d).insert(k, v).insert(s.last().0, s.last().1) =~= seq_to_map(
            d,
        ).insert(s.last().0, s.last().1).insert(k, v));
    }
}

/// Inserting an absent key anywhere in the sequence is map insertion.
proof fn lemma_map_insert_at(s: Seq<(Seq<char>, Seq<char>)>, idx: int, k: Seq<char>, v: Seq<char>)
    requires
        0 <= idx <= s.len(),
        forall|i: int| 0 <= i < s.len() ==> (#[trigger] s[i]).0 != k,
    ensures
        seq_to_map(s.insert(idx, (k, v))) == seq_to_map(s).insert(k, v),
    decreases s.len(),
{
    let u = s.insert(idx, (k, v));
    if idx == s.len() {
        assert(u.drop_last() =~= s);
        assert(u.last() == (k, v));
    } else {
        let d = s.drop_last();
        assert(u.drop_last() =~= d.insert(idx, (k, v)));
        assert(u.last() == s.last());
        assert forall|i: int| 0 <= i < d.len() implies (#[trigger] d[i]).0 != k by {
            assert(s[i].0 != k);
        }
        lemma_map_insert_at(d, idx, k, v);
        assert(s.last().0 != k) by {
            assert(s[s.len() - 1].0 != k);
        }
        assert(seq_to_map(d).insert(k, v).insert(s.last().0, s.last().1) =~= seq_to_map(
            d,
        ).insert(s.last().0, s.last().1).insert(k, v));
    }
}

/// Canonical form, stated on the field type: well-formed field mappings with
/// the same key-value map hold identical entry sequences.
pub proof fn lemma_fields_canonical(a: &PdIssueFields, b: &PdIssueFields)
    requires
        a.wf(),
        b.wf(),
        a.as_map() == b.as_map(),
    ensures
        a@ == b@,
{
    lemma_sorted_map_canonical(a@, b@);
}

} // verus!
