//! The map built from one block: trimmed keys to trimmed values, keys unique,
//! a later insertion for the same key overwriting the earlier one.

use vstd::prelude::*;
use crate::bytes::bytes_eq;

verus! {

/// The mathematical content of an entry list: inserting the entries in order,
/// so that a later entry for the same key wins.
closed spec fn entries_map(s: Seq<(Vec<u8>, Vec<u8>)>) -> Map<Seq<u8>, Seq<u8>>
    decreases s.len(),
{
    if s.len() == 0 {
        Map::empty()
    } else {
        entries_map(s.drop_last()).insert(s.last().0@, s.last().1@)
    }
}

/// Key-value pairs of one parsed block.
pub struct FieldMap {
    entries: Vec<(Vec<u8>, Vec<u8>)>,
}

impl View for FieldMap {
    type V = Map<Seq<u8>, Seq<u8>>;

    closed spec fn view(&self) -> Map<Seq<u8>, Seq<u8>> {
        entries_map(self.entries@)
    }
}

closed spec fn unique_keys(s: Seq<(Vec<u8>, Vec<u8>)>) -> bool {
    forall|i: int, j: int| 0 <= i < j < s.len() ==> s[i].0@ != s[j].0@
}

impl FieldMap {
    /// Each key is held at most once.
    pub closed spec fn wf(&self) -> bool {
        unique_keys(self.entries@)
    }

    /// An empty map.
    pub fn new() -> (r: FieldMap)
        ensures
            r.wf(),
            r@ == Map::<Seq<u8>, Seq<u8>>::empty(),
    {
        FieldMap { entries: Vec::new() }
    }

    /// Binds `key` to `value`, overwriting any earlier binding of `key`.
    pub fn insert(&mut self, key: Vec<u8>, value: Vec<u8>)
        requires
            old(self).wf(),
        ensures
            final(self).wf(),
            final(self)@ == old(self)@.insert(key@, value@),
    {
        let n = self.entries.len();
        let mut i: usize = 0;
        while i < n
            invariant
                i <= n,
                n == self.entries@.len(),
                self.entries@ == old(self).entries@,
                unique_keys(self.entries@),
                forall|j: int| 0 <= j < i ==> self.entries@[j].0@ != key@,
            decreases n - i,
        {
            if bytes_eq(self.entries[i].0.as_slice(), key.as_slice()) {
                proof {
                    let up = self.entries@.update(i as int, (key, value));
                    assert(self.entries@.remove(i as int).insert(i as int, (key, value)) =~= up);
                    lemma_entries_map_update(self.entries@, i as int, (key, value));
                }
                self.entries.remove(i);
                self.entries.insert(i, (key, value));
                return;
            }
            i += 1;
        }
        proof {
            let pushed = self.entries@.push((key, value));
            assert(pushed.drop_last() =~= self.entries@);
            assert forall|a: int, b: int| 0 <= a < b < pushed.len() implies pushed[a].0@
                != pushed[b].0@ by {
                if b < pushed.len() - 1 {
                    assert(self.entries@[a].0@ != self.entries@[b].0@);
                } else {
                    assert(self.entries@[a].0@ != key@);
                }
            }
        }
        self.entries.push((key, value));
    }

    /// Looks a key up; `None` exactly when the key is absent.
    pub fn get(&self, key: &[u8]) -> (r: Option<&Vec<u8>>)
        requires
            self.wf(),
        ensures
            match r {
                Some(v) => self@.contains_key(key@) && v@ == self@[key@],
                None => !self@.contains_key(key@),
            },
    {
        let n = self.entries.len();
        let mut i: usize = 0;
        while i < n
            invariant
                i <= n,
                n == self.entries@.len(),
                unique_keys(self.entries@),
                forall|j: int| 0 <= j < i ==> self.entries@[j].0@ != key@,
            decreases n - i,
        {
            if bytes_eq(self.entries[i].0.as_slice(), key) {
                proof {
                    lemma_entries_map_get(self.entries@, i as int);
                }
                return Some(&self.entries[i].1);
            }
            i += 1;
        }
        proof {
            lemma_entries_map_dom(self.entries@);
        }
        None
    }

    /// The number of distinct keys.
    pub fn len(&self) -> (n: usize)
        requires
            self.wf(),
        ensures
            n == self@.dom().len(),
    {
        proof {
            lemma_entries_map_len(self.entries@);
        }
        self.entries.len()
    }

    /// True exactly when no key is bound.
    pub fn is_empty(&self) -> (b: bool)
        requires
            self.wf(),
        ensures
            b == (self@.dom().len() == 0),
    {
        proof {
            lemma_entries_map_len(self.entries@);
        }
        self.entries.is_empty()
    }
}

/// A key is in the map exactly when some entry holds it.
proof fn lemma_entries_map_dom(s: Seq<(Vec<u8>, Vec<u8>)>)
    ensures
        entries_map(s).dom().finite(),
        forall|k: Seq<u8>|
            entries_map(s).contains_key(k) <==> exists|i: int| 0 <= i < s.len() && s[i].0@ == k,
    decreases s.len(),
{
    if s.len() > 0 {
        lemma_entries_map_dom(s.drop_last());
        assert forall|k: Seq<u8>| entries_map(s).contains_key(k) implies exists|i: int|
            0 <= i < s.len() && s[i].0@ == k by {
            if k == s.last().0@ {
                assert(s[s.len() - 1].0@ == k);
            } else {
                let i = choose|i: int| 0 <= i < s.drop_last().len() && s.drop_last()[i].0@ == k;
                assert(s[i].0@ == k);
            }
        }
        assert forall|k: Seq<u8>| (exists|i: int| 0 <= i < s.len() && s[i].0@ == k) implies
            entries_map(s).contains_key(k) by {
            let i = choose|i: int| 0 <= i < s.len() && s[i].0@ == k;
            if i < s.len() - 1 {
                assert(s.drop_last()[i].0@ == k);
            }
        }
    }
}

/// With unique keys, entry `i` gives the value the map holds for its key.
proof fn lemma_entries_map_get(s: Seq<(Vec<u8>, Vec<u8>)>, i: int)
    requires
        unique_keys(s),
        0 <= i < s.len(),
    ensures
        entries_map(s).contains_key(s[i].0@),
        entries_map(s)[s[i].0@] == s[i].1@,
    decreases s.len(),
{
    if i < s.len() - 1 {
        assert(s[i].0@ != s.last().0@);
        assert(s.drop_last()[i] == s[i]);
        lemma_entries_map_get(s.drop_last(), i);
    }
}

/// With unique keys, the map holds as many keys as there are entries.
proof fn lemma_entries_map_len(s: Seq<(Vec<u8>, Vec<u8>)>)
    requires
        unique_keys(s),
    ensures
        entries_map(s).dom().finite(),
        entries_map(s).dom().len() == s.len(),
    decreases s.len(),
{
    lemma_entries_map_dom(s);
    if s.len() > 0 {
        lemma_entries_map_len(s.drop_last());
        lemma_entries_map_dom(s.drop_last());
        assert(!entries_map(s.drop_last()).contains_key(s.last().0@));
        assert(entries_map(s).dom() =~= entries_map(s.drop_last()).dom().insert(s.last().0@));
    }
}

/// Replacing the entry that holds a key mirrors a map insert of that key.
proof fn lemma_entries_map_update(s: Seq<(Vec<u8>, Vec<u8>)>, i: int, kv: (Vec<u8>, Vec<u8>))
    requires
        unique_keys(s),
        0 <= i < s.len(),
        s[i].0@ == kv.0@,
    ensures
        unique_keys(s.update(i, kv)),
        entries_map(s.update(i, kv)) == entries_map(s).insert(kv.0@, kv.1@),
    decreases s.len(),
{
    let up = s.update(i, kv);
    assert forall|a: int, b: int| 0 <= a < b < up.len() implies up[a].0@ != up[b].0@ by {
        assert(s[a].0@ != s[b].0@);
    }
    if i == s.len() - 1 {
        assert(up.drop_last() =~= s.drop_last());
        assert(up.last() == kv);
        assert(entries_map(up) =~= entries_map(s).insert(kv.0@, kv.1@));
    } else {
        assert(up.drop_last() =~= s.drop_last().update(i, kv));
        assert(s.drop_last()[i] == s[i]);
        lemma_entries_map_update(s.drop_last(), i, kv);
        assert(up.last() == s.last());
        assert(s.last().0@ != kv.0@);
        assert(entries_map(up) =~= entries_map(s).insert(kv.0@, kv.1@));
    }
}

} // verus!
