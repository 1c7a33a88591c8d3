//! A header map: one value per header name, keys unique, insertion order
//! kept.  Modelled as a sequence of (name, value) pairs together with the
//! map it denotes under last-write-wins.

use vstd::prelude::*;

verus! {

/// The character-level view of a sequence of owned string pairs.
pub open spec fn pairs_view(s: Seq<(String, String)>) -> Seq<(Seq<char>, Seq<char>)> {
    s.map_values(|p: (String, String)| (p.0@, p.1@))
}

/// The map denoted by a sequence of (name, value) pairs, a later pair with
/// the same name overriding an earlier one.
pub open spec fn entries_map(entries: Seq<(Seq<char>, Seq<char>)>) -> Map<Seq<char>, Seq<char>>
    decreases entries.len(),
{
    if entries.len() == 0 {
        Map::empty()
    } else {
        entries_map(entries.drop_last()).insert(entries.last().0, entries.last().1)
    }
}

/// True when no two pairs share a name.
pub open spec fn unique_keys(entries: Seq<(Seq<char>, Seq<char>)>) -> bool {
    forall|i: int, j: int|
        0 <= i < j < entries.len() ==> (#[trigger] entries[i]).0 != (#[trigger] entries[j]).0
}

/// A name is in the denoted map exactly when some pair carries it.
pub proof fn lemma_entries_map_dom(entries: Seq<(Seq<char>, Seq<char>)>, k: Seq<char>)
    ensures
        entries_map(entries).contains_key(k) <==> exists|i: int|
            0 <= i < entries.len() && (#[trigger] entries[i]).0 == k,
    decreases entries.len(),
{
    if entries.len() > 0 {
        lemma_entries_map_dom(entries.drop_last(), k);
        if entries.last().0 == k {
            assert(entries[entries.len() - 1].0 == k);
        } else if entries_map(entries).contains_key(k) {
            let i = choose|i: int|
                0 <= i < entries.drop_last().len() && (#[trigger] entries.drop_last()[i]).0 == k;
            assert(entries[i].0 == k);
        } else {
            assert forall|i: int| 0 <= i < entries.len() && (#[trigger] entries[i]).0 == k implies
            false by {
                if i < entries.len() - 1 {
                    assert(entries.drop_last()[i].0 == k);
                }
            }
        }
    }
}

/// Under unique names, the denoted map sends each pair's name to its value.
pub proof fn lemma_entries_map_at(entries: Seq<(Seq<char>, Seq<char>)>, i: int)
    requires
        unique_keys(entries),
        0 <= i < entries.len(),
    ensures
        entries_map(entries).contains_key(entries[i].0),
        entries_map(entries)[entries[i].0] == entries[i].1,
    decreases entries.len(),
{
    if i == entries.len() - 1 {
        lemma_entries_map_dom(entries, entries[i].0);
    } else {
        assert(entries.drop_last()[i] == entries[i]);
        assert forall|a: int, b: int| 0 <= a < b < entries.drop_last().len() implies (
        #[trigger] entries.drop_last()[a]).0 != (#[trigger] entries.drop_last()[b]).0 by {
            assert(entries[a] == entries.drop_last()[a]);
            assert(entries[b] == entries.drop_last()[b]);
        }
        lemma_entries_map_at(entries.drop_last(), i);
        assert(entries[i].0 != entries.last().0);
    }
}

/// Appending a pair inserts it into the denoted map.
pub proof fn lemma_entries_map_push(
    entries: Seq<(Seq<char>, Seq<char>)>,
    k: Seq<char>,
    v: Seq<char>,
)
    ensures
        entries_map(entries.push((k, v))) == entries_map(entries).insert(k, v),
{
    assert(entries.push((k, v)).drop_last() =~= entries);
    assert(entries.push((k, v)).last() == (k, v));
}

/// A header map: keys unique, insertion order kept.
#[derive(Clone, Debug, PartialEq, Eq)]
pub struct HeaderMap {
    entries: Vec<(String, String)>,
}

impl View for HeaderMap {
    type V = Seq<(Seq<char>, Seq<char>)>;

    closed spec fn view(&self) -> Seq<(Seq<char>, Seq<char>)> {
        pairs_view(self.entries@)
    }
}

impl HeaderMap {
    /// Well-formed: no two entries share a name.
    pub open spec fn wf(&self) -> bool {
        unique_keys(self@)
    }

    /// The map this header map denotes.
    pub open spec fn as_map(&self) -> Map<Seq<char>, Seq<char>> {
        entries_map(self@)
    }

    /// The empty header map.
    pub fn new() -> (r: HeaderMap)
        ensures
            r@ == Seq::<(Seq<char>, Seq<char>)>::empty(),
            r.wf(),
    {
        let r = HeaderMap { entries: Vec::new() };
        proof {
            assert(r@ =~= Seq::<(Seq<char>, Seq<char>)>::empty());
        }
        r
    }

    /// How many headers are present.
    pub fn len(&self) -> (r: usize)
        ensures
            r == self@.len(),
    {
        self.entries.len()
    }

    /// The entries as owned string pairs, in order.
    pub(crate) fn entries(&self) -> (r: &Vec<(String, String)>)
        ensures
            pairs_view(r@) == self@,
    {
        &self.entries
    }

    /// The entry at a position: its name and its value.
    pub fn entry_at(&self, i: usize) -> (r: (&String, &String))
        requires
            i < self@.len(),
        ensures
            (r.0@, r.1@) == self@[i as int],
    {
        (&self.entries[i].0, &self.entries[i].1)
    }

    /// Set `key` to `value`.  A pair already carrying the name is replaced
    /// in place; otherwise the pair is appended.
    pub fn insert(&mut self, key: String, value: String)
        requires
            old(self).wf(),
        ensures
            final(self).wf(),
            final(self).as_map() == old(self).as_map().insert(key@, value@),
            !old(self).as_map().contains_key(key@) ==> final(self)@ == old(self)@.push(
                (key@, value@),
            ),
            old(self).as_map().contains_key(key@) ==> final(self)@.len() == old(self)@.len(),
    {
        let ghost pre = self@;
        let mut i: usize = 0;
        while i < self.entries.len()
            invariant
                i <= self@.len(),
                self@ == pre,
                pre == old(self)@,
                unique_keys(pre),
                forall|j: int| 0 <= j < i ==> (#[trigger] pre[j]).0 != key@,
            decreases self@.len() - i,
        {
            if self.entries[i].0 == key {
                proof {
                    assert(pre[i as int].0 == key@);
                }
                self.entries.remove(i);
                self.entries.insert(i, (key, value));
                proof {
                    assert(self@ =~= pre.update(i as int, (key@, value@)));
                    lemma_update_same_key(pre, i as int, key@, value@);
                    lemma_entries_map_dom(pre, key@);
                }
                return ;
            }
            i = i + 1;
        }
        proof {
            assert forall|j: int| 0 <= j < pre.len() implies (#[trigger] pre[j]).0 != key@ by {}
            lemma_entries_map_dom(pre, key@);
            assert(!entries_map(pre).contains_key(key@));
        }
        self.entries.push((key, value));
        proof {
            assert(self@ =~= pre.push((key@, value@)));
            lemma_entries_map_push(pre, key@, value@);
            assert forall|a: int, b: int| 0 <= a < b < self@.len() implies (
            #[trigger] self@[a]).0 != (#[trigger] self@[b]).0 by {
                if b < pre.len() {
                    assert(pre[a] == self@[a] && pre[b] == self@[b]);
                } else {
                    assert(self@[b] == (key@, value@));
                    assert(pre[a] == self@[a]);
                }
            }
        }
    }

    /// The value stored under `key`, if any.
    pub fn get(&self, key: &String) -> (r: Option<&String>)
        requires
            self.wf(),
        ensures
            r is Some <==> self.as_map().contains_key(key@),
            r matches Some(v) ==> self.as_map()[key@] == v@,
    {
        let mut i: usize = 0;
        while i < self.entries.len()
            invariant
                self.wf(),
                i <= self@.len(),
                forall|j: int| 0 <= j < i ==> (#[trigger] self@[j]).0 != key@,
            decreases self@.len() - i,
        {
            if self.entries[i].0 == *key {
                proof {
                    lemma_entries_map_at(self@, i as int);
                }
                return Some(&self.entries[i].1);
            }
            i = i + 1;
        }
        proof {
            lemma_entries_map_dom(self@, key@);
        }
        None
    }

    /// Whether a header with this name is present.
    pub fn contains_key(&self, key: &String) -> (r: bool)
        requires
            self.wf(),
        ensures
            r == self.as_map().contains_key(key@),
    {
        match self.get(key) {
            Some(_) => true,
            None => false,
        }
    }
}

proof fn lemma_update_same_key(
    entries: Seq<(Seq<char>, Seq<char>)>,
    i: int,
    k: Seq<char>,
    v: Seq<char>,
)
    requires
        unique_keys(entries),
        0 <= i < entries.len(),
        entries[i].0 == k,
    ensures
        unique_keys(entries.update(i, (k, v))),
        entries_map(entries.update(i, (k, v))) == entries_map(entries).insert(k, v),
    decreases entries.len(),
{
    let upd = entries.update(i, (k, v));
    assert forall|a: int, b: int| 0 <= a < b < upd.len() implies (#[trigger] upd[a]).0 != (
    #[trigger] upd[b]).0 by {
        assert(entries[a].0 != entries[b].0);
        assert(upd[a].0 == if a == i {
            k
        } else {
            entries[a].0
        });
        assert(upd[b].0 == if b == i {
            k
        } else {
            entries[b].0
        });
    }
    if i == entries.len() - 1 {
        assert(upd.drop_last() =~= entries.drop_last());
        assert(upd.last() == (k, v));
        assert(entries_map(upd) =~= entries_map(entries).insert(k, v));
    } else {
        assert(upd.drop_last() =~= entries.drop_last().update(i, (k, v)));
        assert(entries.drop_last()[i] == entries[i]);
        assert forall|a: int, b: int| 0 <= a < b < entries.drop_last().len() implies (
        #[trigger] entries.drop_last()[a]).0 != (#[trigger] entries.drop_last()[b]).0 by {
            assert(entries[a] == entries.drop_last()[a]);
            assert(entries[b] == entries.drop_last()[b]);
        }
        lemma_update_same_key(entries.drop_last(), i, k, v);
        assert(upd.last() == entries.last());
        assert(entries[i].0 != entries.last().0);
        assert(entries_map(upd) =~= entries_map(entries).insert(k, v));
    }
}

} // verus!
