//! The configuration mapping: a table of string keys to string values with
//! unique keys, viewed as a `Map<Seq<char>, Seq<char>>`.

use vstd::pervasive::VecAdditionalExecFns;
use vstd::prelude::*;

verus! {

/// No two entries of `es` share a key.
spec fn unique_keys(es: Seq<(String, String)>) -> bool {
    forall|i: int, j: int| 0 <= i < j < es.len() ==> es[i].0@ != es[j].0@
}

/// The mapping an entry vector denotes.
spec fn map_of(es: Seq<(String, String)>) -> Map<Seq<char>, Seq<char>> {
    Map::new(
        |k: Seq<char>| exists|i: int| 0 <= i < es.len() && es[i].0@ == k,
        |k: Seq<char>| es[choose|i: int| 0 <= i < es.len() && es[i].0@ == k].1@,
    )
}

/// An entry determines membership and value of its key.
proof fn lemma_map_of_present(es: Seq<(String, String)>, i: int)
    requires
        unique_keys(es),
        0 <= i < es.len(),
    ensures
        map_of(es).contains_key(es[i].0@),
        map_of(es)[es[i].0@] == es[i].1@,
{
    let k = es[i].0@;
    assert(0 <= i < es.len() && es[i].0@ == k);
    let j = choose|j: int| 0 <= j < es.len() && es[j].0@ == k;
    assert(j == i);
}

/// A key no entry carries is absent from the mapping.
proof fn lemma_map_of_absent(es: Seq<(String, String)>, k: Seq<char>)
    requires
        forall|i: int| 0 <= i < es.len() ==> es[i].0@ != k,
    ensures
        !map_of(es).contains_key(k),
{
}

/// Overwriting the entry that carries `k@` inserts `(k@, v@)` into the
/// denoted mapping.
proof fn lemma_map_of_update(es0: Seq<(String, String)>, i: int, k: String, v: String)
    requires
        unique_keys(es0),
        0 <= i < es0.len(),
        es0[i].0@ == k@,
    ensures
        unique_keys(es0.update(i, (k, v))),
        map_of(es0.update(i, (k, v))) == map_of(es0).insert(k@, v@),
{
    let es1 = es0.update(i, (k, v));
    assert forall|a: int, b: int| 0 <= a < b < es1.len() implies es1[a].0@ != es1[b].0@ by {
        assert(es1[a].0@ == es0[a].0@);
        assert(es1[b].0@ == es0[b].0@);
    }
    let m1 = map_of(es1);
    let m2 = map_of(es0).insert(k@, v@);
    assert forall|k2: Seq<char>| m1.contains_key(k2) implies m2.contains_key(k2) && m1[k2]
        == m2[k2] by {
        let j = choose|j: int| 0 <= j < es1.len() && es1[j].0@ == k2;
        if k2 == k@ {
            lemma_map_of_present(es1, i);
        } else {
            assert(es0[j].0@ == k2);
            lemma_map_of_present(es1, j);
            lemma_map_of_present(es0, j);
        }
    }
    assert forall|k2: Seq<char>| m2.contains_key(k2) implies m1.contains_key(k2) by {
        if k2 == k@ {
            lemma_map_of_present(es1, i);
        } else {
            let j = choose|j: int| 0 <= j < es0.len() && es0[j].0@ == k2;
            assert(es1[j].0@ == k2);
            lemma_map_of_present(es1, j);
        }
    }
    assert(m1 =~= m2);
}

/// Appending an entry with a fresh key inserts `(k@, v@)` into the denoted
/// mapping.
proof fn lemma_map_of_push(es0: Seq<(String, String)>, k: String, v: String)
    requires
        unique_keys(es0),
        forall|i: int| 0 <= i < es0.len() ==> es0[i].0@ != k@,
    ensures
        unique_keys(es0.push((k, v))),
        map_of(es0.push((k, v))) == map_of(es0).insert(k@, v@),
{
    let es1 = es0.push((k, v));
    let n = es0.len() as int;
    assert(es1[n].0@ == k@ && es1[n].1@ == v@);
    assert forall|a: int, b: int| 0 <= a < b < es1.len() implies es1[a].0@ != es1[b].0@ by {
        if b < n {
            assert(es1[a].0@ == es0[a].0@);
            assert(es1[b].0@ == es0[b].0@);
        } else {
            assert(es1[a].0@ == es0[a].0@);
        }
    }
    let m1 = map_of(es1);
    let m2 = map_of(es0).insert(k@, v@);
    assert forall|k2: Seq<char>| m1.contains_key(k2) implies m2.contains_key(k2) && m1[k2]
        == m2[k2] by {
        let j = choose|j: int| 0 <= j < es1.len() && es1[j].0@ == k2;
        if k2 == k@ {
            lemma_map_of_present(es1, n);
        } else {
            assert(j < n);
            assert(es0[j].0@ == k2);
            lemma_map_of_present(es1, j);
            lemma_map_of_present(es0, j);
        }
    }
    assert forall|k2: Seq<char>| m2.contains_key(k2) implies m1.contains_key(k2) by {
        if k2 == k@ {
            lemma_map_of_present(es1, n);
        } else {
            let j = choose|j: int| 0 <= j < es0.len() && es0[j].0@ == k2;
            assert(es1[j].0@ == k2);
            lemma_map_of_present(es1, j);
        }
    }
    assert(m1 =~= m2);
}

/// A string-to-string table with unique keys: the in-memory form of a parsed
/// configuration.
pub struct ConfigMap {
    entries: Vec<(String, String)>,
}

impl View for ConfigMap {
    type V = Map<Seq<char>, Seq<char>>;

    closed spec fn view(&self) -> Map<Seq<char>, Seq<char>> {
        map_of(self.entries@)
    }
}

impl ConfigMap {
    #[verifier::type_invariant]
    spec fn wf(self) -> bool {
        unique_keys(self.entries@)
    }

    /// The empty mapping.
    pub fn empty() -> (m: Self)
        ensures
            m@ == Map::<Seq<char>, Seq<char>>::empty(),
    {
        let m = ConfigMap { entries: Vec::new() };
        proof {
            assert(m@ =~= Map::<Seq<char>, Seq<char>>::empty());
        }
        m
    }

    /// Stores `v` under `k`, overwriting any prior value for the same key.
    pub fn insert(&mut self, k: String, v: String)
        ensures
            final(self)@ == old(self)@.insert(k@, v@),
    {
        proof {
            use_type_invariant(&*self);
        }
        let mut es: Vec<(String, String)> = Vec::new();
        core::mem::swap(&mut es, &mut self.entries);
        let n: usize = es.len();
        let mut i: usize = 0;
        while i < n
            invariant
                i <= n,
                n == es@.len(),
                es@ == old(self).entries@,
                unique_keys(es@),
                forall|j: int| 0 <= j < i ==> es@[j].0@ != k@,
            decreases n - i,
        {
            if es[i].0 == k {
                proof {
                    lemma_map_of_update(es@, i as int, k, v);
                }
                es.set(i, (k, v));
                self.entries = es;
                return ;
            }
            i = i + 1;
        }
        proof {
            lemma_map_of_push(es@, k, v);
        }
        es.push((k, v));
        self.entries = es;
    }

    /// Looks up `key`: an owned copy of the stored value when the key is
    /// present, nothing when it is absent.
    pub fn get(&self, key: &str) -> (r: Option<String>)
        ensures
            match r {
                Some(v) => self@.contains_key(key@) && v@ == self@[key@],
                None => !self@.contains_key(key@),
            },
    {
        proof {
            use_type_invariant(self);
        }
        let k: String = key.to_owned();
        let n: usize = self.entries.len();
        let mut i: usize = 0;
        while i < n
            invariant
                i <= n,
                n == self.entries@.len(),
                unique_keys(self.entries@),
                k@ == key@,
                forall|j: int| 0 <= j < i ==> self.entries@[j].0@ != key@,
            decreases n - i,
        {
            if self.entries[i].0 == k {
                let v = self.entries[i].1.clone();
                proof {
                    lemma_map_of_present(self.entries@, i as int);
                }
                return Some(v);
            }
            i = i + 1;
        }
        proof {
            lemma_map_of_absent(self.entries@, key@);
        }
        None
    }
}

} // verus!
