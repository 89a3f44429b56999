//! The table that binds names to places in the constant pool.

use vstd::prelude::*;
use vstd::std_specs::cmp::PartialEqSpecImpl;

verus! {

/// The table of names: which index of the constant pool each bound name
/// stands for. A name occurs at most once among the keys that count: where
/// it occurs twice, the first entry is the binding.
#[derive(Debug)]
pub struct Names {
    pub entries: Vec<(String, u16)>,
}

/// The index that the first entry for `key` holds.
pub open spec fn bound_in(entries: Seq<(String, u16)>, key: Seq<char>) -> Option<u16>
    decreases entries.len(),
{
    if entries.len() == 0 {
        None
    } else if entries[0].0@ == key {
        Some(entries[0].1)
    } else {
        bound_in(entries.skip(1), key)
    }
}

/// The place of the first entry for `key`.
pub open spec fn place_of(entries: Seq<(String, u16)>, key: Seq<char>) -> Option<int>
    decreases entries.len(),
{
    if entries.len() == 0 {
        None
    } else if entries[0].0@ == key {
        Some(0)
    } else {
        match place_of(entries.skip(1), key) {
            Some(i) => Some(i + 1),
            None => None,
        }
    }
}

/// The first entry for `key` stands at `place_of`, no entry before it is
/// for `key`, and it holds what `bound_in` gives.
pub proof fn lemma_place_of(entries: Seq<(String, u16)>, key: Seq<char>)
    ensures
        match place_of(entries, key) {
            Some(i) => 0 <= i < entries.len() && entries[i].0@ == key && bound_in(entries, key)
                == Some(entries[i].1) && forall|j: int| 0 <= j < i ==> (#[trigger] entries[j]).0@ != key,
            None => bound_in(entries, key) is None && forall|j: int|
                0 <= j < entries.len() ==> (#[trigger] entries[j]).0@ != key,
        },
    decreases entries.len(),
{
    if entries.len() == 0 {
    } else if entries[0].0@ == key {
    } else {
        let rest = entries.skip(1);
        lemma_place_of(rest, key);
        match place_of(rest, key) {
            Some(i) => {
                assert(rest[i] == entries[i + 1]);
                assert forall|j: int| 0 <= j < i + 1 implies (#[trigger] entries[j]).0@ != key by {
                    if j > 0 {
                        assert(rest[j - 1] == entries[j]);
                    }
                }
            },
            None => {
                assert forall|j: int| 0 <= j < entries.len() implies (#[trigger] entries[j]).0@
                    != key by {
                    if j > 0 {
                        assert(rest[j - 1] == entries[j]);
                    }
                }
            },
        }
    }
}

/// Where the first entry for `key` is known, so is what `key` is bound to.
pub proof fn lemma_bound_at(entries: Seq<(String, u16)>, key: Seq<char>, i: int)
    requires
        0 <= i < entries.len(),
        entries[i].0@ == key,
        forall|j: int| 0 <= j < i ==> (#[trigger] entries[j]).0@ != key,
    ensures
        bound_in(entries, key) == Some(entries[i].1),
        place_of(entries, key) == Some(i),
    decreases entries.len(),
{
    if i > 0 {
        let rest = entries.skip(1);
        assert(rest[i - 1] == entries[i]);
        assert forall|j: int| 0 <= j < i - 1 implies (#[trigger] rest[j]).0@ != key by {
            assert(rest[j] == entries[j + 1]);
        }
        lemma_bound_at(rest, key, i - 1);
    }
}

/// Where no entry is for `key`, it is not bound.
pub proof fn lemma_unbound(entries: Seq<(String, u16)>, key: Seq<char>)
    requires
        forall|j: int| 0 <= j < entries.len() ==> (#[trigger] entries[j]).0@ != key,
    ensures
        bound_in(entries, key) is None,
    decreases entries.len(),
{
    if entries.len() > 0 {
        let rest = entries.skip(1);
        assert forall|j: int| 0 <= j < rest.len() implies (#[trigger] rest[j]).0@ != key by {
            assert(rest[j] == entries[j + 1]);
        }
        lemma_unbound(rest, key);
    }
}

impl View for Names {
    type V = Map<Seq<char>, u16>;

    /// The bindings as a map from names to indices.
    open spec fn view(&self) -> Map<Seq<char>, u16> {
        Map::new(
            |k: Seq<char>| bound_in(self.entries@, k) is Some,
            |k: Seq<char>| bound_in(self.entries@, k)->0,
        )
    }
}

impl Names {
    /// The table with no bindings.
    pub fn new() -> (r: Names)
        ensures
            r@ == Map::<Seq<char>, u16>::empty(),
    {
        let r = Names { entries: Vec::new() };
        assert(r@ =~= Map::<Seq<char>, u16>::empty());
        r
    }

    /// The index that `key` is bound to.
    pub fn get(&self, key: &str) -> (r: Option<u16>)
        ensures
            r == (if self@.contains_key(key@) {
                Some(self@[key@])
            } else {
                None
            }),
    {
        let mut i: usize = 0;
        while i < self.entries.len()
            invariant
                i <= self.entries.len(),
                forall|j: int| 0 <= j < i ==> (#[trigger] self.entries[j]).0@ != key@,
            decreases self.entries.len() - i,
        {
            if str_eq(self.entries[i].0.as_str(), key) {
                proof {
                    lemma_bound_at(self.entries@, key@, i as int);
                }
                return Some(self.entries[i].1);
            }
            i += 1;
        }
        proof {
            lemma_unbound(self.entries@, key@);
        }
        None
    }

    /// Binds `key` to `value`, in place of what it was bound to.
    pub fn insert(&mut self, key: &str, value: u16)
        ensures
            final(self)@ == old(self)@.insert(key@, value),
    {
        let ghost before = self.entries@;
        let mut i: usize = 0;
        while i < self.entries.len()
            invariant
                self.entries@ == before,
                old(self).entries@ == before,
                i <= self.entries.len(),
                forall|j: int| 0 <= j < i ==> (#[trigger] self.entries[j]).0@ != key@,
            decreases self.entries.len() - i,
        {
            if str_eq(self.entries[i].0.as_str(), key) {
                let name = self.entries[i].0.clone();
                self.entries.set(i, (name, value));
                proof {
                    let after = self.entries@;
                    assert forall|k: Seq<char>| bound_in(after, k) == (if k == key@ {
                        Some(value)
                    } else {
                        bound_in(before, k)
                    }) by {
                        lemma_place_of(before, k);
                        if k == key@ {
                            lemma_bound_at(after, k, i as int);
                        } else {
                            match place_of(before, k) {
                                Some(p) => {
                                    assert(after[p] == before[p]);
                                    assert forall|j: int| 0 <= j < p implies (#[trigger] after[j]).0@
                                        != k by {
                                        assert(before[j].0@ != k);
                                    }
                                    lemma_bound_at(after, k, p);
                                },
                                None => {
                                    assert forall|j: int| 0 <= j < after.len() implies (
                                    #[trigger] after[j]).0@ != k by {
                                        assert(before[j].0@ != k);
                                    }
                                    lemma_unbound(after, k);
                                },
                            }
                        }
                    }
                    assert(self@ =~= old(self)@.insert(key@, value));
                }
                return ;
            }
            i += 1;
        }
        self.entries.push((String::from_str(key), value));
        proof {
            let after = self.entries@;
            assert forall|k: Seq<char>| bound_in(after, k) == (if k == key@ {
                Some(value)
            } else {
                bound_in(before, k)
            }) by {
                lemma_place_of(before, k);
                if k == key@ {
                    assert forall|j: int| 0 <= j < before.len() implies (#[trigger] after[j]).0@
                        != k by {
                        assert(after[j] == before[j]);
                    }
                    lemma_bound_at(after, k, before.len() as int);
                } else {
                    match place_of(before, k) {
                        Some(p) => {
                            assert(after[p] == before[p]);
                            assert forall|j: int| 0 <= j < p implies (#[trigger] after[j]).0@
                                != k by {
                                assert(after[j] == before[j]);
                            }
                            lemma_bound_at(after, k, p);
                        },
                        None => {
                            assert forall|j: int| 0 <= j < after.len() implies (#[trigger] after[j]).0@
                                != k by {
                                if j < before.len() {
                                    assert(after[j] == before[j]);
                                }
                            }
                            lemma_unbound(after, k);
                        },
                    }
                }
            }
            assert(self@ =~= old(self)@.insert(key@, value));
        }
    }
}

impl Clone for Names {
    fn clone(&self) -> (r: Names)
        ensures
            r@ == self@,
    {
        let mut entries: Vec<(String, u16)> = Vec::new();
        let mut i: usize = 0;
        while i < self.entries.len()
            invariant
                i <= self.entries.len(),
                entries.len() == i,
                forall|j: int|
                    0 <= j < i ==> (#[trigger] entries[j]).0@ == self.entries[j].0@ && entries[j].1
                        == self.entries[j].1,
            decreases self.entries.len() - i,
        {
            entries.push((self.entries[i].0.clone(), self.entries[i].1));
            i += 1;
        }
        let r = Names { entries };
        proof {
            assert forall|k: Seq<char>| bound_in(r.entries@, k) == bound_in(self.entries@, k) by {
                lemma_same_bindings(r.entries@, self.entries@, k);
            }
            assert(r@ =~= self@);
        }
        r
    }
}

/// Two tables with the same names and indices at the same places bind the
/// same.
pub proof fn lemma_same_bindings(a: Seq<(String, u16)>, b: Seq<(String, u16)>, key: Seq<char>)
    requires
        a.len() == b.len(),
        forall|j: int| 0 <= j < a.len() ==> (#[trigger] a[j]).0@ == b[j].0@ && a[j].1 == b[j].1,
    ensures
        bound_in(a, key) == bound_in(b, key),
    decreases a.len(),
{
    if a.len() > 0 {
        assert(a[0].0@ == b[0].0@);
        let ra = a.skip(1);
        let rb = b.skip(1);
        assert forall|j: int| 0 <= j < ra.len() implies (#[trigger] ra[j]).0@ == rb[j].0@ && ra[j].1
            == rb[j].1 by {
            assert(ra[j] == a[j + 1]);
            assert(a[j + 1].0@ == b[j + 1].0@);
        }
        lemma_same_bindings(ra, rb, key);
    }
}

/// Whether two texts hold the same characters.
pub fn str_eq(a: &str, b: &str) -> (r: bool)
    ensures
        r == (a@ == b@),
{
    let n = a.unicode_len();
    if n != b.unicode_len() {
        return false;
    }
    let mut i: usize = 0;
    while i < n
        invariant
            i <= n,
            n == a@.len(),
            n == b@.len(),
            forall|j: int| 0 <= j < i ==> a@[j] == b@[j],
        decreases n - i,
    {
        if a.get_char(i) != b.get_char(i) {
            return false;
        }
        i += 1;
    }
    assert(a@ =~= b@);
    true
}


impl Names {
    /// Whether every name that this table has an entry for is bound alike
    /// in this table and in the other one.
    pub open spec fn agrees_with(&self, other: &Names) -> bool {
        alike(self.entries@, self@, other@)
    }

    /// Whether every name that this table has an entry for is bound alike
    /// in this table and in the other one.
    fn agrees(&self, other: &Names) -> (r: bool)
        ensures
            r == self.agrees_with(other),
    {
        let mut i: usize = 0;
        while i < self.entries.len()
            invariant
                i <= self.entries.len(),
                forall|j: int|
                    0 <= j < i ==> self@.contains_key((#[trigger] self.entries[j]).0@)
                        && other@.contains_key(self.entries[j].0@) && self@[self.entries[j].0@]
                        == other@[self.entries[j].0@],
            decreases self.entries.len() - i,
        {
            let key = self.entries[i].0.as_str();
            proof {
                lemma_place_of(self.entries@, key@);
            }
            match (self.get(key), other.get(key)) {
                (Some(a), Some(b)) => {
                    if a != b {
                        return false;
                    }
                },
                _ => {
                    return false;
                },
            }
            i += 1;
        }
        true
    }

    /// Whether two tables bind the same names to the same indices.
    pub fn same(&self, other: &Names) -> (r: bool)
        ensures
            r == (self@ == other@),
    {
        let r = self.agrees(other) && other.agrees(self);
        proof {
            if r {
                assert forall|k: Seq<char>| bound_in(self.entries@, k) == bound_in(
                    other.entries@,
                    k,
                ) by {
                    lemma_place_of(self.entries@, k);
                    lemma_place_of(other.entries@, k);
                    match place_of(self.entries@, k) {
                        Some(p) => {
                            assert(self.entries[p].0@ == k);
                            assert(self@[k] == other@[k]);
                        },
                        None => {
                            match place_of(other.entries@, k) {
                                Some(q) => {
                                    assert(other.entries[q].0@ == k);
                                    assert(self@.contains_key(k));
                                },
                                None => {},
                            }
                        },
                    }
                }
                assert(self@ =~= other@);
            } else if !self.agrees_with(other) {
                lemma_differ(self.entries@, self@, other@);
            } else {
                lemma_differ(other.entries@, other@, self@);
            }
        }
        r
    }
}

/// Whether every name that has an entry is bound alike in two maps.
pub open spec fn alike(
    entries: Seq<(String, u16)>,
    a: Map<Seq<char>, u16>,
    b: Map<Seq<char>, u16>,
) -> bool {
    forall|j: int|
        0 <= j < entries.len() ==> a.contains_key((#[trigger] entries[j]).0@) && b.contains_key(
            entries[j].0@,
        ) && a[entries[j].0@] == b[entries[j].0@]
}

/// Two tables of which one binds a name of its own otherwise than the
/// other are not the same.
pub proof fn lemma_differ(entries: Seq<(String, u16)>, a: Map<Seq<char>, u16>, b: Map<Seq<char>, u16>)
    requires
        !alike(entries, a, b),
        forall|k: Seq<char>| a.contains_key(k) == (#[trigger] bound_in(entries, k) is Some),
    ensures
        a != b,
{
    let j = choose|j: int|
        0 <= j < entries.len() && !(a.contains_key((#[trigger] entries[j]).0@) && b.contains_key(
            entries[j].0@,
        ) && a[entries[j].0@] == b[entries[j].0@]);
    lemma_place_of(entries, entries[j].0@);
    assert(a.contains_key(entries[j].0@));
}

impl PartialEq for Names {
    fn eq(&self, other: &Names) -> (r: bool) {
        self.same(other)
    }
}

impl PartialEqSpecImpl for Names {
    open spec fn obeys_eq_spec() -> bool {
        true
    }

    open spec fn eq_spec(&self, other: &Names) -> bool {
        self@ == other@
    }
}

} // verus!
