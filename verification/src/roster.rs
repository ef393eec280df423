//! A roster: who is present, and in which room (if any).

use crate::record::bytes_eq;
use vstd::prelude::*;
use vstd::string::StringSliceAdditionalSpecFns;
use vstd::utf8::encode_utf8_decode_utf8;

verus! {

/// True when the two strings are equal.
pub fn str_eq(a: &str, b: &str) -> (out: bool)
    ensures
        out == (a@ == b@),
{
    proof {
        encode_utf8_decode_utf8(a@);
        encode_utf8_decode_utf8(b@);
    }
    bytes_eq(a.as_bytes(), b.as_bytes())
}

/// The map that a list of (name, place) pairs stands for; a later pair for
/// the same name overrides an earlier one.
pub open spec fn to_map<V>(s: Seq<(String, V)>) -> Map<Seq<char>, V>
    decreases s.len(),
{
    if s.len() == 0 {
        Map::empty()
    } else {
        to_map(s.drop_last()).insert(s.last().0@, s.last().1)
    }
}

/// True when no two pairs name the same person.
pub open spec fn no_dup<V>(s: Seq<(String, V)>) -> bool {
    forall|i: int, j: int| 0 <= i < j < s.len() ==> s[i].0@ != s[j].0@
}

/// Lemma: a name is in the map exactly when some pair names it, and with
/// no repeated names, each pair's place is the map's value for its name.
pub proof fn lemma_to_map<V>(s: Seq<(String, V)>)
    requires
        no_dup(s),
    ensures
        forall|k: Seq<char>|
            #[trigger] to_map(s).contains_key(k) <==> exists|i: int|
                0 <= i < s.len() && s[i].0@ == k,
        forall|i: int| 0 <= i < s.len() ==> #[trigger] to_map(s)[s[i].0@] == s[i].1,
        to_map(s).dom().finite(),
        to_map(s).dom().len() == s.len(),
    decreases s.len(),
{
    if s.len() > 0 {
        let t = s.drop_last();
        assert(no_dup(t));
        lemma_to_map(t);
        let last = s.last();
        assert(!to_map(t).contains_key(last.0@)) by {
            if to_map(t).contains_key(last.0@) {
                let i = choose|i: int| 0 <= i < t.len() && t[i].0@ == last.0@;
                assert(s[i].0@ == s[s.len() - 1].0@);
            }
        }
        assert forall|k: Seq<char>|
            #[trigger] to_map(s).contains_key(k) <==> exists|i: int|
                0 <= i < s.len() && s[i].0@ == k by {
            if to_map(s).contains_key(k) {
                if k == last.0@ {
                    assert(s[s.len() - 1].0@ == k);
                } else {
                    let i = choose|i: int| 0 <= i < t.len() && t[i].0@ == k;
                    assert(s[i].0@ == k);
                }
            }
            if exists|i: int| 0 <= i < s.len() && s[i].0@ == k {
                let i = choose|i: int| 0 <= i < s.len() && s[i].0@ == k;
                if i < s.len() - 1 {
                    assert(t[i].0@ == k);
                }
            }
        }
        assert forall|i: int| 0 <= i < s.len() implies #[trigger] to_map(s)[s[i].0@] == s[i].1 by {
            if i < s.len() - 1 {
                assert(t[i] == s[i]);
                assert(s[i].0@ != last.0@);
            }
        }
    }
}

/// Lemma: changing the place of pair `i` changes the map at its name only.
pub proof fn lemma_to_map_update<V>(s: Seq<(String, V)>, i: int, x: (String, V))
    requires
        no_dup(s),
        0 <= i < s.len(),
        x.0@ == s[i].0@,
    ensures
        no_dup(s.update(i, x)),
        to_map(s.update(i, x)) == to_map(s).insert(x.0@, x.1),
{
    let u = s.update(i, x);
    assert(no_dup(u)) by {
        assert forall|a: int, b: int| 0 <= a < b < u.len() implies u[a].0@ != u[b].0@ by {
            assert(s[a].0@ != s[b].0@);
        }
    }
    lemma_to_map(s);
    lemma_to_map(u);
    let m1 = to_map(u);
    let m2 = to_map(s).insert(x.0@, x.1);
    assert forall|k: Seq<char>| m1.contains_key(k) <==> m2.contains_key(k) by {
        if m1.contains_key(k) {
            let j = choose|j: int| 0 <= j < u.len() && u[j].0@ == k;
            assert(s[j].0@ == k);
        }
        if m2.contains_key(k) && k != x.0@ {
            let j = choose|j: int| 0 <= j < s.len() && s[j].0@ == k;
            assert(u[j].0@ == k);
        }
        if k == x.0@ {
            assert(u[i].0@ == k);
        }
    }
    assert forall|k: Seq<char>| m1.contains_key(k) implies m1[k] == m2[k] by {
        let j = choose|j: int| 0 <= j < u.len() && u[j].0@ == k;
        assert(m1[u[j].0@] == u[j].1);
        if j != i {
            assert(s[j] == u[j]);
            assert(to_map(s)[s[j].0@] == s[j].1);
        }
    }
    assert(m1 =~= m2);
}

/// Lemma: removing pair `i` removes its name from the map.
pub proof fn lemma_to_map_remove<V>(s: Seq<(String, V)>, i: int)
    requires
        no_dup(s),
        0 <= i < s.len(),
    ensures
        no_dup(s.remove(i)),
        to_map(s.remove(i)) == to_map(s).remove(s[i].0@),
{
    let u = s.remove(i);
    assert(no_dup(u)) by {
        assert forall|a: int, b: int| 0 <= a < b < u.len() implies u[a].0@ != u[b].0@ by {
            let a2 = if a < i { a } else { a + 1 };
            let b2 = if b < i { b } else { b + 1 };
            assert(u[a] == s[a2]);
            assert(u[b] == s[b2]);
        }
    }
    lemma_to_map(s);
    lemma_to_map(u);
    let k0 = s[i].0@;
    let m1 = to_map(u);
    let m2 = to_map(s).remove(k0);
    assert forall|k: Seq<char>| m1.contains_key(k) <==> m2.contains_key(k) by {
        if m1.contains_key(k) {
            let j = choose|j: int| 0 <= j < u.len() && u[j].0@ == k;
            let j2 = if j < i { j } else { j + 1 };
            assert(u[j] == s[j2]);
            assert(s[j2].0@ != k0);
        }
        if m2.contains_key(k) {
            let j = choose|j: int| 0 <= j < s.len() && s[j].0@ == k;
            assert(j != i);
            let j2 = if j < i { j } else { j - 1 };
            assert(u[j2] == s[j]);
        }
    }
    assert forall|k: Seq<char>| m1.contains_key(k) implies m1[k] == m2[k] by {
        let j = choose|j: int| 0 <= j < u.len() && u[j].0@ == k;
        let j2 = if j < i { j } else { j + 1 };
        assert(u[j] == s[j2]);
        assert(m1[u[j].0@] == u[j].1);
        assert(to_map(s)[s[j2].0@] == s[j2].1);
    }
    assert(m1 =~= m2);
}

/// Names, each with a value, each name once: who is present and where.
/// Its view is a map from names to values.  (A `HashMap` keyed by `String`
/// would have no verified meaning: vstd's model of `HashMap` holds only for
/// key types with a hashing model, and `String` has none.)
#[verifier::reject_recursive_types(V)]
pub struct Roster<V> {
    items: Vec<(String, V)>,
}

impl<V> View for Roster<V> {
    type V = Map<Seq<char>, V>;

    closed spec fn view(&self) -> Map<Seq<char>, V> {
        to_map(self.items@)
    }
}

impl<V> Roster<V> {
    #[verifier::type_invariant]
    spec fn well_formed(self) -> bool {
        no_dup(self.items@)
    }
}

impl<V: Copy> Clone for Roster<V> {
    /// A copy of the roster, with the same names and values.
    fn clone(&self) -> (out: Self)
        ensures
            out@ == self@,
    {
        proof { use_type_invariant(self); }
        let mut items: Vec<(String, V)> = Vec::new();
        let mut i: usize = 0;
        while i < self.items.len()
            invariant
                i <= self.items@.len(),
                items@ == self.items@.subrange(0, i as int),
            decreases self.items@.len() - i,
        {
            let name = self.items[i].0.clone();
            items.push((name, self.items[i].1));
            i = i + 1;
            assert(items@ =~= self.items@.subrange(0, i as int));
        }
        assert(items@ =~= self.items@);
        Roster { items }
    }
}

impl<V: Copy> Roster<V> {
    /// An empty roster.
    pub fn new() -> (out: Roster<V>)
        ensures
            out@ == Map::<Seq<char>, V>::empty(),
    {
        Roster { items: Vec::new() }
    }

    /// The pairs of this roster, one per name, in no particular order.
    pub fn pairs(&self) -> (out: &[(String, V)])
        ensures
            no_dup(out@),
            to_map(out@) == self@,
    {
        proof { use_type_invariant(self); }
        self.items.as_slice()
    }

    /// The number of people present.
    pub fn len(&self) -> (out: usize)
        ensures
            out == self@.len(),
            self@.dom().finite(),
    {
        proof {
            use_type_invariant(self);
            lemma_to_map(self.items@);
        }
        self.items.len()
    }

    /// The index of `name` in the pairs, if present.
    fn find(&self, name: &str) -> (out: Option<usize>)
        ensures
            match out {
                Some(i) => i < self.items@.len() && self.items@[i as int].0@ == name@,
                None => !self@.contains_key(name@),
            },
    {
        proof {
            use_type_invariant(self);
            lemma_to_map(self.items@);
        }
        let mut i: usize = 0;
        while i < self.items.len()
            invariant
                i <= self.items@.len(),
                forall|k: int| 0 <= k < i ==> self.items@[k].0@ != name@,
            decreases self.items@.len() - i,
        {
            if str_eq(self.items[i].0.as_str(), name) {
                return Some(i);
            }
            i = i + 1;
        }
        None
    }

    /// True when `name` is present.
    pub fn contains_key(&self, name: &str) -> (out: bool)
        ensures
            out == self@.contains_key(name@),
    {
        proof {
            use_type_invariant(self);
            lemma_to_map(self.items@);
        }
        self.find(name).is_some()
    }

    /// Where `name` is, if present.
    pub fn get(&self, name: &str) -> (out: Option<&V>)
        ensures
            match out {
                Some(v) => self@.contains_key(name@) && *v == self@[name@],
                None => !self@.contains_key(name@),
            },
    {
        proof {
            use_type_invariant(self);
            lemma_to_map(self.items@);
        }
        match self.find(name) {
            Some(i) => Some(&self.items[i].1),
            None => None,
        }
    }

    /// Records `name` as present at `place`; returns the place it had.
    pub fn insert(&mut self, name: String, place: V) -> (out: Option<V>)
        ensures
            final(self)@ == old(self)@.insert(name@, place),
            out == (if old(self)@.contains_key(name@) {
                Some(old(self)@[name@])
            } else {
                None
            }),
    {
        proof {
            use_type_invariant(&*self);
            lemma_to_map(self.items@);
        }
        match self.find(name.as_str()) {
            Some(i) => {
                let prev = self.items[i].1;
                let ghost s = self.items@;
                proof { lemma_to_map_update(s, i as int, (name, place)); }
                let mut items: Vec<(String, V)> = Vec::new();
                std::mem::swap(&mut items, &mut self.items);
                items.set(i, (name, place));
                self.items = items;
                Some(prev)
            },
            None => {
                let ghost s = self.items@;
                proof {
                    assert(s.push((name, place)).drop_last() =~= s);
                    assert forall|a: int, b: int|
                        0 <= a < b < s.push((name, place)).len() implies s.push(
                        (name, place),
                    )[a].0@ != s.push((name, place))[b].0@ by {
                        if b == s.len() {
                            assert(s[a].0@ != name@) by {
                                if s[a].0@ == name@ {
                                    assert(to_map(s).contains_key(s[a].0@));
                                }
                            }
                        }
                    }
                }
                let mut items: Vec<(String, V)> = Vec::new();
                std::mem::swap(&mut items, &mut self.items);
                items.push((name, place));
                self.items = items;
                None
            },
        }
    }

    /// Removes `name`; returns the place it had.
    pub fn remove(&mut self, name: &str) -> (out: Option<V>)
        ensures
            final(self)@ == old(self)@.remove(name@),
            out == (if old(self)@.contains_key(name@) {
                Some(old(self)@[name@])
            } else {
                None
            }),
    {
        proof {
            use_type_invariant(&*self);
            lemma_to_map(self.items@);
        }
        match self.find(name) {
            Some(i) => {
                let ghost s = self.items@;
                proof { lemma_to_map_remove(s, i as int); }
                let mut items: Vec<(String, V)> = Vec::new();
                std::mem::swap(&mut items, &mut self.items);
                let (_, prev) = items.remove(i);
                self.items = items;
                Some(prev)
            },
            None => {
                assert(old(self)@.remove(name@) =~= old(self)@);
                None
            },
        }
    }
}

} // verus!
