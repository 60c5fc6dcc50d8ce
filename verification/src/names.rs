use vstd::prelude::*;

verus! {

/// The set of names held by a list, as mathematical sequences of characters.
pub open spec fn set_of(s: Seq<String>) -> Set<Seq<char>>
    decreases s.len(),
{
    if s.len() == 0 {
        Set::empty()
    } else {
        set_of(s.drop_last()).insert(s.last()@)
    }
}

/// The mapping held by an association list; a later entry overrides an
/// earlier one with the same key.
pub open spec fn map_of<V>(s: Seq<(String, V)>) -> Map<Seq<char>, V>
    decreases s.len(),
{
    if s.len() == 0 {
        Map::empty()
    } else {
        map_of(s.drop_last()).insert(s.last().0@, s.last().1)
    }
}

/// No two entries of the list share a key.
pub open spec fn unique_keys<V>(s: Seq<(String, V)>) -> bool {
    forall|i: int, j: int| 0 <= i < j < s.len() ==> s[i].0@ != s[j].0@
}

proof fn lemma_set_of_contains(s: Seq<String>, k: Seq<char>)
    ensures
        set_of(s).contains(k) <==> (exists|i: int| 0 <= i < s.len() && s[i]@ == k),
    decreases s.len(),
{
    if s.len() > 0 {
        lemma_set_of_contains(s.drop_last(), k);
        if set_of(s).contains(k) {
            if s.last()@ == k {
                assert(s[s.len() - 1]@ == k);
            } else {
                let i = choose|i: int| 0 <= i < s.drop_last().len() && s.drop_last()[i]@ == k;
                assert(s[i]@ == k);
            }
        }
        if exists|i: int| 0 <= i < s.len() && s[i]@ == k {
            let i = choose|i: int| 0 <= i < s.len() && s[i]@ == k;
            if i < s.len() - 1 {
                assert(s.drop_last()[i]@ == k);
            }
        }
    }
}

proof fn lemma_map_of_contains<V>(s: Seq<(String, V)>, k: Seq<char>)
    ensures
        map_of(s).contains_key(k) <==> (exists|i: int| 0 <= i < s.len() && s[i].0@ == k),
    decreases s.len(),
{
    if s.len() > 0 {
        lemma_map_of_contains(s.drop_last(), k);
        if map_of(s).contains_key(k) {
            if s.last().0@ == k {
                assert(s[s.len() - 1].0@ == k);
            } else {
                let i = choose|i: int|
                    0 <= i < s.drop_last().len() && s.drop_last()[i].0@ == k;
                assert(s[i].0@ == k);
            }
        }
        if exists|i: int| 0 <= i < s.len() && s[i].0@ == k {
            let i = choose|i: int| 0 <= i < s.len() && s[i].0@ == k;
            if i < s.len() - 1 {
                assert(s.drop_last()[i].0@ == k);
            }
        }
    }
}

proof fn lemma_map_of_index<V>(s: Seq<(String, V)>, i: int)
    requires
        unique_keys(s),
        0 <= i < s.len(),
    ensures
        map_of(s).contains_key(s[i].0@),
        map_of(s)[s[i].0@] == s[i].1,
    decreases s.len(),
{
    if i < s.len() - 1 {
        assert(unique_keys(s.drop_last()));
        lemma_map_of_index(s.drop_last(), i);
        assert(s[i].0@ != s.last().0@);
    }
}

proof fn lemma_map_of_push<V>(s: Seq<(String, V)>, name: String, value: V)
    ensures
        map_of(s.push((name, value))) == map_of(s).insert(name@, value),
{
    assert(s.push((name, value)).drop_last() =~= s);
}

proof fn lemma_map_of_remove<V>(s: Seq<(String, V)>, i: int)
    requires
        unique_keys(s),
        0 <= i < s.len(),
    ensures
        unique_keys(s.remove(i)),
        map_of(s.remove(i)) == map_of(s).remove(s[i].0@),
    decreases s.len(),
{
    lemma_map_of_contains(s.drop_last(), s[i].0@);
    if i == s.len() - 1 {
        assert(s.remove(i) =~= s.drop_last());
        assert(map_of(s.remove(i)) =~= map_of(s).remove(s[i].0@));
    } else {
        assert(unique_keys(s.drop_last()));
        lemma_map_of_remove(s.drop_last(), i);
        assert(s.remove(i).drop_last() =~= s.drop_last().remove(i));
        assert(s.remove(i).last() == s.last());
        assert(map_of(s.remove(i)) =~= map_of(s).remove(s[i].0@));
    }
}

proof fn lemma_set_of_finite(s: Seq<String>)
    ensures
        set_of(s).finite(),
    decreases s.len(),
{
    if s.len() > 0 {
        lemma_set_of_finite(s.drop_last());
    }
}

proof fn lemma_map_of_finite<V>(s: Seq<(String, V)>)
    ensures
        map_of(s).dom().finite(),
    decreases s.len(),
{
    if s.len() > 0 {
        lemma_map_of_finite(s.drop_last());
    }
}

/// An insertion-ordered set of resource names.
#[derive(Debug)]
pub struct NameSet {
    names: Vec<String>,
}

impl View for NameSet {
    type V = Set<Seq<char>>;

    closed spec fn view(&self) -> Set<Seq<char>> {
        set_of(self.names@)
    }
}

impl NameSet {
    pub fn new() -> (r: Self)
        ensures
            r@ == Set::<Seq<char>>::empty(),
    {
        Self { names: Vec::new() }
    }

    pub fn contains(&self, name: &String) -> (r: bool)
        ensures
            r == self@.contains(name@),
    {
        let mut i: usize = 0;
        while i < self.names.len()
            invariant
                i <= self.names.len(),
                forall|j: int| 0 <= j < i ==> self.names@[j]@ != name@,
            decreases self.names.len() - i,
        {
            if self.names[i] == *name {
                proof {
                    lemma_set_of_contains(self.names@, name@);
                }
                return true;
            }
            i += 1;
        }
        proof {
            lemma_set_of_contains(self.names@, name@);
        }
        false
    }

    pub fn insert(&mut self, name: String)
        ensures
            final(self)@ == old(self)@.insert(name@),
    {
        proof {
            assert(self.names@.push(name).drop_last() =~= self.names@);
        }
        self.names.push(name);
    }

    /// An equal-valued copy of the set.
    pub fn duplicate(&self) -> (r: Self)
        ensures
            r@ == self@,
    {
        let mut names: Vec<String> = Vec::new();
        let mut i: usize = 0;
        while i < self.names.len()
            invariant
                i <= self.names.len(),
                names@.len() == i,
                forall|j: int| 0 <= j < i ==> names@[j]@ == self.names@[j]@,
            decreases self.names.len() - i,
        {
            names.push(self.names[i].clone());
            i += 1;
        }
        let r = Self { names };
        proof {
            lemma_set_of_congruent(r.names@, self.names@);
        }
        r
    }

    /// A name list's contents form a finite set.
    pub proof fn lemma_finite(&self)
        ensures
            self@.finite(),
    {
        lemma_set_of_finite(self.names@);
    }
}

proof fn lemma_set_of_congruent(a: Seq<String>, b: Seq<String>)
    requires
        a.len() == b.len(),
        forall|j: int| 0 <= j < a.len() ==> a[j]@ == b[j]@,
    ensures
        set_of(a) == set_of(b),
    decreases a.len(),
{
    if a.len() > 0 {
        lemma_set_of_congruent(a.drop_last(), b.drop_last());
        assert(set_of(a) =~= set_of(b));
    }
}

/// A map from resource names to cached values, with one entry per name.
#[derive(Debug)]
pub struct NameMap<V> {
    entries: Vec<(String, V)>,
}

impl<V> View for NameMap<V> {
    type V = Map<Seq<char>, V>;

    closed spec fn view(&self) -> Map<Seq<char>, V> {
        map_of(self.entries@)
    }
}

impl<V> NameMap<V> {
    #[verifier::type_invariant]
    spec fn inv(self) -> bool {
        unique_keys(self.entries@)
    }

    pub fn new() -> (r: Self)
        ensures
            r@ == Map::<Seq<char>, V>::empty(),
    {
        Self { entries: Vec::new() }
    }

    /// A name map's domain is a finite set.
    pub proof fn lemma_finite(&self)
        ensures
            self@.dom().finite(),
    {
        lemma_map_of_finite(self.entries@);
    }

    pub fn contains_key(&self, name: &String) -> (r: bool)
        ensures
            r == self@.contains_key(name@),
    {
        let mut i: usize = 0;
        while i < self.entries.len()
            invariant
                i <= self.entries.len(),
                forall|j: int| 0 <= j < i ==> self.entries@[j].0@ != name@,
            decreases self.entries.len() - i,
        {
            if self.entries[i].0 == *name {
                proof {
                    lemma_map_of_contains(self.entries@, name@);
                }
                return true;
            }
            i += 1;
        }
        proof {
            lemma_map_of_contains(self.entries@, name@);
        }
        false
    }

    pub fn get(&self, name: &String) -> (r: Option<&V>)
        ensures
            r is Some <==> self@.contains_key(name@),
            r is Some ==> *r->0 == self@[name@],
    {
        proof {
            use_type_invariant(self);
        }
        let mut i: usize = 0;
        while i < self.entries.len()
            invariant
                i <= self.entries.len(),
                unique_keys(self.entries@),
                forall|j: int| 0 <= j < i ==> self.entries@[j].0@ != name@,
            decreases self.entries.len() - i,
        {
            if self.entries[i].0 == *name {
                proof {
                    lemma_map_of_contains(self.entries@, name@);
                    lemma_map_of_index(self.entries@, i as int);
                }
                return Some(&self.entries[i].1);
            }
            i += 1;
        }
        proof {
            lemma_map_of_contains(self.entries@, name@);
        }
        None
    }

    pub fn insert(&mut self, name: String, value: V)
        ensures
            final(self)@ == old(self)@.insert(name@, value),
    {
        proof {
            use_type_invariant(&*self);
        }
        let mut v: Vec<(String, V)> = Vec::new();
        std::mem::swap(&mut v, &mut self.entries);
        let ghost s0 = v@;
        let mut i: usize = 0;
        while i < v.len()
            invariant
                i <= v.len(),
                v@ == s0,
                unique_keys(s0),
                old(self)@ == map_of(s0),
                forall|j: int| 0 <= j < i ==> s0[j].0@ != name@,
            decreases v.len() - i,
        {
            if v[i].0 == name {
                proof {
                    lemma_map_of_remove(s0, i as int);
                    assert forall|a: int| 0 <= a < s0.remove(i as int).len() implies s0.remove(
                        i as int,
                    )[a].0@ != name@ by {
                        if a < i {
                            assert(s0.remove(i as int)[a] == s0[a]);
                        } else {
                            assert(s0.remove(i as int)[a] == s0[a + 1]);
                        }
                    }
                }
                v.remove(i);
                proof {
                    lemma_map_of_push(v@, name, value);
                    assert(map_of(s0).remove(name@).insert(name@, value) =~= map_of(s0).insert(
                        name@,
                        value,
                    ));
                }
                v.push((name, value));
                self.entries = v;
                return;
            }
            i += 1;
        }
        proof {
            lemma_map_of_push(v@, name, value);
        }
        v.push((name, value));
        self.entries = v;
    }
}

/// Removes from `map` every entry whose name is not in `keep`.
pub fn drain_filter<V>(map: &mut NameMap<V>, keep: &NameSet)
    ensures
        final(map)@ == old(map)@.restrict(keep@),
{
    proof {
        use_type_invariant(&*map);
    }
    let mut v: Vec<(String, V)> = Vec::new();
    std::mem::swap(&mut v, &mut map.entries);
    let ghost s0 = v@;
    let ghost mut k: int = 0;
    let mut i: usize = 0;
    while i < v.len()
        invariant
            unique_keys(s0),
            0 <= k <= s0.len(),
            i <= v@.len(),
            v@ == filter_keys(s0.take(k), keep@) + s0.skip(k),
            i == filter_keys(s0.take(k), keep@).len(),
            unique_keys(v@),
        decreases v.len() - i,
    {
        proof {
            assert(v@[i as int] == s0[k]);
            assert(s0.take(k + 1) =~= s0.take(k).push(s0[k]));
            assert(s0.take(k + 1).drop_last() =~= s0.take(k));
        }
        if keep.contains(&v[i].0) {
            proof {
                assert(filter_keys(s0.take(k + 1), keep@) =~= filter_keys(s0.take(k), keep@).push(
                    s0[k],
                ));
                assert(v@ =~= filter_keys(s0.take(k + 1), keep@) + s0.skip(k + 1));
            }
            i += 1;
            proof {
                k = k + 1;
            }
        } else {
            proof {
                assert(filter_keys(s0.take(k + 1), keep@) =~= filter_keys(s0.take(k), keep@));
                let removed = v@.remove(i as int);
                assert(removed =~= filter_keys(s0.take(k + 1), keep@) + s0.skip(k + 1));
                assert forall|a: int, b: int|
                    0 <= a < b < removed.len() implies removed[a].0@ != removed[b].0@ by {
                    let cur = v@;
                    if b < i {
                        assert(removed[a] == cur[a] && removed[b] == cur[b]);
                    } else if a < i {
                        assert(removed[a] == cur[a] && removed[b] == cur[b + 1]);
                    } else {
                        assert(removed[a] == cur[a + 1] && removed[b] == cur[b + 1]);
                    }
                }
            }
            v.remove(i);
            proof {
                k = k + 1;
            }
        }
    }
    proof {
        assert(s0.skip(k).len() == 0);
        assert(k == s0.len());
        assert(s0.take(k) =~= s0);
        assert(v@ =~= filter_keys(s0, keep@));
        lemma_filter_keys_restrict(s0, keep@);
    }
    map.entries = v;
}

/// The entries of `s` whose keys lie in `keep`, in order.
pub open spec fn filter_keys<V>(s: Seq<(String, V)>, keep: Set<Seq<char>>) -> Seq<(String, V)>
    decreases s.len(),
{
    if s.len() == 0 {
        Seq::empty()
    } else if keep.contains(s.last().0@) {
        filter_keys(s.drop_last(), keep).push(s.last())
    } else {
        filter_keys(s.drop_last(), keep)
    }
}

proof fn lemma_filter_keys_restrict<V>(s: Seq<(String, V)>, keep: Set<Seq<char>>)
    requires
        unique_keys(s),
    ensures
        map_of(filter_keys(s, keep)) == map_of(s).restrict(keep),
    decreases s.len(),
{
    if s.len() > 0 {
        assert(unique_keys(s.drop_last()));
        lemma_filter_keys_restrict(s.drop_last(), keep);
        if keep.contains(s.last().0@) {
            lemma_map_of_push(filter_keys(s.drop_last(), keep), s.last().0, s.last().1);
            assert(map_of(filter_keys(s, keep)) =~= map_of(s).restrict(keep));
        } else {
            assert(map_of(filter_keys(s, keep)) =~= map_of(s).restrict(keep));
        }
    } else {
        assert(map_of(filter_keys(s, keep)) =~= map_of(s).restrict(keep));
    }
}

} // verus!
