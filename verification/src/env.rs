//! The variable environment: a flat mapping from variable names to 64-bit
//! signed values, owned by the run driver and mutated in place. Names are
//! never removed. Its mathematical view is a map from character sequences to
//! values.

use vstd::prelude::*;

verus! {

/// The global variable environment of one program run.
pub struct Environment {
    entries: Vec<(String, i64)>,
}

/// The map denoted by a sequence of bindings; later bindings overwrite.
spec fn entries_view(s: Seq<(String, i64)>) -> Map<Seq<char>, i64>
    decreases s.len(),
{
    if s.len() == 0 {
        Map::empty()
    } else {
        entries_view(s.drop_last()).insert(s.last().0@, s.last().1)
    }
}

/// No two bindings share a name.
spec fn keys_distinct(s: Seq<(String, i64)>) -> bool {
    forall|i: int, j: int| 0 <= i < j < s.len() ==> s[i].0@ != s[j].0@
}

proof fn lemma_view_domain(s: Seq<(String, i64)>, k: Seq<char>)
    ensures
        entries_view(s).contains_key(k) <==> exists|i: int| 0 <= i < s.len() && s[i].0@ == k,
    decreases s.len(),
{
    if s.len() > 0 {
        lemma_view_domain(s.drop_last(), k);
        if s.last().0@ == k {
            assert(s[s.len() - 1].0@ == k);
        } else if entries_view(s).contains_key(k) {
            let i = choose|i: int| 0 <= i < s.drop_last().len() && s.drop_last()[i].0@ == k;
            assert(s[i].0@ == k);
        } else {
            assert(forall|i: int|
                0 <= i < s.len() - 1 ==> s.drop_last()[i] == s[i]);
        }
    }
}

proof fn lemma_view_at(s: Seq<(String, i64)>, i: int)
    requires
        keys_distinct(s),
        0 <= i < s.len(),
    ensures
        entries_view(s).contains_key(s[i].0@),
        entries_view(s)[s[i].0@] == s[i].1,
    decreases s.len(),
{
    if i == s.len() - 1 {
    } else {
        assert(forall|j: int| 0 <= j < s.len() - 1 ==> s.drop_last()[j] == s[j]);
        lemma_view_at(s.drop_last(), i);
        assert(s[i].0@ != s.last().0@);
    }
}

proof fn lemma_view_update(s: Seq<(String, i64)>, i: int, p: (String, i64))
    requires
        keys_distinct(s),
        0 <= i < s.len(),
        p.0@ == s[i].0@,
    ensures
        entries_view(s.update(i, p)) == entries_view(s).insert(p.0@, p.1),
    decreases s.len(),
{
    let t = s.update(i, p);
    if i == s.len() - 1 {
        assert(t.drop_last() =~= s.drop_last());
        assert(t.last() == p);
        assert(entries_view(t) =~= entries_view(s).insert(p.0@, p.1));
    } else {
        assert(forall|j: int| 0 <= j < s.len() - 1 ==> s.drop_last()[j] == s[j]);
        lemma_view_update(s.drop_last(), i, p);
        assert(t.drop_last() =~= s.drop_last().update(i, p));
        assert(t.last() == s.last());
        assert(s[i].0@ != s.last().0@);
        assert(entries_view(t) =~= entries_view(s).insert(p.0@, p.1));
    }
}

impl Environment {
    /// All names are distinct, so lookups are unambiguous.
    pub closed spec fn wf(&self) -> bool {
        keys_distinct(self.entries@)
    }

    pub closed spec fn view(&self) -> Map<Seq<char>, i64> {
        entries_view(self.entries@)
    }

    /// An empty environment, as created at the start of a program run.
    pub fn new() -> (r: Environment)
        ensures
            r.wf(),
            r@ == Map::<Seq<char>, i64>::empty(),
    {
        Environment { entries: Vec::new() }
    }

    /// The value bound to `name`, if any.
    pub fn get(&self, name: &String) -> (r: Option<i64>)
        requires
            self.wf(),
        ensures
            match r {
                Some(v) => self@.contains_key(name@) && self@[name@] == v,
                None => !self@.contains_key(name@),
            },
    {
        let n = self.entries.len();
        let mut i: usize = 0;
        while i < n
            invariant
                n == self.entries.len(),
                i <= n,
                self.wf(),
                forall|j: int| 0 <= j < i ==> self.entries@[j].0@ != name@,
            decreases n - i,
        {
            if self.entries[i].0 == *name {
                proof {
                    lemma_view_at(self.entries@, i as int);
                }
                return Some(self.entries[i].1);
            }
            i = i + 1;
        }
        proof {
            lemma_view_domain(self.entries@, name@);
        }
        None
    }

    /// Binds `name` to `value`, overwriting any existing binding.
    pub fn set(&mut self, name: &String, value: i64)
        requires
            old(self).wf(),
        ensures
            final(self).wf(),
            final(self)@ == old(self)@.insert(name@, value),
    {
        let n = self.entries.len();
        let mut i: usize = 0;
        while i < n
            invariant
                n == self.entries.len(),
                i <= n,
                self.wf(),
                self == old(self),
                forall|j: int| 0 <= j < i ==> self.entries@[j].0@ != name@,
            decreases n - i,
        {
            if self.entries[i].0 == *name {
                let ghost s0 = self.entries@;
                let pair = (name.clone(), value);
                self.entries.remove(i);
                self.entries.insert(i, pair);
                proof {
                    assert(self.entries@ =~= s0.update(i as int, pair));
                    lemma_view_update(s0, i as int, pair);
                    assert(forall|a: int, b: int|
                        0 <= a < b < self.entries@.len() ==> {
                            &&& self.entries@[a].0@ == s0[a].0@
                            &&& self.entries@[b].0@ == s0[b].0@
                        });
                }
                return ;
            }
            i = i + 1;
        }
        let ghost s0 = self.entries@;
        self.entries.push((name.clone(), value));
        proof {
            assert(self.entries@.drop_last() =~= s0);
            lemma_view_domain(s0, name@);
            assert(forall|a: int, b: int| 0 <= a < b < self.entries@.len() && b < s0.len()
                ==> self.entries@[a] == s0[a] && self.entries@[b] == s0[b]);
            assert(self.wf());
        }
    }
}

} // verus!
