use crate::config::assoc;
use crate::scalar::Scalar;
use vstd::prelude::*;

verus! {

/// Whether no two entries of an association list share a name.
pub open spec fn keys_distinct<T>(s: Seq<(Seq<char>, T)>) -> bool {
    forall|i: int, j: int| 0 <= i < j < s.len() ==> s[i].0 != s[j].0
}

/// The mapping an association list denotes; an earlier entry wins over a
/// later one with the same name.
pub open spec fn map_of(s: Seq<(Seq<char>, Scalar)>) -> Map<Seq<char>, Scalar>
    decreases s.len(),
{
    if s.len() == 0 {
        Map::empty()
    } else {
        map_of(s.drop_first()).insert(s[0].0, s[0].1)
    }
}

/// A lookup succeeds exactly on the names the denoted mapping binds, and
/// then returns the bound value.
pub proof fn lemma_map_of_assoc(s: Seq<(Seq<char>, Scalar)>, key: Seq<char>)
    ensures
        map_of(s).contains_key(key) <==> assoc(s, key) is Some,
        assoc(s, key) matches Some(v) ==> map_of(s)[key] == v,
    decreases s.len(),
{
    if s.len() > 0 {
        lemma_map_of_assoc(s.drop_first(), key);
    }
}

/// A lookup fails exactly when no entry carries the name.
pub proof fn lemma_assoc_none<T>(s: Seq<(Seq<char>, T)>, key: Seq<char>)
    ensures
        assoc(s, key) is None <==> (forall|i: int| 0 <= i < s.len() ==> s[i].0 != key),
    decreases s.len(),
{
    if s.len() > 0 {
        lemma_assoc_none(s.drop_first(), key);
        assert(forall|i: int|
            1 <= i < s.len() ==> #[trigger] s[i] == s.drop_first()[i - 1]);
        assert(forall|i: int|
            0 <= i < s.drop_first().len() ==> #[trigger] s.drop_first()[i] == s[i + 1]);
    }
}

/// Overwriting the value of the first entry that carries a name denotes
/// insertion into the mapping.
proof fn lemma_map_of_update(s: Seq<(Seq<char>, Scalar)>, i: int, v: Scalar)
    requires
        0 <= i < s.len(),
        forall|j: int| 0 <= j < i ==> s[j].0 != s[i].0,
    ensures
        map_of(s.update(i, (s[i].0, v))) == map_of(s).insert(s[i].0, v),
    decreases s.len(),
{
    let t = s.update(i, (s[i].0, v));
    if i == 0 {
        assert(t.drop_first() =~= s.drop_first());
        assert(map_of(t) =~= map_of(s).insert(s[0].0, v));
    } else {
        assert(t.drop_first() =~= s.drop_first().update(i - 1, (s[i].0, v)));
        assert(s.drop_first()[i - 1] == s[i]);
        assert(forall|j: int|
            0 <= j < i - 1 ==> #[trigger] s.drop_first()[j].0 == s[j + 1].0);
        lemma_map_of_update(s.drop_first(), i - 1, v);
        assert(map_of(t) =~= map_of(s).insert(s[i].0, v));
    }
}

/// Appending an entry with a fresh name denotes insertion into the mapping.
proof fn lemma_map_of_push_fresh(s: Seq<(Seq<char>, Scalar)>, p: (Seq<char>, Scalar))
    requires
        assoc(s, p.0) is None,
    ensures
        map_of(s.push(p)) == map_of(s).insert(p.0, p.1),
    decreases s.len(),
{
    if s.len() == 0 {
        reveal_with_fuel(map_of, 3);
        assert(s.push(p)[0] == p);
        assert(s.push(p).drop_first() =~= Seq::<(Seq<char>, Scalar)>::empty());
        assert(map_of(s.push(p)) =~= map_of(s).insert(p.0, p.1));
    } else {
        assert(s.push(p)[0] == s[0]);
        assert(s.push(p).drop_first() =~= s.drop_first().push(p));
        lemma_map_of_push_fresh(s.drop_first(), p);
        assert(s[0].0 != p.0);
        assert(map_of(s.push(p)) =~= map_of(s).insert(p.0, p.1));
    }
}

/// The variable state of one program run: each variable's name bound to
/// its current value.  Assignment overwrites or inserts, declaration
/// inserts the zero scalar when the name is still unbound, and nothing
/// else mutates the state.
pub struct State {
    variables: Vec<(String, Scalar)>,
}

impl View for State {
    type V = Map<Seq<char>, Scalar>;

    closed spec fn view(&self) -> Map<Seq<char>, Scalar> {
        map_of(self.variables.deep_view())
    }
}

impl State {
    /// The entries as an association list: distinct names denoting
    /// exactly the state's mapping.
    pub closed spec fn list(&self) -> Seq<(Seq<char>, Scalar)> {
        self.variables.deep_view()
    }

    /// No two entries share a name.
    pub closed spec fn wf(&self) -> bool {
        keys_distinct(self.variables.deep_view())
    }

    /// A state with no variables.
    pub fn new() -> (r: State)
        ensures
            r@ == Map::<Seq<char>, Scalar>::empty(),
            r.wf(),
            r.list() == Seq::<(Seq<char>, Scalar)>::empty(),
    {
        let r = State { variables: Vec::new() };
        proof {
            assert(r.variables.deep_view() =~= Seq::<(Seq<char>, Scalar)>::empty());
        }
        r
    }

    /// The value bound to a name, if any.
    pub fn get(&self, name: &String) -> (r: Option<Scalar>)
        ensures
            r == (if self@.contains_key(name@) {
                Some(self@[name@])
            } else {
                None
            }),
    {
        let ghost dv = self.variables.deep_view();
        proof {
            lemma_map_of_assoc(dv, name@);
            assert(dv.skip(0) =~= dv);
        }
        let n = self.variables.len();
        let mut i: usize = 0;
        while i < n
            invariant
                n == self.variables.len(),
                i <= n,
                dv == self.variables.deep_view(),
                assoc(dv, name@) == assoc(dv.skip(i as int), name@),
            decreases n - i,
        {
            let pair = &self.variables[i];
            proof {
                assert(dv.skip(i as int)[0] == dv[i as int]);
                assert(dv[i as int] == (self.variables[i as int].0@, self.variables[i as int].1));
            }
            if pair.0 == *name {
                return Some(pair.1);
            }
            proof {
                assert(dv.skip(i as int).drop_first() =~= dv.skip(i + 1));
            }
            i += 1;
        }
        None
    }

    /// Binds a value to a name, overwriting any earlier binding.
    pub fn set(&mut self, name: String, value: Scalar)
        requires
            old(self).wf(),
        ensures
            final(self).wf(),
            final(self)@ == old(self)@.insert(name@, value),
    {
        let ghost dv = self.variables.deep_view();
        proof {
            assert(dv.skip(0) =~= dv);
        }
        let n = self.variables.len();
        let mut i: usize = 0;
        while i < n
            invariant
                n == self.variables.len(),
                i <= n,
                dv == self.variables.deep_view(),
                forall|j: int| 0 <= j < i ==> dv[j].0 != name@,
            decreases n - i,
        {
            proof {
                assert(dv[i as int] == (self.variables[i as int].0@, self.variables[i as int].1));
            }
            let found = self.variables[i].0 == name;
            if found {
                let pair = (name, value);
                self.variables.remove(i);
                self.variables.insert(i, pair);
                proof {
                    let dv2 = self.variables.deep_view();
                    assert(dv2 =~= dv.update(i as int, (dv[i as int].0, value)));
                    lemma_map_of_update(dv, i as int, value);
                    assert(forall|j: int| 0 <= j < dv.len() ==> #[trigger] dv2[j].0 == dv[j].0);
                    assert(keys_distinct(dv2));
                }
                return ;
            }
            i += 1;
        }
        proof {
            lemma_assoc_none(dv, name@);
        }
        let ghost nv = name@;
        self.variables.push((name, value));
        proof {
            let dv2 = self.variables.deep_view();
            assert(dv2 =~= dv.push((nv, value)));
            lemma_map_of_push_fresh(dv, (nv, value));
            lemma_assoc_none(dv, nv);
            assert(forall|j: int| 0 <= j < dv.len() ==> #[trigger] dv2[j] == dv[j]);
            assert(keys_distinct(dv2));
        }
    }

    /// Binds the zero scalar to a name that is still unbound; an already
    /// bound name is left untouched.
    pub fn declare(&mut self, name: String)
        requires
            old(self).wf(),
        ensures
            final(self).wf(),
            final(self)@ == (if old(self)@.contains_key(name@) {
                old(self)@
            } else {
                old(self)@.insert(name@, Scalar { bits: 0 })
            }),
    {
        let present = self.get(&name).is_some();
        if !present {
            let ghost dv = self.variables.deep_view();
            let ghost nv = name@;
            proof {
                lemma_map_of_assoc(dv, nv);
            }
            self.variables.push((name, Scalar::zero()));
            proof {
                let dv2 = self.variables.deep_view();
                assert(dv2 =~= dv.push((nv, Scalar { bits: 0 })));
                lemma_map_of_push_fresh(dv, (nv, Scalar { bits: 0 }));
                lemma_assoc_none(dv, nv);
                assert(forall|j: int| 0 <= j < dv.len() ==> #[trigger] dv2[j] == dv[j]);
                assert(keys_distinct(dv2));
            }
        }
    }

    /// The bindings as a list of name/value pairs, in insertion order.
    pub fn entries(&self) -> (r: &Vec<(String, Scalar)>)
        ensures
            r.deep_view() == self.list(),
            map_of(r.deep_view()) == self@,
    {
        &self.variables
    }
}

} // verus!
