//! Values of the evaluation environment, and string-keyed maps kept as
//! lists of pairs.

use vstd::prelude::*;

verus! {

broadcast use vstd::std_specs::vec::axiom_vec_decreases_to_view;

/// The map that a list of pairs stands for: a later pair overrides an
/// earlier one with the same key.
pub open spec fn pairs_map<A>(s: Seq<(Seq<char>, A)>) -> Map<Seq<char>, A>
    decreases s.len(),
{
    if s.len() == 0 {
        Map::empty()
    } else {
        pairs_map(s.drop_last()).insert(s.last().0, s.last().1)
    }
}

/// `i` is the last index holding key `k`.
pub open spec fn last_key_at<A>(s: Seq<(Seq<char>, A)>, k: Seq<char>, i: int) -> bool {
    &&& 0 <= i < s.len()
    &&& s[i].0 == k
    &&& forall|j: int| i < j < s.len() ==> (#[trigger] s[j]).0 != k
}

pub proof fn lemma_pairs_map_push<A>(s: Seq<(Seq<char>, A)>, k: Seq<char>, v: A)
    ensures
        pairs_map(s.push((k, v))) == pairs_map(s).insert(k, v),
{
    assert(s.push((k, v)).drop_last() =~= s);
}

pub proof fn lemma_pairs_map_absent<A>(s: Seq<(Seq<char>, A)>, k: Seq<char>)
    requires
        forall|j: int| 0 <= j < s.len() ==> (#[trigger] s[j]).0 != k,
    ensures
        !pairs_map(s).contains_key(k),
    decreases s.len(),
{
    if s.len() > 0 {
        assert(s.last() == s[s.len() - 1]);
        lemma_pairs_map_absent(s.drop_last(), k);
    }
}

pub proof fn lemma_pairs_map_at<A>(s: Seq<(Seq<char>, A)>, k: Seq<char>, i: int)
    requires
        last_key_at(s, k, i),
    ensures
        pairs_map(s).contains_key(k),
        pairs_map(s)[k] == s[i].1,
    decreases s.len(),
{
    if i < s.len() - 1 {
        assert(s.last() == s[s.len() - 1]);
        assert(last_key_at(s.drop_last(), k, i)) by {
            assert forall|j: int| i < j < s.drop_last().len() implies (#[trigger] s.drop_last()[j]).0
                != k by {
                assert(s.drop_last()[j] == s[j]);
            }
        }
        lemma_pairs_map_at(s.drop_last(), k, i);
    }
}

pub proof fn lemma_pairs_map_update<A>(s: Seq<(Seq<char>, A)>, k: Seq<char>, i: int, v: A)
    requires
        last_key_at(s, k, i),
    ensures
        pairs_map(s.update(i, (k, v))) == pairs_map(s).insert(k, v),
    decreases s.len(),
{
    let u = s.update(i, (k, v));
    if i == s.len() - 1 {
        assert(u.drop_last() =~= s.drop_last());
        assert(pairs_map(u) =~= pairs_map(s).insert(k, v));
    } else {
        assert(s.last() == s[s.len() - 1]);
        assert(u.drop_last() =~= s.drop_last().update(i, (k, v)));
        assert(last_key_at(s.drop_last(), k, i)) by {
            assert forall|j: int| i < j < s.drop_last().len() implies (#[trigger] s.drop_last()[j]).0
                != k by {
                assert(s.drop_last()[j] == s[j]);
            }
        }
        lemma_pairs_map_update(s.drop_last(), k, i, v);
        assert(u.last() == s.last());
        assert(pairs_map(u) =~= pairs_map(s).insert(k, v));
    }
}

/// The key of the last pair of `s` whose key is `k`, searching from the end.
pub fn find_last_key<A>(s: &Vec<(String, A)>, k: &str) -> (r: Option<usize>)
    ensures
        match r {
            Some(i) => i < s@.len() && s@[i as int].0@ == k@ && forall|j: int|
                i < j < s@.len() ==> (#[trigger] s@[j]).0@ != k@,
            None => forall|j: int| 0 <= j < s@.len() ==> (#[trigger] s@[j]).0@ != k@,
        },
{
    let mut i = s.len();
    while i > 0
        invariant
            i <= s@.len(),
            forall|j: int| i <= j < s@.len() ==> (#[trigger] s@[j]).0@ != k@,
        decreases i,
    {
        i -= 1;
        if crate::text::same_text(s[i].0.as_str(), k) {
            return Some(i);
        }
    }
    None
}

// ----- signal maps --------------------------------------------------------------

pub open spec fn signals_pairs(s: Seq<(String, i64)>) -> Seq<(Seq<char>, i64)> {
    s.map_values(|p: (String, i64)| (p.0@, p.1))
}

/// A signal-name → value map kept as a list of pairs.
pub open spec fn signals_map(s: Seq<(String, i64)>) -> Map<Seq<char>, i64> {
    pairs_map(signals_pairs(s))
}

proof fn lemma_signals_last(s: Seq<(String, i64)>, k: Seq<char>, i: int)
    requires
        0 <= i < s.len(),
        s[i].0@ == k,
        forall|j: int| i < j < s.len() ==> (#[trigger] s[j]).0@ != k,
    ensures
        last_key_at(signals_pairs(s), k, i),
{
    assert forall|j: int| i < j < signals_pairs(s).len() implies (#[trigger] signals_pairs(
        s,
    )[j]).0 != k by {
        assert(signals_pairs(s)[j].0 == s[j].0@);
    }
}

/// The value recorded for `k`.
pub fn signal_get(s: &Vec<(String, i64)>, k: &str) -> (r: Option<i64>)
    ensures
        r == (if signals_map(s@).contains_key(k@) {
            Some(signals_map(s@)[k@])
        } else {
            None
        }),
{
    match find_last_key(s, k) {
        Some(i) => {
            proof {
                lemma_signals_last(s@, k@, i as int);
                lemma_pairs_map_at(signals_pairs(s@), k@, i as int);
            }
            Some(s[i].1)
        },
        None => {
            proof {
                assert forall|j: int| 0 <= j < signals_pairs(s@).len() implies (#[trigger] signals_pairs(
                    s@,
                )[j]).0 != k@ by {
                    assert(signals_pairs(s@)[j].0 == s@[j].0@);
                }
                lemma_pairs_map_absent(signals_pairs(s@), k@);
            }
            None
        },
    }
}

/// Records `v` for `k`, replacing an earlier value.
pub fn signal_insert(s: &mut Vec<(String, i64)>, k: String, v: i64)
    ensures
        signals_map(final(s)@) == signals_map(old(s)@).insert(k@, v),
{
    match find_last_key(s, k.as_str()) {
        Some(i) => {
            proof {
                lemma_signals_last(s@, k@, i as int);
                lemma_pairs_map_update(signals_pairs(s@), k@, i as int, v);
            }
            let ghost k2 = k@;
            s.set(i, (k, v));
            assert(signals_pairs(s@) =~= signals_pairs(old(s)@).update(i as int, (k2, v)));
        },
        None => {
            let ghost k2 = k@;
            s.push((k, v));
            proof {
                assert(signals_pairs(s@) =~= signals_pairs(old(s)@).push((k2, v)));
                lemma_pairs_map_push(signals_pairs(old(s)@), k2, v);
            }
        },
    }
}

/// A copy of a list of pairs.
pub fn copy_signals(s: &Vec<(String, i64)>) -> (r: Vec<(String, i64)>)
    ensures
        signals_pairs(r@) == signals_pairs(s@),
{
    let mut r: Vec<(String, i64)> = Vec::new();
    let mut i: usize = 0;
    while i < s.len()
        invariant
            i <= s@.len(),
            signals_pairs(r@) == signals_pairs(s@.take(i as int)),
        decreases s.len() - i,
    {
        r.push((s[i].0.clone(), s[i].1));
        assert(signals_pairs(s@.take(i + 1)) =~= signals_pairs(s@.take(i as int)).push(
            (s@[i as int].0@, s@[i as int].1),
        ));
        assert(signals_pairs(r@) =~= signals_pairs(s@.take(i + 1)));
        i += 1;
    }
    assert(s@.take(s@.len() as int) =~= s@);
    r
}

// ----- values -------------------------------------------------------------------

/// A computed value carried in the evaluation environment.
#[derive(Debug)]
pub enum Value {
    Int(i64),
    /// A signal that has been declared but not yet assigned; it reads as 0.
    UnsetSignal,
    /// A sub-component instance with its signal values; reading
    /// `comp.signal` looks them up.
    Component { template: String, signals: Vec<(String, i64)> },
    /// An array, for `signal x[N]` declarations.
    Array(Vec<Value>),
}

/// The mathematical form of a value.
pub enum ValueV {
    Int(i64),
    UnsetSignal,
    Component { template: Seq<char>, signals: Map<Seq<char>, i64> },
    Array(Seq<ValueV>),
}

pub open spec fn value_view(v: Value) -> ValueV
    decreases v,
{
    match v {
        Value::Int(n) => ValueV::Int(n),
        Value::UnsetSignal => ValueV::UnsetSignal,
        Value::Component { template, signals } => ValueV::Component {
            template: template@,
            signals: signals_map(signals@),
        },
        Value::Array(a) => ValueV::Array(values_view(a@)),
    }
}

pub open spec fn values_view(s: Seq<Value>) -> Seq<ValueV>
    decreases s,
{
    if s.len() == 0 {
        Seq::empty()
    } else {
        values_view(s.drop_last()).push(value_view(s.last()))
    }
}

impl View for Value {
    type V = ValueV;

    open spec fn view(&self) -> ValueV {
        value_view(*self)
    }
}

pub proof fn lemma_values_view(s: Seq<Value>)
    ensures
        values_view(s).len() == s.len(),
        forall|i: int| 0 <= i < s.len() ==> #[trigger] values_view(s)[i] == value_view(s[i]),
    decreases s.len(),
{
    if s.len() > 0 {
        lemma_values_view(s.drop_last());
    }
}

/// The integer a value reads as: a set integer, or 0 for an unset signal.
pub open spec fn value_as_int(v: ValueV) -> Option<i64> {
    match v {
        ValueV::Int(n) => Some(n),
        ValueV::UnsetSignal => Some(0),
        _ => None,
    }
}

impl Value {
    pub fn as_int(&self) -> (r: Option<i64>)
        ensures
            r == value_as_int(self@),
    {
        match self {
            Value::Int(n) => Some(*n),
            Value::UnsetSignal => Some(0),
            _ => None,
        }
    }
}

/// A copy of `v`.
#[verifier::loop_isolation(false)]
pub fn copy_value(v: &Value) -> (r: Value)
    ensures
        r@ == v@,
    decreases v,
{
    match v {
        Value::Int(n) => Value::Int(*n),
        Value::UnsetSignal => Value::UnsetSignal,
        Value::Component { template, signals } => {
            let s = copy_signals(signals);
            Value::Component { template: template.clone(), signals: s }
        },
        Value::Array(a) => {
            proof {
                assert(decreases_to!(*v => (*v)->Array_0));
            }
            Value::Array(copy_values(a))
        },
    }
}

/// A copy of a list of values.
#[verifier::loop_isolation(false)]
pub fn copy_values(a: &Vec<Value>) -> (r: Vec<Value>)
    ensures
        values_view(r@) == values_view(a@),
    decreases a,
{
    let mut out: Vec<Value> = Vec::new();
    let mut i: usize = 0;
    while i < a.len()
        invariant
            i <= a@.len(),
            out@.len() == i,
            forall|k: int| 0 <= k < i ==> value_view(#[trigger] out@[k]) == value_view(a@[k]),
        decreases a.len() - i,
    {
        proof {
            vstd::std_specs::vec::axiom_vec_index_decreases(*a, i as int);
        }
        out.push(copy_value(&a[i]));
        i += 1;
    }
    proof {
        lemma_values_view(out@);
        lemma_values_view(a@);
        assert(values_view(out@) =~= values_view(a@));
    }
    out
}

/// `n` zeros.
pub fn zeros(n: usize) -> (r: Vec<Value>)
    ensures
        values_view(r@) == Seq::new(n as nat, |k: int| ValueV::Int(0)),
{
    let mut out: Vec<Value> = Vec::new();
    let mut i: usize = 0;
    while i < n
        invariant
            i <= n,
            values_view(out@) == Seq::new(i as nat, |k: int| ValueV::Int(0)),
        decreases n - i,
    {
        let ghost before = out@;
        out.push(Value::Int(0));
        assert(out@.drop_last() =~= before);
        assert(values_view(out@) == values_view(before).push(value_view(Value::Int(0))));
        assert(value_view(Value::Int(0)) == ValueV::Int(0));
        assert(values_view(out@) =~= Seq::new((i + 1) as nat, |k: int| ValueV::Int(0)));
        i += 1;
    }
    out
}

// ----- the environment ----------------------------------------------------------

pub open spec fn env_pairs(s: Seq<(String, Value)>) -> Seq<(Seq<char>, ValueV)> {
    s.map_values(|p: (String, Value)| (p.0@, p.1@))
}

/// Names in scope and their values: a list of bindings in which the last
/// one of a name holds.
pub struct Env {
    pub entries: Vec<(String, Value)>,
}

impl View for Env {
    type V = Map<Seq<char>, ValueV>;

    open spec fn view(&self) -> Map<Seq<char>, ValueV> {
        pairs_map(env_pairs(self.entries@))
    }
}

proof fn lemma_env_last(s: Seq<(String, Value)>, k: Seq<char>, i: int)
    requires
        0 <= i < s.len(),
        s[i].0@ == k,
        forall|j: int| i < j < s.len() ==> (#[trigger] s[j]).0@ != k,
    ensures
        last_key_at(env_pairs(s), k, i),
{
    assert forall|j: int| i < j < env_pairs(s).len() implies (#[trigger] env_pairs(s)[j]).0
        != k by {
        assert(env_pairs(s)[j].0 == s[j].0@);
    }
}

proof fn lemma_env_absent(s: Seq<(String, Value)>, k: Seq<char>)
    requires
        forall|j: int| 0 <= j < s.len() ==> (#[trigger] s[j]).0@ != k,
    ensures
        !pairs_map(env_pairs(s)).contains_key(k),
{
    assert forall|j: int| 0 <= j < env_pairs(s).len() implies (#[trigger] env_pairs(s)[j]).0
        != k by {
        assert(env_pairs(s)[j].0 == s[j].0@);
    }
    lemma_pairs_map_absent(env_pairs(s), k);
}

impl Env {
    pub fn new() -> (e: Env)
        ensures
            e@ == Map::<Seq<char>, ValueV>::empty(),
    {
        let e = Env { entries: Vec::new() };
        assert(env_pairs(e.entries@) =~= Seq::<(Seq<char>, ValueV)>::empty());
        e
    }

    pub fn get(&self, k: &str) -> (r: Option<&Value>)
        ensures
            match r {
                Some(v) => self@.contains_key(k@) && v@ == self@[k@],
                None => !self@.contains_key(k@),
            },
    {
        match find_last_key(&self.entries, k) {
            Some(i) => {
                proof {
                    lemma_env_last(self.entries@, k@, i as int);
                    lemma_pairs_map_at(env_pairs(self.entries@), k@, i as int);
                }
                Some(&self.entries[i].1)
            },
            None => {
                proof {
                    lemma_env_absent(self.entries@, k@);
                }
                None
            },
        }
    }

    pub fn contains_key(&self, k: &str) -> (r: bool)
        ensures
            r == self@.contains_key(k@),
    {
        self.get(k).is_some()
    }

    pub fn insert(&mut self, k: String, v: Value)
        ensures
            final(self)@ == old(self)@.insert(k@, v@),
    {
        let ghost k2 = k@;
        let ghost v2 = v@;
        match find_last_key(&self.entries, k.as_str()) {
            Some(i) => {
                proof {
                    lemma_env_last(self.entries@, k2, i as int);
                    lemma_pairs_map_update(env_pairs(self.entries@), k2, i as int, v2);
                }
                self.entries.set(i, (k, v));
                assert(env_pairs(self.entries@) =~= env_pairs(old(self).entries@).update(
                    i as int,
                    (k2, v2),
                ));
            },
            None => {
                self.entries.push((k, v));
                proof {
                    assert(env_pairs(self.entries@) =~= env_pairs(old(self).entries@).push(
                        (k2, v2),
                    ));
                    lemma_pairs_map_push(env_pairs(old(self).entries@), k2, v2);
                }
            },
        }
    }

    /// The value of `k` as an integer: a set integer, or 0 for an unset
    /// signal; `None` for anything else or a missing name.
    pub fn get_int(&self, k: &str) -> (r: Option<i64>)
        ensures
            r == (if self@.contains_key(k@) {
                value_as_int(self@[k@])
            } else {
                None
            }),
    {
        match self.get(k) {
            Some(v) => v.as_int(),
            None => None,
        }
    }

    pub fn copy(&self) -> (r: Env)
        ensures
            r@ == self@,
    {
        let mut out: Vec<(String, Value)> = Vec::new();
        let mut i: usize = 0;
        while i < self.entries.len()
            invariant
                i <= self.entries@.len(),
                env_pairs(out@) == env_pairs(self.entries@.take(i as int)),
            decreases self.entries.len() - i,
        {
            let k = self.entries[i].0.clone();
            let v = copy_value(&self.entries[i].1);
            out.push((k, v));
            assert(env_pairs(self.entries@.take(i + 1)) =~= env_pairs(
                self.entries@.take(i as int),
            ).push((self.entries@[i as int].0@, self.entries@[i as int].1@)));
            assert(env_pairs(out@) =~= env_pairs(self.entries@.take(i + 1)));
            i += 1;
        }
        assert(self.entries@.take(self.entries@.len() as int) =~= self.entries@);
        Env { entries: out }
    }
}

} // verus!
