//! Parsed documents: a tree of values whose objects map unique keys to values.
use vstd::prelude::*;

verus! {

/// The mathematical value of a document node. A number is the literal text
/// it was written with.
pub enum ValueModel {
    Str(Seq<char>),
    Number(Seq<char>),
    Object(Map<Seq<char>, ValueModel>),
    Array(Seq<ValueModel>),
    Bool(bool),
    Null,
}

/// A node of a parsed document.
#[allow(non_camel_case_types)]
#[derive(Debug)]
pub enum JSON_Value {
    String(String),
    Number(String),
    Object(JSON_Object),
    Array(Vec<JSON_Value>),
    Bool(bool),
    Null,
}

/// A mapping from text keys to values, each key held once.
#[allow(non_camel_case_types)]
#[derive(Debug)]
pub struct JSON_Object {
    entries: Vec<(String, JSON_Value)>,
}

/// The model of a value.
pub open spec fn value_view(v: JSON_Value) -> ValueModel
    decreases v,
{
    match v {
        JSON_Value::String(s) => ValueModel::Str(s@),
        JSON_Value::Number(n) => ValueModel::Number(n@),
        JSON_Value::Object(o) => ValueModel::Object(object_view(o)),
        JSON_Value::Array(a) => ValueModel::Array(array_view(a@)),
        JSON_Value::Bool(b) => ValueModel::Bool(b),
        JSON_Value::Null => ValueModel::Null,
    }
}

/// The mapping that an object stands for.
pub closed spec fn object_view(o: JSON_Object) -> Map<Seq<char>, ValueModel>
    decreases o,
{
    entries_view(o.entries@)
}

/// The models of a sequence of values.
pub open spec fn array_view(s: Seq<JSON_Value>) -> Seq<ValueModel>
    decreases s,
{
    if s.len() == 0 {
        Seq::empty()
    } else {
        array_view(s.drop_last()).push(value_view(s.last()))
    }
}

/// The mapping that a list of entries stands for; a later entry wins over an
/// earlier one with the same key.
pub open spec fn entries_view(es: Seq<(String, JSON_Value)>) -> Map<Seq<char>, ValueModel>
    decreases es,
{
    if es.len() == 0 {
        Map::empty()
    } else {
        entries_view(es.drop_last()).insert(es.last().0@, value_view(es.last().1))
    }
}


/// No key stands in two entries.
pub open spec fn keys_unique(es: Seq<(String, JSON_Value)>) -> bool {
    forall|i: int, j: int| 0 <= i < j < es.len() ==> es[i].0@ != es[j].0@
}

proof fn lemma_entries_absent(es: Seq<(String, JSON_Value)>, k: Seq<char>)
    requires
        forall|i: int| 0 <= i < es.len() ==> es[i].0@ != k,
    ensures
        !entries_view(es).contains_key(k),
    decreases es.len(),
{
    if es.len() > 0 {
        lemma_entries_absent(es.drop_last(), k);
    }
}

proof fn lemma_entries_lookup(es: Seq<(String, JSON_Value)>, i: int)
    requires
        keys_unique(es),
        0 <= i < es.len(),
    ensures
        entries_view(es).contains_key(es[i].0@),
        entries_view(es)[es[i].0@] == value_view(es[i].1),
    decreases es.len(),
{
    if i < es.len() - 1 {
        lemma_entries_lookup(es.drop_last(), i);
        assert(es.drop_last()[i] == es[i]);
    }
}

proof fn lemma_entries_len(es: Seq<(String, JSON_Value)>)
    requires
        keys_unique(es),
    ensures
        entries_view(es).dom().finite(),
        entries_view(es).len() == es.len(),
    decreases es.len(),
{
    if es.len() > 0 {
        let init = es.drop_last();
        lemma_entries_len(init);
        assert forall|i: int| 0 <= i < init.len() implies init[i].0@ != es.last().0@ by {
            assert(init[i] == es[i]);
        }
        lemma_entries_absent(init, es.last().0@);
    }
}

proof fn lemma_entries_update(
    es: Seq<(String, JSON_Value)>,
    i: int,
    k: String,
    v: JSON_Value,
)
    requires
        keys_unique(es),
        0 <= i < es.len(),
        es[i].0@ == k@,
    ensures
        entries_view(es.update(i, (k, v))) == entries_view(es).insert(k@, value_view(v)),
    decreases es.len(),
{
    let es2 = es.update(i, (k, v));
    let last = es.last();
    if i == es.len() - 1 {
        assert(es2.drop_last() =~= es.drop_last());
        assert(entries_view(es2) =~= entries_view(es).insert(k@, value_view(v)));
    } else {
        assert(es2.drop_last() =~= es.drop_last().update(i, (k, v)));
        lemma_entries_update(es.drop_last(), i, k, v);
        assert(last.0@ != k@);
        assert(entries_view(es2) =~= entries_view(es).insert(k@, value_view(v)));
    }
}

impl JSON_Object {
    #[verifier::type_invariant]
    spec fn inv(self) -> bool {
        keys_unique(self.entries@)
    }

    /// An object with no entries.
    pub fn new() -> (o: JSON_Object)
        ensures
            object_view(o) == Map::<Seq<char>, ValueModel>::empty(),
    {
        let o = JSON_Object { entries: Vec::new() };
        proof {
            reveal(object_view);
        }
        o
    }

    /// The number of keys.
    pub fn len(&self) -> (r: usize)
        ensures
            object_view(*self).dom().finite(),
            r == object_view(*self).len(),
    {
        proof {
            use_type_invariant(self);
            lemma_entries_len(self.entries@);
        }
        self.entries.len()
    }

    /// The index of the entry for `key`, if there is one.
    fn find(&self, key: &str) -> (r: Option<usize>)
        ensures
            match r {
                Some(i) => i < self.entries@.len() && self.entries@[i as int].0@ == key@,
                None => forall|i: int| 0 <= i < self.entries@.len() ==> self.entries@[i].0@ != key@,
            },
    {
        let k = key.to_owned();
        let mut i: usize = 0;
        while i < self.entries.len()
            invariant
                k@ == key@,
                i <= self.entries@.len(),
                forall|j: int| 0 <= j < i ==> self.entries@[j].0@ != key@,
            decreases self.entries@.len() - i,
        {
            if self.entries[i].0 == k {
                return Some(i);
            }
            i = i + 1;
        }
        None
    }

    /// Whether the object has an entry for `key`.
    pub fn contains_key(&self, key: &str) -> (r: bool)
        ensures
            r == object_view(*self).contains_key(key@),
    {
        proof {
            use_type_invariant(self);
            reveal(object_view);
        }
        match self.find(key) {
            Some(i) => {
                proof {
                    lemma_entries_lookup(self.entries@, i as int);
                }
                true
            },
            None => {
                proof {
                    lemma_entries_absent(self.entries@, key@);
                }
                false
            },
        }
    }

    /// The value stored under `key`, if any.
    pub fn get(&self, key: &str) -> (r: Option<&JSON_Value>)
        ensures
            match r {
                Some(v) => object_view(*self).contains_key(key@) && value_view(*v) == object_view(
                    *self,
                )[key@],
                None => !object_view(*self).contains_key(key@),
            },
    {
        proof {
            use_type_invariant(self);
            reveal(object_view);
        }
        match self.find(key) {
            Some(i) => {
                proof {
                    lemma_entries_lookup(self.entries@, i as int);
                }
                Some(&self.entries[i].1)
            },
            None => {
                proof {
                    lemma_entries_absent(self.entries@, key@);
                }
                None
            },
        }
    }

    /// The keys, each once, in the order in which they were first inserted.
    pub fn keys(&self) -> (r: Vec<String>)
        ensures
            r@.len() == object_view(*self).len(),
            forall|i: int| 0 <= i < r@.len() ==> object_view(*self).contains_key(#[trigger] r@[i]@),
            forall|i: int, j: int| 0 <= i < j < r@.len() ==> r@[i]@ != r@[j]@,
    {
        proof {
            use_type_invariant(self);
            reveal(object_view);
            lemma_entries_len(self.entries@);
        }
        let mut keys: Vec<String> = Vec::new();
        let mut i: usize = 0;
        while i < self.entries.len()
            invariant
                keys_unique(self.entries@),
                i <= self.entries@.len(),
                keys@.len() == i,
                forall|j: int| 0 <= j < i ==> (#[trigger] keys@[j])@ == self.entries@[j].0@,
            decreases self.entries@.len() - i,
        {
            keys.push(self.entries[i].0.clone());
            i = i + 1;
        }
        proof {
            assert forall|j: int| 0 <= j < keys@.len() implies object_view(*self).contains_key(
                #[trigger] keys@[j]@,
            ) by {
                lemma_entries_lookup(self.entries@, j);
            }
        }
        keys
    }

    /// Stores `value` under `key`, replacing what was stored there before.
    pub fn insert(&mut self, key: String, value: JSON_Value)
        ensures
            object_view(*final(self)) == object_view(*old(self)).insert(key@, value_view(value)),
    {
        proof {
            use_type_invariant(&*self);
            reveal(object_view);
        }
        let ghost es = self.entries@;
        let ghost kv = key@;
        let ghost vv = value_view(value);
        let found = self.find(key.as_str());
        let mut taken = JSON_Object::new();
        std::mem::swap(self, &mut taken);
        let mut entries = taken.entries;
        match found {
            Some(i) => {
                proof {
                    lemma_entries_update(es, i as int, key, value);
                }
                entries.set(i, (key, value));
                proof {
                    assert(entries@ == es.update(i as int, (key, value)));
                    assert forall|a: int, b: int| 0 <= a < b < entries@.len() implies entries@[a].0@
                        != entries@[b].0@ by {
                        assert(entries@[a].0@ == es[a].0@);
                        assert(entries@[b].0@ == es[b].0@);
                    }
                }
            },
            None => {
                entries.push((key, value));
                proof {
                    assert(entries@.drop_last() =~= es);
                    assert forall|a: int, b: int| 0 <= a < b < entries@.len() implies entries@[a].0@
                        != entries@[b].0@ by {
                        if b < es.len() {
                            assert(entries@[a] == es[a] && entries@[b] == es[b]);
                        } else {
                            assert(entries@[a] == es[a]);
                        }
                    }
                }
            },
        }
        *self = JSON_Object { entries };
        assert(object_view(*self) == object_view(*old(self)).insert(kv, vv));
    }
}

} // verus!
