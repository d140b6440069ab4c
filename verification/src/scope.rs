//! The binding environment: names bound to values.

use vstd::prelude::*;
use crate::error::{Error, Failure};
use crate::value::{Expr, Value};

verus! {

/// The mathematical view of a [`Scope`]: a finite map from names to expressions.
pub type Env = Map<Seq<char>, Expr>;

/// Whether no value that the environment binds holds a negative number or index.
pub open spec fn env_unsigned(env: Env) -> bool {
    forall|name: Seq<char>| env.contains_key(name) ==> (#[trigger] env[name]).unsigned()
}

/// The environment that a list of bindings stands for. Where a name stands
/// twice, the earlier binding is the one that counts.
pub closed spec fn env_of(entries: Seq<(String, Value)>) -> Env
    decreases entries.len(),
{
    if entries.len() == 0 {
        Map::empty()
    } else {
        let rest = env_of(entries.drop_last());
        let last = entries.last();
        if rest.contains_key(last.0@) {
            rest
        } else {
            rest.insert(last.0@, last.1@)
        }
    }
}

/// A name that no binding carries is not bound.
proof fn lemma_env_absent(entries: Seq<(String, Value)>, key: Seq<char>)
    requires
        forall|j: int| 0 <= j < entries.len() ==> (#[trigger] entries[j]).0@ != key,
    ensures
        !env_of(entries).contains_key(key),
    decreases entries.len(),
{
    if entries.len() > 0 {
        let rest = entries.drop_last();
        assert forall|j: int| 0 <= j < rest.len() implies (#[trigger] rest[j]).0@ != key by {
            assert(rest[j] == entries[j]);
        }
        lemma_env_absent(rest, key);
        assert(entries.last() == entries[entries.len() - 1]);
    }
}

/// The first binding of a name is the one the environment holds.
proof fn lemma_env_first(entries: Seq<(String, Value)>, i: int)
    requires
        0 <= i < entries.len(),
        forall|j: int| 0 <= j < i ==> (#[trigger] entries[j]).0@ != entries[i].0@,
    ensures
        env_of(entries).contains_key(entries[i].0@),
        env_of(entries)[entries[i].0@] == entries[i].1@,
    decreases entries.len(),
{
    let rest = entries.drop_last();
    if i == entries.len() - 1 {
        assert forall|j: int| 0 <= j < rest.len() implies (#[trigger] rest[j]).0@
            != entries[i].0@ by {
            assert(rest[j] == entries[j]);
        }
        lemma_env_absent(rest, entries[i].0@);
    } else {
        assert(rest[i] == entries[i]);
        assert forall|j: int| 0 <= j < i implies (#[trigger] rest[j]).0@ != rest[i].0@ by {
            assert(rest[j] == entries[j]);
        }
        lemma_env_first(rest, i);
    }
}

/// Replacing the first binding of a name rebinds that name and no other.
proof fn lemma_env_update(entries: Seq<(String, Value)>, i: int, entry: (String, Value))
    requires
        0 <= i < entries.len(),
        entries[i].0@ == entry.0@,
        forall|j: int| 0 <= j < i ==> (#[trigger] entries[j]).0@ != entry.0@,
    ensures
        env_of(entries.update(i, entry)) == env_of(entries).insert(entry.0@, entry.1@),
    decreases entries.len(),
{
    let rest = entries.drop_last();
    let updated = entries.update(i, entry);
    if i == entries.len() - 1 {
        assert(updated.drop_last() =~= rest);
        assert forall|j: int| 0 <= j < rest.len() implies (#[trigger] rest[j]).0@ != entry.0@ by {
            assert(rest[j] == entries[j]);
        }
        lemma_env_absent(rest, entry.0@);
        assert(env_of(updated) =~= env_of(entries).insert(entry.0@, entry.1@));
    } else {
        assert(updated.drop_last() =~= rest.update(i, entry));
        assert(rest[i] == entries[i]);
        assert forall|j: int| 0 <= j < i implies (#[trigger] rest[j]).0@ != entry.0@ by {
            assert(rest[j] == entries[j]);
        }
        lemma_env_update(rest, i, entry);
        lemma_env_first(rest, i);
        assert(updated.last() == entries.last());
        assert(env_of(updated) =~= env_of(entries).insert(entry.0@, entry.1@));
    }
}

/// Binding a name that no binding carries yet adds it.
proof fn lemma_env_push(entries: Seq<(String, Value)>, entry: (String, Value))
    requires
        forall|j: int| 0 <= j < entries.len() ==> (#[trigger] entries[j]).0@ != entry.0@,
    ensures
        env_of(entries.push(entry)) == env_of(entries).insert(entry.0@, entry.1@),
{
    assert(entries.push(entry).drop_last() =~= entries);
    lemma_env_absent(entries, entry.0@);
}

/// Names bound to values.
pub struct Scope {
    entries: Vec<(String, Value)>,
}

impl View for Scope {
    type V = Env;

    closed spec fn view(&self) -> Env {
        env_of(self.entries@)
    }
}

impl Scope {
    /// The environment that binds nothing.
    pub fn new() -> (res: Scope)
        ensures
            res@ == Map::<Seq<char>, Expr>::empty(),
    {
        Scope { entries: Vec::new() }
    }

    /// The place of the first binding of `key`.
    fn find(&self, key: &String) -> (res: Option<usize>)
        ensures
            match res {
                Some(i) => i < self.entries@.len() && self.entries@[i as int].0@ == key@
                    && forall|j: int| 0 <= j < i ==> (#[trigger] self.entries@[j]).0@ != key@,
                None => forall|j: int|
                    0 <= j < self.entries@.len() ==> (#[trigger] self.entries@[j]).0@ != key@,
            },
    {
        let mut i: usize = 0;
        while i < self.entries.len()
            invariant
                i <= self.entries@.len(),
                forall|j: int| 0 <= j < i ==> (#[trigger] self.entries@[j]).0@ != key@,
            decreases self.entries@.len() - i,
        {
            if self.entries[i].0 == *key {
                return Some(i);
            }
            i += 1;
        }
        None
    }

    /// Binds `name` to `value`, in place of what it was bound to before.
    pub fn set(&mut self, name: &str, value: Value)
        ensures
            final(self)@ == old(self)@.insert(name@, value@),
    {
        let key = name.to_owned();
        match self.find(&key) {
            Some(i) => {
                proof {
                    lemma_env_update(self.entries@, i as int, (key, value));
                }
                self.entries.set(i, (key, value));
            },
            None => {
                proof {
                    lemma_env_push(self.entries@, (key, value));
                }
                self.entries.push((key, value));
            },
        }
    }

    /// What `name` is bound to, if it is bound.
    pub fn get(&self, name: &str) -> (res: Option<Value>)
        ensures
            match res {
                Some(value) => self@.contains_key(name@) && value@ == self@[name@],
                None => !self@.contains_key(name@),
            },
    {
        let key = name.to_owned();
        match self.find(&key) {
            Some(i) => {
                proof {
                    lemma_env_first(self.entries@, i as int);
                }
                Some(self.entries[i].1.clone())
            },
            None => {
                proof {
                    lemma_env_absent(self.entries@, key@);
                }
                None
            },
        }
    }

    /// The number that `name` is bound to.
    pub fn get_number(&self, name: &str) -> (res: Result<i32, Error>)
        ensures
            match res {
                Ok(n) => self@.contains_key(name@) && self@[name@] == Expr::Number(n as int),
                Err(e) => if self@.contains_key(name@) {
                    !(self@[name@] is Number) && e@ == Failure::TypeMismatch
                } else {
                    e@ == Failure::UnboundVariable(name@)
                },
            },
    {
        match self.get(name) {
            Some(Value::Number(n)) => Ok(n),
            Some(_) => Err(Error::TypeMismatch),
            None => Err(Error::UnboundVariable(name.to_owned())),
        }
    }
}

} // verus!
