//! The server-side handler contract and the registry that maps method
//! names to handlers.
use vstd::prelude::*;

use crate::bytes_eq;
use crate::errors::RpcError;

verus! {

/// The uniform, dynamically dispatched surface of a server-side handler:
/// given the argument bytes of one request it returns the encoded response
/// bytes, or a failure whose message is reported to the caller. Users
/// implement this for their handlers (typically by composing a payload
/// codec with a typed function), so nothing is promised of the result; the
/// server stub reports whatever comes back.
pub trait Stub {
    /// Handle the argument bytes of one request.
    fn accept(&self, arg: &[u8]) -> Result<Vec<u8>, RpcError>;
}

/// First-match lookup in an association list of named handlers.
spec fn spec_find<H>(entries: Seq<(Vec<u8>, H)>, name: Seq<u8>) -> Option<H>
    decreases entries.len(),
{
    if entries.len() == 0 {
        None
    } else if entries[0].0@ == name {
        Some(entries[0].1)
    } else {
        spec_find(entries.drop_first(), name)
    }
}

/// If nothing before position `i` matches and position `i` does, the
/// first-match lookup yields the entry at `i`.
proof fn lemma_find_first_match<H>(entries: Seq<(Vec<u8>, H)>, name: Seq<u8>, i: int)
    requires
        0 <= i < entries.len(),
        forall|j: int| 0 <= j < i ==> (#[trigger] entries[j]).0@ != name,
        entries[i].0@ == name,
    ensures
        spec_find(entries, name) == Some(entries[i].1),
    decreases i,
{
    if i > 0 {
        lemma_find_first_match(entries.drop_first(), name, i - 1);
    }
}

/// If no entry matches, the lookup yields nothing.
proof fn lemma_find_no_match<H>(entries: Seq<(Vec<u8>, H)>, name: Seq<u8>)
    requires
        forall|j: int| 0 <= j < entries.len() ==> (#[trigger] entries[j]).0@ != name,
    ensures
        spec_find(entries, name) is None,
    decreases entries.len(),
{
    if entries.len() > 0 {
        lemma_find_no_match(entries.drop_first(), name);
    }
}

/// Replacing the entry at `i` by one with the same name leaves lookups of
/// every other name unchanged.
proof fn lemma_find_update_other<H>(entries: Seq<(Vec<u8>, H)>, i: int, e: (Vec<u8>, H), other: Seq<u8>)
    requires
        0 <= i < entries.len(),
        entries[i].0@ == e.0@,
        other != e.0@,
    ensures
        spec_find(entries.update(i, e), other) == spec_find(entries, other),
    decreases i,
{
    if i == 0 {
        assert(entries.update(0, e).drop_first() =~= entries.drop_first());
    } else {
        assert(entries.update(i, e).drop_first() =~= entries.drop_first().update(i - 1, e));
        lemma_find_update_other(entries.drop_first(), i - 1, e, other);
    }
}

/// Appending an entry leaves lookups of every other name unchanged.
proof fn lemma_find_push_other<H>(entries: Seq<(Vec<u8>, H)>, e: (Vec<u8>, H), other: Seq<u8>)
    requires
        other != e.0@,
    ensures
        spec_find(entries.push(e), other) == spec_find(entries, other),
    decreases entries.len(),
{
    if entries.len() == 0 {
        assert(entries.push(e)[0] == e);
        assert(entries.push(e).drop_first() =~= Seq::<(Vec<u8>, H)>::empty());
        assert(spec_find(Seq::<(Vec<u8>, H)>::empty(), other) is None);
        assert(spec_find(entries, other) is None);
    } else {
        assert(entries.push(e).drop_first() =~= entries.drop_first().push(e));
        lemma_find_push_other(entries.drop_first(), e, other);
    }
}

/// Appending an entry whose name was absent makes its lookup find it.
proof fn lemma_find_push_same<H>(entries: Seq<(Vec<u8>, H)>, e: (Vec<u8>, H))
    requires
        forall|j: int| 0 <= j < entries.len() ==> (#[trigger] entries[j]).0@ != e.0@,
    ensures
        spec_find(entries.push(e), e.0@) == Some(e.1),
    decreases entries.len(),
{
    if entries.len() == 0 {
        assert(entries.push(e)[0] == e);
    } else {
        assert(entries.push(e).drop_first() =~= entries.drop_first().push(e));
        lemma_find_push_same(entries.drop_first(), e);
    }
}

/// A mapping from method name to handler with last-writer-wins insertion.
/// Readers see an insert atomically: a name resolves either to nothing or
/// to the handler most recently installed under it.
pub struct HandlerRegistry<H> {
    entries: Vec<(Vec<u8>, H)>,
}

impl<H> HandlerRegistry<H> {
    /// The handler registered under `name`, if any.
    pub closed spec fn spec_get(&self, name: Seq<u8>) -> Option<H> {
        spec_find(self.entries@, name)
    }

    /// An empty registry.
    pub fn new() -> (r: Self)
        ensures
            forall|name: Seq<u8>| #[trigger] r.spec_get(name) is None,
    {
        let r = HandlerRegistry { entries: Vec::new() };
        proof {
            assert forall|name: Seq<u8>| #[trigger] r.spec_get(name) is None by {
                lemma_find_no_match(r.entries@, name);
            }
        }
        r
    }

    /// Install `handler` under `name`, replacing what was there: the most
    /// recent insert for a name wins, and no other name is affected.
    pub fn insert(&mut self, name: Vec<u8>, handler: H)
        ensures
            final(self).spec_get(name@) == Some(handler),
            forall|other: Seq<u8>|
                other != name@ ==> #[trigger] final(self).spec_get(other) == old(self).spec_get(
                    other,
                ),
    {
        let n = self.entries.len();
        let mut i: usize = 0;
        while i < n
            invariant
                self.entries@ == old(self).entries@,
                n == self.entries@.len(),
                i <= n,
                forall|j: int| 0 <= j < i ==> (#[trigger] self.entries@[j]).0@ != name@,
            decreases n - i,
        {
            if bytes_eq(self.entries[i].0.as_slice(), name.as_slice()) {
                let ghost old_entries = self.entries@;
                let ghost e = (name, handler);
                self.entries[i] = (name, handler);
                proof {
                    assert(self.entries@ =~= old_entries.update(i as int, e));
                    lemma_find_first_match(self.entries@, name@, i as int);
                    assert forall|other: Seq<u8>|
                        other != name@ implies #[trigger] spec_find(self.entries@, other)
                        == spec_find(old_entries, other) by {
                        lemma_find_update_other(old_entries, i as int, e, other);
                    }
                }
                return ;
            }
            i = i + 1;
        }
        let ghost old_entries = self.entries@;
        let ghost e = (name, handler);
        self.entries.push((name, handler));
        proof {
            assert(self.entries@ =~= old_entries.push(e));
            lemma_find_push_same(old_entries, e);
            assert forall|other: Seq<u8>|
                other != name@ implies #[trigger] spec_find(self.entries@, other) == spec_find(
                old_entries,
                other,
            ) by {
                lemma_find_push_other(old_entries, e, other);
            }
        }
    }

    /// Look up the handler registered under `name`.
    pub fn get(&self, name: &[u8]) -> (r: Option<&H>)
        ensures
            match r {
                Some(h) => self.spec_get(name@) == Some(*h),
                None => self.spec_get(name@) is None,
            },
    {
        let n = self.entries.len();
        let mut i: usize = 0;
        while i < n
            invariant
                n == self.entries@.len(),
                i <= n,
                forall|j: int| 0 <= j < i ==> (#[trigger] self.entries@[j]).0@ != name@,
            decreases n - i,
        {
            if bytes_eq(self.entries[i].0.as_slice(), name) {
                proof {
                    lemma_find_first_match(self.entries@, name@, i as int);
                }
                return Some(&self.entries[i].1);
            }
            i = i + 1;
        }
        proof {
            lemma_find_no_match(self.entries@, name@);
        }
        None
    }
}

} // verus!
