//! The load-balanced client pool: a set of shared client handles, keyed
//! by remote address, with four selection strategies.
use std::sync::Arc;
use vstd::prelude::*;
use vstd::string::StringSliceAdditionalSpecFns;

use crate::bytes_eq;

verus! {

/// The minimum surface the load algorithms require of a client: the four
/// strategies only consult remote addresses. A client type implements
/// this to become poolable.
pub trait RpcClient {
    /// The remote address, as a byte sequence. A verified implementation
    /// overrides this with the address its `addr` returns; the default
    /// exists so that implementations outside the verifier's reach only
    /// provide `addr`.
    open spec fn addr_spec(&self) -> Seq<u8> {
        Seq::<u8>::empty()
    }

    /// The remote address.
    fn addr(&self) -> (r: &str)
        ensures
            r.spec_bytes() == self.addr_spec(),
    ;
}

/// A load balance strategy.
#[derive(Clone, Debug, Copy)]
pub enum LoadBalanceType {
    /// Clients take turns.
    Round,
    /// A client is picked uniformly at random.
    Random,
    /// A client is picked by the caller key's hash code, so a fixed key
    /// maps to a fixed client while membership is unchanged.
    Hash,
    /// The client whose shared handle currently has the fewest holders.
    MinConnect,
}

/// Relies on `rand`'s `Rng::gen_range` over `0..len`: the sample lies in
/// the (non-empty) range.
#[verifier::external_body]
fn random_index(len: usize) -> (r: usize)
    requires
        len > 0,
    ensures
        r < len,
{
    rand::Rng::gen_range(&mut rand::thread_rng(), 0..len)
}

/// Relies on `rand::random` for `i32`, formatted in decimal: a key drawn
/// afresh on each call. Nothing is promised of a random value.
#[verifier::external_body]
fn random_key() -> String {
    format!("{}", rand::random::<i32>())
}

/// Relies on std's `Arc::clone`: the clone is a handle to the same value.
#[verifier::external_body]
fn arc_clone<T>(a: &Arc<T>) -> (r: Arc<T>)
    ensures
        r == *a,
{
    Arc::clone(a)
}

/// Relies on std's `Arc::strong_count`: a momentary reference count that
/// other holders change at any time, so nothing is promised of it.
#[verifier::external_body]
fn arc_strong_count<T>(a: &Arc<T>) -> usize {
    Arc::strong_count(a)
}

/// The weighted byte-sum hash of a key: each byte multiplied by its
/// one-based position, summed in wrapping 64-bit arithmetic.
pub open spec fn spec_hash(bytes: Seq<u8>) -> u64
    decreases bytes.len(),
{
    if bytes.len() == 0 {
        0
    } else {
        spec_hash(bytes.drop_last()).wrapping_add(
            (bytes.last() as u64).wrapping_mul(bytes.len() as u64),
        )
    }
}

/// The pool index the hash strategy selects for a key over `len` entries.
pub open spec fn spec_hash_index(bytes: Seq<u8>, len: int) -> int
    recommends
        len > 0,
{
    (spec_hash(bytes) as int) % len
}

/// Compute the weighted byte-sum hash of `bytes`.
pub fn hash_bytes(bytes: &[u8]) -> (r: u64)
    ensures
        r == spec_hash(bytes@),
{
    let n = bytes.len();
    let mut value: u64 = 0;
    let mut i: usize = 0;
    while i < n
        invariant
            n == bytes@.len(),
            i <= n,
            value == spec_hash(bytes@.subrange(0, i as int)),
        decreases n - i,
    {
        value = value.wrapping_add((bytes[i] as u64).wrapping_mul((i as u64).wrapping_add(1)));
        proof {
            assert(bytes@.subrange(0, i + 1).drop_last() =~= bytes@.subrange(0, i as int));
            assert(bytes@.subrange(0, i + 1).last() == bytes@[i as int]);
        }
        i = i + 1;
    }
    assert(bytes@.subrange(0, n as int) =~= bytes@);
    value
}

/// The UTF-8 bytes of a string value, the form in which addresses are
/// compared.
pub open spec fn spec_string_bytes(s: String) -> Seq<u8> {
    vstd::utf8::encode_utf8(s@)
}

/// Whether some string in `addrs` has the bytes `b`.
pub open spec fn spec_addr_in_list(addrs: Seq<String>, b: Seq<u8>) -> bool {
    exists|j: int| 0 <= j < addrs.len() && spec_string_bytes(#[trigger] addrs[j]) == b
}

/// Whether some client in `dialed` has the address bytes `b`.
pub open spec fn spec_dialed_has<C: RpcClient>(dialed: Seq<C>, b: Seq<u8>) -> bool {
    exists|k: int| 0 <= k < dialed.len() && (#[trigger] dialed[k]).addr_spec() == b
}

/// Whether `addr_bytes` is the byte form of some string in `addrs`.
pub fn addr_in_list(addrs: &Vec<String>, addr_bytes: &[u8]) -> (r: bool)
    ensures
        r == spec_addr_in_list(addrs@, addr_bytes@),
{
    let n = addrs.len();
    let mut j: usize = 0;
    while j < n
        invariant
            n == addrs@.len(),
            j <= n,
            forall|m: int| 0 <= m < j ==> spec_string_bytes(#[trigger] addrs@[m]) != addr_bytes@,
        decreases n - j,
    {
        if bytes_eq(addrs[j].as_str().as_bytes(), addr_bytes) {
            proof {
                assert(spec_string_bytes(addrs@[j as int]) == addr_bytes@);
            }
            return true;
        }
        j = j + 1;
    }
    false
}

/// The entry index a Round selection picks when the cursor stands at
/// `cur` over `len` entries: the cursor itself, normalized to zero if it
/// ran past the end (after removals shrank the pool).
pub open spec fn spec_round_pick(cur: int, len: int) -> int
    recommends
        len > 0,
{
    if cur < len {
        cur
    } else {
        0
    }
}

/// Where the cursor stands after one Round selection: one past the picked
/// entry, wrapping to zero past the end.
pub open spec fn spec_round_next(cur: int, len: int) -> int
    recommends
        len > 0,
{
    if spec_round_pick(cur, len) + 1 >= len {
        0
    } else {
        spec_round_pick(cur, len) + 1
    }
}

/// A pool of shared client handles with a round-robin cursor.
pub struct LoadBalance<C: RpcClient> {
    /// The round-robin cursor: modulo the current length, the next
    /// candidate.
    pub index: usize,
    /// The pool entries, in insertion order.
    pub rpc_clients: Vec<Arc<C>>,
}

impl<C: RpcClient> LoadBalance<C> {
    /// The address of the entry at `i`.
    pub open spec fn spec_addr_at(&self, i: int) -> Seq<u8> {
        self.rpc_clients@[i].addr_spec()
    }

    /// Whether some entry has the address `addr`.
    pub open spec fn spec_contains_addr(&self, addr: Seq<u8>) -> bool {
        exists|i: int| 0 <= i < self.rpc_clients@.len() && self.spec_addr_at(i) == addr
    }

    /// No two entries share an address.
    pub open spec fn wf(&self) -> bool {
        forall|i: int, j: int|
            0 <= i < j < self.rpc_clients@.len() ==> self.spec_addr_at(i) != self.spec_addr_at(j)
    }

    /// An empty pool.
    pub fn new() -> (r: Self)
        ensures
            r.index == 0,
            r.rpc_clients@.len() == 0,
            r.wf(),
    {
        Self { index: 0, rpc_clients: Vec::new() }
    }

    /// Whether an entry with the address `address` is in the pool.
    pub fn contains(&self, address: &str) -> (r: bool)
        ensures
            r == self.spec_contains_addr(address.spec_bytes()),
    {
        let n = self.rpc_clients.len();
        let mut i: usize = 0;
        while i < n
            invariant
                n == self.rpc_clients@.len(),
                i <= n,
                forall|j: int| 0 <= j < i ==> self.spec_addr_at(j) != address.spec_bytes(),
            decreases n - i,
        {
            if bytes_eq(self.rpc_clients[i].addr().as_bytes(), address.as_bytes()) {
                proof {
                    assert(self.spec_addr_at(i as int) == address.spec_bytes());
                }
                return true;
            }
            i = i + 1;
        }
        false
    }

    /// Put a client into the pool and return the entry it displaced.
    /// Membership is deduplicated by address and the newest entry wins:
    /// an existing entry with the same address is removed and returned,
    /// and the new client is appended at the end either way.
    pub fn put(&mut self, arg: C) -> (r: Option<Arc<C>>)
        requires
            old(self).wf(),
        ensures
            final(self).wf(),
            final(self).index == old(self).index,
            final(self).rpc_clients@.len() >= 1,
            final(self).rpc_clients@.last() == arg,
            forall|b: Seq<u8>|
                #[trigger] final(self).spec_contains_addr(b) <==> (old(self).spec_contains_addr(b)
                    || b == arg.addr_spec()),
            match r {
                Some(displaced) => exists|i: int|
                    0 <= i < old(self).rpc_clients@.len() && #[trigger] old(self).spec_addr_at(i)
                        == arg.addr_spec() && displaced == old(self).rpc_clients@[i]
                        && final(self).rpc_clients@ =~= old(self).rpc_clients@.remove(i).push(
                        final(self).rpc_clients@.last(),
                    ),
                None => !old(self).spec_contains_addr(arg.addr_spec())
                    && final(self).rpc_clients@ =~= old(self).rpc_clients@.push(
                    final(self).rpc_clients@.last(),
                ),
            },
    {
        let a = Arc::new(arg);
        let n = self.rpc_clients.len();
        let mut i: usize = 0;
        while i < n
            invariant
                *self == *old(self),
                old(self).wf(),
                n == self.rpc_clients@.len(),
                i <= n,
                a == arg,
                a.addr_spec() == arg.addr_spec(),
                forall|j: int|
                    0 <= j < i ==> #[trigger] old(self).spec_addr_at(j) != arg.addr_spec(),
            decreases n - i,
        {
            if bytes_eq(self.rpc_clients[i].addr().as_bytes(), a.addr().as_bytes()) {
                let displaced = self.rpc_clients.remove(i);
                self.rpc_clients.push(a);
                proof {
                    let s = old(self).rpc_clients@;
                    let t = s.remove(i as int);
                    s.remove_ensures(i as int);
                    assert(old(self).spec_addr_at(i as int) == arg.addr_spec());
                    assert(self.rpc_clients@ == t.push(a));
                    assert(self.rpc_clients@.last() == a);
                    assert forall|p: int, q: int|
                        0 <= p < q < self.rpc_clients@.len() implies self.spec_addr_at(p)
                        != self.spec_addr_at(q) by {
                        let pp = if p < i { p } else { p + 1 };
                        assert(self.rpc_clients@[p] == t[p]);
                        assert(t[p] == s[pp]);
                        if q < self.rpc_clients@.len() - 1 {
                            let qq = if q < i { q } else { q + 1 };
                            assert(self.rpc_clients@[q] == t[q]);
                            assert(t[q] == s[qq]);
                            assert(old(self).spec_addr_at(pp) != old(self).spec_addr_at(qq));
                        } else {
                            assert(self.rpc_clients@[q] == a);
                            if pp != i {
                                if pp < i {
                                    assert(old(self).spec_addr_at(pp) != old(self).spec_addr_at(
                                        i as int,
                                    ));
                                } else {
                                    assert(old(self).spec_addr_at(i as int) != old(self).spec_addr_at(pp));
                                }
                            }
                        }
                    }
                    assert(final(self).rpc_clients@ =~= s.remove(i as int).push(
                        self.rpc_clients@.last(),
                    ));
                    let nlen = self.rpc_clients@.len() as int;
                    assert forall|b: Seq<u8>| #[trigger] self.spec_contains_addr(b) <==> (old(self).spec_contains_addr(b) || b == arg.addr_spec()) by {
                        if self.spec_contains_addr(b) {
                            let m = choose|m: int|
                                0 <= m < self.rpc_clients@.len() && self.spec_addr_at(m) == b;
                            if m == nlen - 1 {
                                assert(self.rpc_clients@[m] == a);
                            } else {
                                let pp = if m < i { m } else { m + 1 };
                                assert(self.rpc_clients@[m] == t[m]);
                                assert(t[m] == s[pp]);
                                assert(old(self).spec_addr_at(pp) == b);
                            }
                        }
                        if b == arg.addr_spec() {
                            assert(self.spec_addr_at(nlen - 1) == b);
                        } else if old(self).spec_contains_addr(b) {
                            let j = choose|j: int|
                                0 <= j < old(self).rpc_clients@.len() && old(self).spec_addr_at(j)
                                    == b;
                            assert(j != i);
                            let w = if j < i { j } else { j - 1 };
                            assert(self.rpc_clients@[w] == t[w]);
                            assert(t[w] == s[j]);
                            assert(self.spec_addr_at(w) == b);
                        }
                    }
                }
                return Some(displaced);
            }
            i = i + 1;
        }
        self.rpc_clients.push(a);
        proof {
            assert(self.rpc_clients@ == old(self).rpc_clients@.push(a));
            assert(self.rpc_clients@.last() == a);
            assert forall|p: int, q: int|
                0 <= p < q < self.rpc_clients@.len() implies self.spec_addr_at(p)
                != self.spec_addr_at(q) by {
                assert(self.rpc_clients@[p] == old(self).rpc_clients@[p]);
                if q < self.rpc_clients@.len() - 1 {
                    assert(self.rpc_clients@[q] == old(self).rpc_clients@[q]);
                    assert(old(self).spec_addr_at(p) != old(self).spec_addr_at(q));
                } else {
                    assert(self.rpc_clients@[q] == a);
                    assert(old(self).spec_addr_at(p) != arg.addr_spec());
                }
            }
            let nlen = self.rpc_clients@.len() as int;
            assert forall|b: Seq<u8>| #[trigger] self.spec_contains_addr(b) <==> (old(self).spec_contains_addr(b) || b == arg.addr_spec()) by {
                if self.spec_contains_addr(b) {
                    let m = choose|m: int|
                        0 <= m < self.rpc_clients@.len() && self.spec_addr_at(m) == b;
                    if m == nlen - 1 {
                        assert(self.rpc_clients@[m] == a);
                    } else {
                        assert(self.rpc_clients@[m] == old(self).rpc_clients@[m]);
                        assert(old(self).spec_addr_at(m) == b);
                    }
                }
                if b == arg.addr_spec() {
                    assert(self.spec_addr_at(nlen - 1) == b);
                } else if old(self).spec_contains_addr(b) {
                    let j = choose|j: int|
                        0 <= j < old(self).rpc_clients@.len() && old(self).spec_addr_at(j) == b;
                    assert(self.rpc_clients@[j] == old(self).rpc_clients@[j]);
                    assert(self.spec_addr_at(j) == b);
                }
            }
        }
        None
    }

    /// Remove and return the first entry whose address is `address`, if
    /// any.
    pub fn remove(&mut self, address: &str) -> (r: Option<Arc<C>>)
        ensures
            final(self).index == old(self).index,
            old(self).wf() ==> final(self).wf(),
            old(self).wf() ==> forall|b: Seq<u8>|
                #[trigger] final(self).spec_contains_addr(b) <==> (old(self).spec_contains_addr(b)
                    && b != address.spec_bytes()),
            match r {
                Some(removed) => exists|i: int|
                    0 <= i < old(self).rpc_clients@.len() && #[trigger] old(self).spec_addr_at(i)
                        == address.spec_bytes() && removed == old(self).rpc_clients@[i]
                        && final(self).rpc_clients@ =~= old(self).rpc_clients@.remove(i),
                None => !old(self).spec_contains_addr(address.spec_bytes())
                    && final(self).rpc_clients@ == old(self).rpc_clients@,
            },
    {
        let n = self.rpc_clients.len();
        let mut i: usize = 0;
        while i < n
            invariant
                *self == *old(self),
                n == self.rpc_clients@.len(),
                i <= n,
                forall|j: int|
                    0 <= j < i ==> #[trigger] old(self).spec_addr_at(j) != address.spec_bytes(),
            decreases n - i,
        {
            if bytes_eq(self.rpc_clients[i].addr().as_bytes(), address.as_bytes()) {
                let removed = self.rpc_clients.remove(i);
                proof {
                    let s = old(self).rpc_clients@;
                    s.remove_ensures(i as int);
                    assert(old(self).spec_addr_at(i as int) == address.spec_bytes());
                    assert(self.rpc_clients@ == s.remove(i as int));
                    if old(self).wf() {
                        assert forall|p: int, q: int|
                            0 <= p < q < self.rpc_clients@.len() implies self.spec_addr_at(p)
                            != self.spec_addr_at(q) by {
                            let pp = if p < i { p } else { p + 1 };
                            let qq = if q < i { q } else { q + 1 };
                            assert(self.rpc_clients@[p] == s[pp]);
                            assert(self.rpc_clients@[q] == s[qq]);
                            assert(old(self).spec_addr_at(pp) != old(self).spec_addr_at(qq));
                        }
                        assert forall|b: Seq<u8>| #[trigger] self.spec_contains_addr(b) <==> (old(self).spec_contains_addr(b) && b != address.spec_bytes()) by {
                            if self.spec_contains_addr(b) {
                                let m = choose|m: int|
                                    0 <= m < self.rpc_clients@.len() && self.spec_addr_at(m) == b;
                                let pp = if m < i { m } else { m + 1 };
                                assert(self.rpc_clients@[m] == s[pp]);
                                assert(old(self).spec_addr_at(pp) == b);
                                if b == address.spec_bytes() {
                                    if pp < i {
                                        assert(old(self).spec_addr_at(pp) != old(self).spec_addr_at(i as int));
                                    } else {
                                        assert(old(self).spec_addr_at(i as int) != old(self).spec_addr_at(pp));
                                    }
                                }
                            }
                            if old(self).spec_contains_addr(b) && b != address.spec_bytes() {
                                let j = choose|j: int|
                                    0 <= j < old(self).rpc_clients@.len() && old(self).spec_addr_at(j) == b;
                                assert(j != i);
                                let w = if j < i { j } else { j - 1 };
                                assert(self.rpc_clients@[w] == s[j]);
                                assert(self.spec_addr_at(w) == b);
                            }
                        }
                    }
                }
                return Some(removed);
            }
            i = i + 1;
        }
        None
    }

    /// Drop every entry. The cursor is left as it is; selection
    /// normalizes it.
    pub fn clear(&mut self)
        ensures
            final(self).rpc_clients@.len() == 0,
            final(self).index == old(self).index,
            final(self).wf(),
    {
        self.rpc_clients.clear();
    }

    /// Reconcile the pool against a fresh address list: `dialed` holds
    /// newly connected clients for the addresses that were missing; they
    /// are put in, and then every entry whose address is not in `addrs`
    /// is removed and returned, so the caller can shut the removed ones
    /// down. Afterwards the pool holds exactly the listed addresses.
    pub fn reconcile(&mut self, addrs: &Vec<String>, dialed: Vec<C>) -> (removed: Vec<Arc<C>>)
        requires
            old(self).wf(),
            forall|k: int|
                0 <= k < dialed@.len() ==> spec_addr_in_list(
                    addrs@,
                    (#[trigger] dialed@[k]).addr_spec(),
                ),
            forall|j: int|
                0 <= j < addrs@.len() ==> old(self).spec_contains_addr(
                    spec_string_bytes(#[trigger] addrs@[j]),
                ) || spec_dialed_has(dialed@, spec_string_bytes(addrs@[j])),
        ensures
            final(self).wf(),
            final(self).index == old(self).index,
            forall|b: Seq<u8>|
                #[trigger] final(self).spec_contains_addr(b) <==> spec_addr_in_list(addrs@, b),
            forall|k: int|
                0 <= k < removed@.len() ==> !spec_addr_in_list(
                    addrs@,
                    (#[trigger] removed@[k]).addr_spec(),
                ),
    {
        let mut dialed = dialed;
        let ghost orig_dialed = dialed@;
        while dialed.len() > 0
            invariant
                self.wf(),
                self.index == old(self).index,
                dialed@ =~= orig_dialed.subrange(0, dialed@.len() as int),
                dialed@.len() <= orig_dialed.len(),
                forall|b: Seq<u8>|
                    #[trigger] self.spec_contains_addr(b) <==> (old(self).spec_contains_addr(b)
                        || exists|k: int|
                        dialed@.len() <= k < orig_dialed.len() && (#[trigger] orig_dialed[k]).addr_spec()
                            == b),
            decreases dialed@.len(),
        {
            let ghost pre_len = dialed@.len() as int;
            let d = dialed.pop().unwrap();
            let ghost pre = *self;
            proof {
                assert(d == orig_dialed[pre_len - 1]);
            }
            self.put(d);
            proof {
                assert forall|b: Seq<u8>| #[trigger] self.spec_contains_addr(b) <==> (old(self).spec_contains_addr(b) || exists|k: int|
                    dialed@.len() <= k < orig_dialed.len() && (#[trigger] orig_dialed[k]).addr_spec()
                        == b) by {
                    if self.spec_contains_addr(b) {
                        if pre.spec_contains_addr(b) {
                        } else {
                            assert(b == d.addr_spec());
                            assert(orig_dialed[pre_len - 1].addr_spec() == b);
                        }
                    }
                    if old(self).spec_contains_addr(b) {
                        assert(pre.spec_contains_addr(b));
                    }
                    if exists|k: int|
                        dialed@.len() <= k < orig_dialed.len() && (#[trigger] orig_dialed[k]).addr_spec()
                            == b {
                        let k = choose|k: int|
                            dialed@.len() <= k < orig_dialed.len()
                                && (#[trigger] orig_dialed[k]).addr_spec() == b;
                        if k == pre_len - 1 {
                            assert(b == d.addr_spec());
                        } else {
                            assert(pre_len <= k);
                            assert(pre.spec_contains_addr(b));
                        }
                    }
                }
            }
        }
        let ghost mid = *self;
        proof {
            assert forall|b: Seq<u8>|
                spec_addr_in_list(addrs@, b) implies #[trigger] mid.spec_contains_addr(b) by {
                let j = choose|j: int|
                    0 <= j < addrs@.len() && spec_string_bytes(#[trigger] addrs@[j]) == b;
                if old(self).spec_contains_addr(b) {
                } else {
                    assert(spec_dialed_has(orig_dialed, b));
                    let k = choose|k: int|
                        0 <= k < orig_dialed.len() && (#[trigger] orig_dialed[k]).addr_spec() == b;
                    assert(0 <= k < orig_dialed.len() && orig_dialed[k].addr_spec() == b);
                }
            }
        }
        let mut removed: Vec<Arc<C>> = Vec::new();
        let mut i: usize = 0;
        while i < self.rpc_clients.len()
            invariant
                self.wf(),
                self.index == old(self).index,
                i <= self.rpc_clients@.len(),
                forall|j: int|
                    0 <= j < i ==> spec_addr_in_list(addrs@, #[trigger] self.spec_addr_at(j)),
                forall|b: Seq<u8>|
                    #[trigger] self.spec_contains_addr(b) ==> mid.spec_contains_addr(b),
                forall|b: Seq<u8>|
                    mid.spec_contains_addr(b) && spec_addr_in_list(addrs@, b)
                        ==> #[trigger] self.spec_contains_addr(b),
                forall|b: Seq<u8>|
                    spec_addr_in_list(addrs@, b) ==> #[trigger] mid.spec_contains_addr(b),
                forall|k: int|
                    0 <= k < removed@.len() ==> !spec_addr_in_list(
                        addrs@,
                        (#[trigger] removed@[k]).addr_spec(),
                    ),
            decreases self.rpc_clients@.len() - i,
        {
            if addr_in_list(addrs, self.rpc_clients[i].addr().as_bytes()) {
                proof {
                    assert(spec_addr_in_list(addrs@, self.spec_addr_at(i as int)));
                }
                i = i + 1;
            } else {
                let ghost pre = *self;
                let ghost gone = pre.spec_addr_at(i as int);
                let addr_owned = self.rpc_clients[i].addr().to_owned();
                let addr_ref = addr_owned.as_str();
                let r = self.remove(addr_ref);
                proof {
                    assert(addr_ref.spec_bytes() == gone);
                    assert(pre.spec_contains_addr(gone)) by {
                        assert(pre.spec_addr_at(i as int) == gone);
                    }
                    assert(r is Some);
                    let m = choose|m: int|
                        0 <= m < pre.rpc_clients@.len() && #[trigger] pre.spec_addr_at(m) == gone
                            && r.unwrap() == pre.rpc_clients@[m] && self.rpc_clients@
                            =~= pre.rpc_clients@.remove(m);
                    assert(m == i) by {
                        if m < i {
                            assert(pre.spec_addr_at(m) != pre.spec_addr_at(i as int));
                        } else if m > i {
                            assert(pre.spec_addr_at(i as int) != pre.spec_addr_at(m));
                        }
                    }
                    pre.rpc_clients@.remove_ensures(i as int);
                    assert(!spec_addr_in_list(addrs@, r.unwrap().addr_spec()));
                    assert forall|j: int|
                        0 <= j < i implies spec_addr_in_list(
                        addrs@,
                        #[trigger] self.spec_addr_at(j),
                    ) by {
                        assert(self.rpc_clients@[j] == pre.rpc_clients@[j]);
                        assert(pre.spec_addr_at(j) == self.spec_addr_at(j));
                    }
                }
                let entry = match r {
                    Some(e) => e,
                    None => {
                        proof {
                            assert(false);
                        }
                        return removed;
                    },
                };
                removed.push(entry);
            }
        }
        proof {
            assert forall|b: Seq<u8>|
                #[trigger] self.spec_contains_addr(b) implies spec_addr_in_list(addrs@, b) by {
                let m = choose|m: int|
                    0 <= m < self.rpc_clients@.len() && self.spec_addr_at(m) == b;
                assert(spec_addr_in_list(addrs@, self.spec_addr_at(m)));
            }
        }
        removed
    }

    /// Select a client by strategy `b`; `from` is the caller key that the
    /// hash strategy consults. An empty pool yields nothing. The pool
    /// membership is never changed, and only the Round strategy moves the
    /// cursor. Round picks the entry at the cursor (normalized to zero if
    /// it ran past the end) and advances it, wrapping to zero past the
    /// end, so consecutive Round selections walk the pool in order. Hash
    /// with a non-empty key picks the entry at the key's hash index, a
    /// function of the key and the pool length alone, so a fixed key
    /// selects a fixed entry while membership is unchanged. Random and
    /// MinConnect pick some entry; Hash with an empty key hashes a key
    /// drawn at random.
    pub fn do_balance(&mut self, b: LoadBalanceType, from: &str) -> (r: Option<Arc<C>>)
        ensures
            final(self).rpc_clients@ == old(self).rpc_clients@,
            old(self).rpc_clients@.len() == 0 <==> r is None,
            (r matches Some(c) ==> exists|i: int|
                0 <= i < old(self).rpc_clients@.len() && c == old(self).rpc_clients@[i]),
            !(b is Round) || old(self).rpc_clients@.len() == 0 ==> final(self).index == old(self).index,
            b is Round && old(self).rpc_clients@.len() > 0 ==> ({
                let len = old(self).rpc_clients@.len() as int;
                &&& r == Some(old(self).rpc_clients@[spec_round_pick(old(self).index as int, len)])
                &&& final(self).index == spec_round_next(old(self).index as int, len)
            }),
            b is Hash && from.spec_bytes().len() > 0 && old(self).rpc_clients@.len() > 0 ==> r
                == Some(
                old(self).rpc_clients@[spec_hash_index(
                    from.spec_bytes(),
                    old(self).rpc_clients@.len() as int,
                )],
            ),
    {
        match b {
            LoadBalanceType::Round => self.round_pick_client(),
            LoadBalanceType::Random => self.random_pick_client(),
            LoadBalanceType::Hash => self.hash_pick_client(from),
            LoadBalanceType::MinConnect => self.min_connect_client(),
        }
    }

    /// Pick the entry at the round-robin cursor and advance the cursor,
    /// wrapping to zero when it runs past the end.
    fn round_pick_client(&mut self) -> (r: Option<Arc<C>>)
        ensures
            final(self).rpc_clients@ == old(self).rpc_clients@,
            old(self).rpc_clients@.len() == 0 <==> r is None,
            old(self).rpc_clients@.len() == 0 ==> final(self).index == old(self).index,
            old(self).rpc_clients@.len() > 0 ==> ({
                let len = old(self).rpc_clients@.len() as int;
                &&& r == Some(old(self).rpc_clients@[spec_round_pick(old(self).index as int, len)])
                &&& final(self).index == spec_round_next(old(self).index as int, len)
            }),
    {
        let length = self.rpc_clients.len();
        if length == 0 {
            return None;
        }
        let mut idx = self.index;
        if idx >= length {
            idx = 0;
        }
        if idx + 1 >= length {
            self.index = 0;
        } else {
            self.index = idx + 1;
        }
        Some(arc_clone(&self.rpc_clients[idx]))
    }

    /// Pick an entry uniformly at random.
    fn random_pick_client(&self) -> (r: Option<Arc<C>>)
        ensures
            self.rpc_clients@.len() == 0 <==> r is None,
            (r matches Some(c) ==> exists|i: int|
                0 <= i < self.rpc_clients@.len() && c == self.rpc_clients@[i]),
    {
        let length = self.rpc_clients.len();
        if length == 0 {
            return None;
        }
        let rand_index = random_index(length);
        let picked = arc_clone(&self.rpc_clients[rand_index]);
        proof {
            assert(picked == self.rpc_clients@[rand_index as int]);
        }
        Some(picked)
    }

    /// Pick the entry at the hash index of `from`; an empty `from` is
    /// replaced by a key drawn at random.
    fn hash_pick_client(&self, from: &str) -> (r: Option<Arc<C>>)
        ensures
            self.rpc_clients@.len() == 0 <==> r is None,
            (r matches Some(c) ==> exists|i: int|
                0 <= i < self.rpc_clients@.len() && c == self.rpc_clients@[i]),
            from.spec_bytes().len() > 0 && self.rpc_clients@.len() > 0 ==> r == Some(
                self.rpc_clients@[spec_hash_index(
                    from.spec_bytes(),
                    self.rpc_clients@.len() as int,
                )],
            ),
    {
        let length = self.rpc_clients.len();
        if length == 0 {
            return None;
        }
        let from_bytes = from.as_bytes();
        let h: u64;
        if from_bytes.len() == 0 {
            let key = random_key();
            h = hash_bytes(key.as_str().as_bytes());
        } else {
            h = hash_bytes(from_bytes);
        }
        let idx = (h % (length as u64)) as usize;
        let picked = arc_clone(&self.rpc_clients[idx]);
        proof {
            assert(picked == self.rpc_clients@[idx as int]);
        }
        Some(picked)
    }

    /// Pick the entry whose shared handle currently has the fewest
    /// holders; the first such entry wins a tie. The count is a momentary
    /// observation, so only membership is promised.
    fn min_connect_client(&self) -> (r: Option<Arc<C>>)
        ensures
            self.rpc_clients@.len() == 0 <==> r is None,
            (r matches Some(c) ==> exists|i: int|
                0 <= i < self.rpc_clients@.len() && c == self.rpc_clients@[i]),
    {
        let length = self.rpc_clients.len();
        if length == 0 {
            return None;
        }
        let mut best: usize = 0;
        let mut min_count: usize = arc_strong_count(&self.rpc_clients[0]);
        let mut i: usize = 1;
        while i < length
            invariant
                length == self.rpc_clients@.len(),
                best < length,
                i <= length,
            decreases length - i,
        {
            let count = arc_strong_count(&self.rpc_clients[i]);
            if count < min_count {
                min_count = count;
                best = i;
            }
            i = i + 1;
        }
        let picked = arc_clone(&self.rpc_clients[best]);
        proof {
            assert(picked == self.rpc_clients@[best as int]);
        }
        Some(picked)
    }
}

/// The entry indices that `count` consecutive Round selections pick,
/// starting with the cursor at `cur` over a pool of unchanging length
/// `len`: each step picks `spec_round_pick` and moves the cursor by
/// `spec_round_next`, exactly as the Round arm of
/// [`LoadBalance::do_balance`] does.
pub open spec fn spec_round_trace(cur: int, len: int, count: nat) -> Seq<int>
    recommends
        len > 0,
    decreases count,
{
    if count == 0 {
        Seq::<int>::empty()
    } else {
        seq![spec_round_pick(cur, len)] + spec_round_trace(
            spec_round_next(cur, len),
            len,
            (count - 1) as nat,
        )
    }
}

/// Where the cursor stands after `count` consecutive Round selections.
pub open spec fn spec_round_cursor_after(cur: int, len: int, count: nat) -> int
    recommends
        len > 0,
    decreases count,
{
    if count == 0 {
        cur
    } else {
        spec_round_cursor_after(spec_round_next(cur, len), len, (count - 1) as nat)
    }
}

/// How many times `x` occurs in `s`.
pub open spec fn spec_count(s: Seq<int>, x: int) -> nat
    decreases s.len(),
{
    if s.len() == 0 {
        0
    } else {
        spec_count(s.drop_first(), x) + (if s[0] == x {
            1nat
        } else {
            0nat
        })
    }
}

/// Occurrence counts add over concatenation.
proof fn lemma_count_concat(s: Seq<int>, t: Seq<int>, x: int)
    ensures
        spec_count(s + t, x) == spec_count(s, x) + spec_count(t, x),
    decreases s.len(),
{
    if s.len() == 0 {
        assert(s + t =~= t);
    } else {
        assert((s + t).drop_first() =~= s.drop_first() + t);
        lemma_count_concat(s.drop_first(), t, x);
    }
}

/// A trace of `a + b` selections is the trace of the first `a` followed
/// by the trace of the remaining `b` from the cursor the first part left.
proof fn lemma_round_trace_split(cur: int, len: int, a: nat, b: nat)
    requires
        len > 0,
    ensures
        spec_round_trace(cur, len, a + b) =~= spec_round_trace(cur, len, a) + spec_round_trace(
            spec_round_cursor_after(cur, len, a),
            len,
            b,
        ),
    decreases a,
{
    if a == 0 {
        assert(spec_round_trace(cur, len, 0) =~= Seq::<int>::empty());
    } else {
        lemma_round_trace_split(spec_round_next(cur, len), len, (a - 1) as nat, b);
        assert(seq![spec_round_pick(cur, len)] + (spec_round_trace(
            spec_round_next(cur, len),
            len,
            (a - 1) as nat,
        ) + spec_round_trace(
            spec_round_cursor_after(cur, len, a),
            len,
            b,
        )) =~= (seq![spec_round_pick(cur, len)] + spec_round_trace(
            spec_round_next(cur, len),
            len,
            (a - 1) as nat,
        )) + spec_round_trace(spec_round_cursor_after(cur, len, a), len, b));
    }
}

/// From a cursor `c` inside the pool, the next `len - c` selections pick
/// the entries `c, c + 1, ..., len - 1`, each exactly once, and leave the
/// cursor at zero.
proof fn lemma_round_tail_cycle(c: int, len: int)
    requires
        0 <= c < len,
    ensures
        spec_round_cursor_after(c, len, (len - c) as nat) == 0,
        forall|x: int|
            #[trigger] spec_count(spec_round_trace(c, len, (len - c) as nat), x) == if c <= x
                < len {
                1nat
            } else {
                0nat
            },
    decreases len - c,
{
    let m = (len - c) as nat;
    let nxt = spec_round_next(c, len);
    let tr = spec_round_trace(c, len, m);
    let tail = spec_round_trace(nxt, len, (m - 1) as nat);
    assert(tr =~= seq![spec_round_pick(c, len)] + tail);
    assert(tr.drop_first() =~= tail);
    assert(tr[0] == c);
    if c == len - 1 {
        assert(nxt == 0);
        assert(spec_round_trace(nxt, len, 0) =~= Seq::<int>::empty());
        assert(spec_round_cursor_after(nxt, len, 0) == nxt);
        assert forall|x: int| #[trigger] spec_count(tr, x) == (if c <= x < len {
            1nat
        } else {
            0nat
        }) by {
            assert(spec_count(tail, x) == 0);
        }
    } else {
        lemma_round_tail_cycle(c + 1, len);
        assert(nxt == c + 1);
        assert forall|x: int| #[trigger] spec_count(tr, x) == (if c <= x < len {
            1nat
        } else {
            0nat
        }) by {
            assert(spec_count(tail, x) == (if c + 1 <= x < len {
                1nat
            } else {
                0nat
            }));
        }
    }
}

/// Hash stability: the index the hash strategy selects lies in the pool
/// and is a function of the key and the pool length alone, so over two
/// pools with the same entries — in particular, one pool at two moments
/// with unchanged membership — a fixed non-empty key selects the same
/// entry.
pub proof fn lemma_hash_stable<C: RpcClient>(p1: LoadBalance<C>, p2: LoadBalance<C>, from: Seq<u8>)
    requires
        p1.rpc_clients@ == p2.rpc_clients@,
        p1.rpc_clients@.len() > 0,
    ensures
        0 <= spec_hash_index(from, p1.rpc_clients@.len() as int) < p1.rpc_clients@.len(),
        p1.rpc_clients@[spec_hash_index(from, p1.rpc_clients@.len() as int)]
            == p2.rpc_clients@[spec_hash_index(from, p2.rpc_clients@.len() as int)],
{
}

/// Round-robin coverage: starting with the cursor at zero over `len`
/// entries, `k * len` consecutive Round selections pick every entry
/// exactly `k` times.
pub proof fn lemma_round_robin_coverage(len: int, k: nat)
    requires
        len > 0,
    ensures
        forall|x: int|
            0 <= x < len ==> #[trigger] spec_count(spec_round_trace(0, len, (k * len) as nat), x)
                == k,
    decreases k,
{
    if k == 0 {
        assert(k * len == 0) by (nonlinear_arith)
            requires
                k == 0,
        ;
        assert(spec_round_trace(0, len, 0) =~= Seq::<int>::empty());
    } else {
        lemma_round_robin_coverage(len, (k - 1) as nat);
        assert(k * len == len + (k - 1) * len) by (nonlinear_arith);
        assert((k - 1) * len >= 0) by (nonlinear_arith)
            requires
                k >= 1 && len > 0,
        ;
        lemma_round_trace_split(0, len, len as nat, ((k - 1) * len) as nat);
        lemma_round_tail_cycle(0, len);
        let first = spec_round_trace(0, len, len as nat);
        let rest = spec_round_trace(0, len, ((k - 1) * len) as nat);
        assert forall|x: int| 0 <= x < len implies #[trigger] spec_count(
            spec_round_trace(0, len, (k * len) as nat),
            x,
        ) == k by {
            lemma_count_concat(first, rest, x);
            assert(spec_count(first, x) == 1);
            assert(spec_count(rest, x) == (k - 1) as nat);
        }
    }
}

} // verus!
