//! The registry-driven balance manager: a live map from service name to a
//! pool of connected clients, reconciled against registry snapshots and
//! selected per call by the configured strategy.
//!
//! The outside work of a reconcile — pulling the snapshot and dialing the
//! missing addresses — suspends on I/O and stays with the caller: the
//! caller asks [`BalanceManger::missing_addrs`] what to dial, dials, and
//! hands the connected clients to [`BalanceManger::integrate_service`],
//! which decides everything else and whose contract pins the resulting
//! membership.
use std::sync::Arc;
use vstd::prelude::*;
use vstd::string::StringSliceAdditionalSpecFns;

use crate::balance::{
    spec_addr_in_list, spec_dialed_has, spec_string_bytes, LoadBalance, LoadBalanceType, RpcClient,
};
use crate::bytes_eq;
use crate::errors::RpcError;

verus! {

/// To fetch the remote service address list: pull the latest
/// `service -> [addr]` snapshot, and push one `(service, addr)`
/// registration with a time-to-live. Implementations are external
/// directories (and usually perform I/O), so nothing is promised of what
/// they return; the manager's reconcile takes any snapshot as input.
pub trait RegistryCenter {
    /// The latest snapshot: each service name with its addresses.
    fn pull(&self) -> Vec<(String, Vec<String>)>;

    /// Register or refresh `addr` under `service` for `ttl_ms`
    /// milliseconds.
    fn push(&self, service: String, addr: String, ttl_ms: u64) -> Result<(), RpcError>;
}

/// How a manager balances and how often it reconciles.
#[derive(Debug, Clone)]
pub struct ManagerConfig {
    /// The selection strategy.
    pub balance: LoadBalanceType,
    /// The reconcile interval, in milliseconds.
    pub interval: u64,
}

/// The default reconcile interval, in milliseconds.
pub const DEFAULT_INTERVAL_MS: u64 = 5000;

impl Default for ManagerConfig {
    /// Round selection, reconciled every five seconds.
    fn default() -> (r: Self)
        ensures
            r.balance is Round,
            r.interval == DEFAULT_INTERVAL_MS,
    {
        ManagerConfig { balance: LoadBalanceType::Round, interval: DEFAULT_INTERVAL_MS }
    }
}

impl ManagerConfig {
    /// The default configuration.
    pub fn new() -> (r: Self)
        ensures
            r.balance is Round,
            r.interval == DEFAULT_INTERVAL_MS,
    {
        Self::default()
    }

    /// This configuration with the strategy replaced.
    pub fn balance(self, balance: LoadBalanceType) -> (r: Self)
        ensures
            r.balance == balance,
            r.interval == self.interval,
    {
        let mut c = self;
        c.balance = balance;
        c
    }

    /// This configuration with the reconcile interval (in milliseconds)
    /// replaced.
    pub fn interval(self, d: u64) -> (r: Self)
        ensures
            r.interval == d,
            r.balance == self.balance,
    {
        let mut c = self;
        c.interval = d;
        c
    }
}

/// The message that reports a service with no usable pool.
pub open spec fn spec_no_service_msg(service: Seq<u8>) -> Seq<u8> {
    "no service '".spec_bytes() + service + "' find!".spec_bytes()
}

/// Build the message that reports a service with no usable pool.
fn make_no_service_msg(service: &str) -> (r: Vec<u8>)
    ensures
        r@ == spec_no_service_msg(service.spec_bytes()),
{
    let mut msg: Vec<u8> = Vec::new();
    msg.extend_from_slice("no service '".as_bytes());
    msg.extend_from_slice(service.as_bytes());
    msg.extend_from_slice("' find!".as_bytes());
    assert(msg@ =~= spec_no_service_msg(service.spec_bytes()));
    msg
}

/// A connection manager: one client pool per service name, refreshed from
/// a registry snapshot and selected by the configured strategy.
pub struct BalanceManger<C: RpcClient> {
    /// The strategy and the reconcile interval.
    pub config: ManagerConfig,
    /// One pool per service, keyed by service name.
    pub clients: Vec<(String, LoadBalance<C>)>,
}

impl<C: RpcClient> BalanceManger<C> {
    /// The service name of the entry at `i`.
    pub open spec fn spec_service_at(&self, i: int) -> Seq<char> {
        self.clients@[i].0@
    }

    /// The pool of the entry at `i`.
    pub open spec fn spec_pool_at(&self, i: int) -> LoadBalance<C> {
        self.clients@[i].1
    }

    /// Whether a pool exists under `name`.
    pub open spec fn spec_has_service(&self, name: Seq<char>) -> bool {
        exists|i: int| 0 <= i < self.clients@.len() && self.spec_service_at(i) == name
    }

    /// The index of the pool under `name`.
    pub open spec fn spec_service_index(&self, name: Seq<char>) -> int {
        choose|i: int| 0 <= i < self.clients@.len() && self.spec_service_at(i) == name
    }

    /// The pool under `name`.
    pub open spec fn spec_pool(&self, name: Seq<char>) -> LoadBalance<C> {
        self.spec_pool_at(self.spec_service_index(name))
    }

    /// No two entries share a service name, and every pool is
    /// well-formed.
    pub open spec fn wf(&self) -> bool {
        &&& forall|i: int, j: int|
            0 <= i < j < self.clients@.len() ==> self.spec_service_at(i) != self.spec_service_at(
                j,
            )
        &&& forall|i: int| 0 <= i < self.clients@.len() ==> (#[trigger] self.spec_pool_at(i)).wf()
    }

    /// An empty manager with the given configuration.
    pub fn new(config: ManagerConfig) -> (r: Self)
        ensures
            r.config == config,
            r.clients@.len() == 0,
            r.wf(),
    {
        BalanceManger { config, clients: Vec::new() }
    }

    /// Drop every pool, as an empty registry snapshot demands: an empty
    /// pull is read as "nothing is alive".
    pub fn clear_pools(&mut self)
        ensures
            final(self).clients@.len() == 0,
            final(self).config == old(self).config,
            final(self).wf(),
    {
        self.clients.clear();
    }

    /// The interval after which a pushed registration expires: twice the
    /// reconcile interval, so one missed reconcile does not expire
    /// liveness.
    pub fn push_ttl(&self) -> (r: u64)
        requires
            self.config.interval <= u64::MAX / 2,
        ensures
            r == 2 * self.config.interval,
    {
        self.config.interval * 2
    }

    /// The index of the entry for `service`, if one exists.
    fn find_service(&self, service: &str) -> (r: Option<usize>)
        ensures
            match r {
                Some(i) => 0 <= i < self.clients@.len() && self.spec_service_at(i as int)
                    == service@,
                None => !self.spec_has_service(service@),
            },
    {
        let n = self.clients.len();
        let mut i: usize = 0;
        while i < n
            invariant
                n == self.clients@.len(),
                i <= n,
                forall|j: int| 0 <= j < i ==> self.spec_service_at(j) != service@,
            decreases n - i,
        {
            if bytes_eq(self.clients[i].0.as_str().as_bytes(), service.as_bytes()) {
                proof {
                    vstd::utf8::encode_utf8_decode_utf8(self.clients@[i as int].0@);
                    vstd::utf8::encode_utf8_decode_utf8(service@);
                }
                return Some(i);
            }
            i = i + 1;
        }
        None
    }

    /// The addresses of `addrs` that `service`'s pool does not hold yet —
    /// all of them when no pool exists. These are the addresses a
    /// reconcile must dial.
    pub fn missing_addrs(&self, service: &str, addrs: &Vec<String>) -> (r: Vec<String>)
        requires
            self.wf(),
        ensures
            forall|k: int|
                0 <= k < r@.len() ==> spec_addr_in_list(
                    addrs@,
                    spec_string_bytes(#[trigger] r@[k]),
                ) && !(self.spec_has_service(service@) && self.spec_pool(
                    service@,
                ).spec_contains_addr(spec_string_bytes(r@[k]))),
            forall|j: int|
                0 <= j < addrs@.len() ==> (self.spec_has_service(service@) && self.spec_pool(
                    service@,
                ).spec_contains_addr(spec_string_bytes(#[trigger] addrs@[j])))
                    || spec_addr_in_list(r@, spec_string_bytes(addrs@[j])),
    {
        let mut r: Vec<String> = Vec::new();
        let pool_idx = self.find_service(service);
        proof {
            match pool_idx {
                Some(i) => {
                    assert(self.spec_has_service(service@));
                    let w = self.spec_service_index(service@);
                    assert(0 <= w < self.clients@.len() && self.spec_service_at(w) == service@);
                    if w < i as int {
                        assert(self.spec_service_at(w) != self.spec_service_at(i as int));
                    } else if w > i as int {
                        assert(self.spec_service_at(i as int) != self.spec_service_at(w));
                    }
                },
                None => {},
            }
        }
        let n = addrs.len();
        let mut j: usize = 0;
        while j < n
            invariant
                n == addrs@.len(),
                j <= n,
                match pool_idx {
                    Some(i) => 0 <= i < self.clients@.len() && self.spec_service_at(i as int)
                        == service@ && self.spec_service_index(service@) == i as int
                        && self.spec_has_service(service@),
                    None => !self.spec_has_service(service@),
                },
                forall|k: int|
                    0 <= k < r@.len() ==> spec_addr_in_list(
                        addrs@,
                        spec_string_bytes(#[trigger] r@[k]),
                    ) && !(self.spec_has_service(service@) && self.spec_pool(
                        service@,
                    ).spec_contains_addr(spec_string_bytes(r@[k]))),
                forall|m: int|
                    0 <= m < j ==> (self.spec_has_service(service@) && self.spec_pool(
                        service@,
                    ).spec_contains_addr(spec_string_bytes(#[trigger] addrs@[m])))
                        || spec_addr_in_list(r@, spec_string_bytes(addrs@[m])),
            decreases n - j,
        {
            let needed: bool = match pool_idx {
                Some(i) => !self.clients[i].1.contains(addrs[j].as_str()),
                None => true,
            };
            let ghost r_before = r@;
            if needed {
                r.push(addrs[j].clone());
                proof {
                    assert(spec_string_bytes(r@[r@.len() - 1]) == spec_string_bytes(
                        addrs@[j as int],
                    ));
                    assert(spec_addr_in_list(addrs@, spec_string_bytes(r@[r@.len() - 1])));
                    assert forall|m: int|
                        0 <= m < j + 1 implies (self.spec_has_service(service@)
                        && self.spec_pool(service@).spec_contains_addr(
                        spec_string_bytes(#[trigger] addrs@[m]),
                    )) || spec_addr_in_list(r@, spec_string_bytes(addrs@[m])) by {
                        if m < j {
                            if !(self.spec_has_service(service@) && self.spec_pool(
                                service@,
                            ).spec_contains_addr(spec_string_bytes(addrs@[m]))) {
                                let w = choose|w: int|
                                    0 <= w < r_before.len() && spec_string_bytes(
                                        #[trigger] r_before[w],
                                    ) == spec_string_bytes(addrs@[m]);
                                assert(r@[w] == r_before[w]);
                                assert(spec_string_bytes(r@[w]) == spec_string_bytes(addrs@[m]));
                            }
                        } else {
                            assert(spec_string_bytes(r@[r@.len() - 1]) == spec_string_bytes(
                                addrs@[m],
                            ));
                        }
                    }
                }
            }
            j = j + 1;
        }
        r
    }

    /// Reconcile the pool for `service` against the addresses the
    /// registry lists for it. `dialed` holds connected clients for the
    /// addresses that were missing (a pool is created when none exists);
    /// entries whose address the registry no longer lists are removed and
    /// returned, so the caller can shut down those that nothing else
    /// holds. Afterwards the pool for `service` holds exactly the listed
    /// addresses, and no other service is affected.
    pub fn integrate_service(
        &mut self,
        service: &str,
        addrs: &Vec<String>,
        dialed: Vec<C>,
    ) -> (removed: Vec<Arc<C>>)
        requires
            old(self).wf(),
            forall|k: int|
                0 <= k < dialed@.len() ==> spec_addr_in_list(
                    addrs@,
                    (#[trigger] dialed@[k]).addr_spec(),
                ),
            forall|j: int|
                0 <= j < addrs@.len() ==> (old(self).spec_has_service(service@) && old(self).spec_pool(service@).spec_contains_addr(
                    spec_string_bytes(#[trigger] addrs@[j]),
                )) || spec_dialed_has(dialed@, spec_string_bytes(addrs@[j])),
        ensures
            final(self).wf(),
            final(self).config == old(self).config,
            final(self).spec_has_service(service@),
            forall|b: Seq<u8>|
                #[trigger] final(self).spec_pool(service@).spec_contains_addr(b)
                    <==> spec_addr_in_list(addrs@, b),
            forall|name: Seq<char>|
                name != service@ ==> #[trigger] final(self).spec_has_service(name) == old(self).spec_has_service(name),
            forall|name: Seq<char>|
                name != service@ && old(self).spec_has_service(name) ==> #[trigger] final(self).spec_pool(name) == old(self).spec_pool(name),
            forall|k: int|
                0 <= k < removed@.len() ==> !spec_addr_in_list(
                    addrs@,
                    (#[trigger] removed@[k]).addr_spec(),
                ),
    {
        let idx: usize = match self.find_service(service) {
            Some(i) => i,
            None => {
                let ghost before = *self;
                self.clients.push((service.to_owned(), LoadBalance::new()));
                proof {
                    let n = self.clients@.len() as int;
                    assert(self.spec_service_at(n - 1) == service@);
                    assert forall|p: int, q: int|
                        0 <= p < q < n implies self.spec_service_at(p) != self.spec_service_at(
                        q,
                    ) by {
                        assert(self.clients@[p] == before.clients@[p]);
                        if q < n - 1 {
                            assert(self.clients@[q] == before.clients@[q]);
                            assert(before.spec_service_at(p) != before.spec_service_at(q));
                        } else {
                            assert(before.spec_service_at(p) != service@);
                        }
                    }
                    assert forall|i: int| 0 <= i < n implies (#[trigger] self.spec_pool_at(
                        i,
                    )).wf() by {
                        if i < n - 1 {
                            assert(self.clients@[i] == before.clients@[i]);
                            assert(before.spec_pool_at(i).wf());
                        }
                    }
                }
                self.clients.len() - 1
            },
        };
        let ghost mid = *self;
        let entry = self.clients.remove(idx);
        let (name, mut pool) = entry;
        proof {
            assert(pool == mid.clients@[idx as int].1);
            assert(mid.spec_pool_at(idx as int).wf());
            assert(mid.spec_service_at(idx as int) == service@);
            if old(self).spec_has_service(service@) {
                assert(mid == *old(self));
                let w = old(self).spec_service_index(service@);
                assert(0 <= w < old(self).clients@.len() && old(self).spec_service_at(w)
                    == service@);
                if w < idx as int {
                    assert(old(self).spec_service_at(w) != old(self).spec_service_at(idx as int));
                } else if w > idx as int {
                    assert(old(self).spec_service_at(idx as int) != old(self).spec_service_at(w));
                }
                assert(old(self).spec_pool(service@) == pool);
            }
            assert forall|j: int|
                0 <= j < addrs@.len() implies (pool.spec_contains_addr(
                spec_string_bytes(#[trigger] addrs@[j]),
            ) || spec_dialed_has(dialed@, spec_string_bytes(addrs@[j]))) by {
                if !spec_dialed_has(dialed@, spec_string_bytes(addrs@[j])) {
                    assert(old(self).spec_has_service(service@));
                    assert(old(self).spec_pool(service@).spec_contains_addr(
                        spec_string_bytes(addrs@[j]),
                    ));
                }
            }
        }
        let removed = pool.reconcile(addrs, dialed);
        let ghost new_pool = pool;
        self.clients.insert(idx, (name, pool));
        proof {
            let n = mid.clients@.len() as int;
            assert(self.clients@ =~= mid.clients@.update(idx as int, (name, new_pool)));
            assert(name@ == service@);
            assert forall|p: int, q: int|
                0 <= p < q < n implies self.spec_service_at(p) != self.spec_service_at(q) by {
                assert(mid.spec_service_at(p) != mid.spec_service_at(q));
                assert(self.spec_service_at(p) == mid.spec_service_at(p));
                assert(self.spec_service_at(q) == mid.spec_service_at(q));
            }
            assert forall|i: int| 0 <= i < n implies (#[trigger] self.spec_pool_at(i)).wf() by {
                if i != idx {
                    assert(self.clients@[i] == mid.clients@[i]);
                    assert(mid.spec_pool_at(i).wf());
                }
            }
            assert(self.spec_service_at(idx as int) == service@);
            assert(self.spec_has_service(service@));
            assert(self.spec_service_index(service@) == idx as int) by {
                let w = self.spec_service_index(service@);
                if w != idx {
                    if w < idx {
                        assert(self.spec_service_at(w) != self.spec_service_at(idx as int));
                    } else {
                        assert(self.spec_service_at(idx as int) != self.spec_service_at(w));
                    }
                }
            }
            assert(self.spec_pool(service@) == new_pool);
            assert forall|nm: Seq<char>|
                nm != service@ implies #[trigger] self.spec_has_service(nm) == old(self).spec_has_service(nm) by {
                if self.spec_has_service(nm) {
                    let w = choose|w: int|
                        0 <= w < self.clients@.len() && self.spec_service_at(w) == nm;
                    assert(w != idx);
                    assert(mid.spec_service_at(w) == nm);
                    lemma_service_carries(*old(self), mid, service@, nm);
                }
                if old(self).spec_has_service(nm) {
                    let w = choose|w: int|
                        0 <= w < old(self).clients@.len() && old(self).spec_service_at(w) == nm;
                    assert(mid.clients@[w] == old(self).clients@[w]);
                    assert(mid.spec_service_at(w) == nm);
                    assert(w != idx);
                    assert(self.spec_service_at(w) == nm);
                }
            }
            assert forall|nm: Seq<char>|
                nm != service@ && old(self).spec_has_service(nm) implies #[trigger] self.spec_pool(
                nm,
            ) == old(self).spec_pool(nm) by {
                let w1 = self.spec_service_index(nm);
                let w2 = old(self).spec_service_index(nm);
                assert(self.spec_has_service(nm));
                assert(0 <= w1 < self.clients@.len() && self.spec_service_at(w1) == nm);
                assert(0 <= w2 < old(self).clients@.len() && old(self).spec_service_at(w2) == nm);
                assert(w1 != idx);
                assert(mid.spec_service_at(w1) == nm);
                assert(mid.clients@[w2] == old(self).clients@[w2]);
                assert(mid.spec_service_at(w2) == nm);
                assert(w1 == w2) by {
                    if w1 < w2 {
                        assert(mid.spec_service_at(w1) != mid.spec_service_at(w2));
                    } else if w2 < w1 {
                        assert(mid.spec_service_at(w2) != mid.spec_service_at(w1));
                    }
                }
                assert(self.clients@[w1] == mid.clients@[w1]);
                assert(mid.clients@[w1] == old(self).clients@[w1]);
            }
        }
        removed
    }

    /// Select a client for one call on `service` by the configured
    /// strategy. The service name doubles as the selection key, which
    /// makes hash selection stable per service. A service with no pool
    /// fails with the exact diagnostic message, and so does a service
    /// whose pool is empty; otherwise some entry of the service's pool is
    /// returned, and for the Round and Hash strategies the contract pins
    /// which one. No pool's membership changes; only the selected pool's
    /// cursor may advance.
    pub fn select_client(&mut self, service: &str) -> (r: Result<Arc<C>, RpcError>)
        requires
            old(self).wf(),
        ensures
            final(self).wf(),
            final(self).config == old(self).config,
            !old(self).spec_has_service(service@) ==> *final(self) == *old(self) && (r matches Err(e) && e@ == spec_no_service_msg(service.spec_bytes())),
            old(self).spec_has_service(service@) ==> ({
                let pool = old(self).spec_pool(service@);
                let len = pool.rpc_clients@.len() as int;
                &&& final(self).spec_has_service(service@)
                &&& final(self).spec_pool(service@).rpc_clients@ == pool.rpc_clients@
                &&& (forall|name: Seq<char>|
                    name != service@ ==> #[trigger] final(self).spec_has_service(name) == old(self).spec_has_service(name))
                &&& (forall|name: Seq<char>|
                    name != service@ && old(self).spec_has_service(name) ==> #[trigger] final(self).spec_pool(name) == old(self).spec_pool(name))
                &&& (len == 0 ==> (r matches Err(e) && e@ == spec_no_service_msg(
                    service.spec_bytes(),
                )))
                &&& (len > 0 ==> (r matches Ok(c) && exists|i: int|
                    0 <= i < len && c == pool.rpc_clients@[i]))
                &&& (len > 0 && old(self).config.balance is Round ==> (r matches Ok(c) && c
                    == pool.rpc_clients@[crate::balance::spec_round_pick(pool.index as int, len)]
                    && final(self).spec_pool(service@).index
                    == crate::balance::spec_round_next(pool.index as int, len)))
                &&& (len > 0 && old(self).config.balance is Hash && service.spec_bytes().len() > 0
                    ==> (r matches Ok(c) && c == pool.rpc_clients@[crate::balance::spec_hash_index(
                    service.spec_bytes(),
                    len,
                )]))
            }),
    {
        let idx: usize = match self.find_service(service) {
            Some(i) => i,
            None => {
                return Err(RpcError { msg: make_no_service_msg(service) });
            },
        };
        let ghost mid = *self;
        let entry = self.clients.remove(idx);
        let (name, mut pool) = entry;
        proof {
            assert(mid == *old(self));
            assert(pool == mid.clients@[idx as int].1);
            assert(mid.spec_service_at(idx as int) == service@);
            let w = old(self).spec_service_index(service@);
            assert(0 <= w < old(self).clients@.len() && old(self).spec_service_at(w) == service@);
            if w < idx as int {
                assert(old(self).spec_service_at(w) != old(self).spec_service_at(idx as int));
            } else if w > idx as int {
                assert(old(self).spec_service_at(idx as int) != old(self).spec_service_at(w));
            }
            assert(old(self).spec_pool(service@) == pool);
        }
        let balance_type = self.config.balance;
        let picked = pool.do_balance(balance_type, service);
        let ghost new_pool = pool;
        self.clients.insert(idx, (name, pool));
        proof {
            let n = mid.clients@.len() as int;
            assert(self.clients@ =~= mid.clients@.update(idx as int, (name, new_pool)));
            assert(name@ == service@);
            assert forall|p: int, q: int|
                0 <= p < q < n implies self.spec_service_at(p) != self.spec_service_at(q) by {
                assert(mid.spec_service_at(p) != mid.spec_service_at(q));
                assert(self.spec_service_at(p) == mid.spec_service_at(p));
                assert(self.spec_service_at(q) == mid.spec_service_at(q));
            }
            assert forall|i: int| 0 <= i < n implies (#[trigger] self.spec_pool_at(i)).wf() by {
                if i != idx {
                    assert(self.clients@[i] == mid.clients@[i]);
                    assert(mid.spec_pool_at(i).wf());
                } else {
                    let before = mid.spec_pool_at(idx as int);
                    assert(before.wf());
                    assert(self.spec_pool_at(i) == new_pool);
                    assert(new_pool.rpc_clients@ == before.rpc_clients@);
                    assert forall|p: int, q: int|
                        0 <= p < q < new_pool.rpc_clients@.len() implies new_pool.spec_addr_at(p)
                        != new_pool.spec_addr_at(q) by {
                        assert(before.spec_addr_at(p) != before.spec_addr_at(q));
                    }
                }
            }
            assert(self.spec_service_at(idx as int) == service@);
            assert(self.spec_has_service(service@));
            assert(self.spec_service_index(service@) == idx as int) by {
                let w = self.spec_service_index(service@);
                if w < idx as int {
                    assert(self.spec_service_at(w) != self.spec_service_at(idx as int));
                } else if w > idx as int {
                    assert(self.spec_service_at(idx as int) != self.spec_service_at(w));
                }
            }
            assert(self.spec_pool(service@) == new_pool);
            assert forall|nm: Seq<char>|
                nm != service@ implies #[trigger] self.spec_has_service(nm) == old(self).spec_has_service(nm) by {
                if self.spec_has_service(nm) {
                    let w = choose|w: int|
                        0 <= w < self.clients@.len() && self.spec_service_at(w) == nm;
                    assert(w != idx);
                    assert(mid.spec_service_at(w) == nm);
                }
                if old(self).spec_has_service(nm) {
                    let w = choose|w: int|
                        0 <= w < old(self).clients@.len() && old(self).spec_service_at(w) == nm;
                    assert(w != idx);
                    assert(self.spec_service_at(w) == nm);
                }
            }
            assert forall|nm: Seq<char>|
                nm != service@ && old(self).spec_has_service(nm) implies #[trigger] self.spec_pool(
                nm,
            ) == old(self).spec_pool(nm) by {
                let w1 = self.spec_service_index(nm);
                let w2 = old(self).spec_service_index(nm);
                assert(self.spec_has_service(nm));
                assert(0 <= w1 < self.clients@.len() && self.spec_service_at(w1) == nm);
                assert(0 <= w2 < old(self).clients@.len() && old(self).spec_service_at(w2) == nm);
                assert(w1 != idx && w2 != idx);
                assert(mid.spec_service_at(w1) == nm);
                assert(mid.spec_service_at(w2) == nm);
                assert(w1 == w2) by {
                    if w1 < w2 {
                        assert(mid.spec_service_at(w1) != mid.spec_service_at(w2));
                    } else if w2 < w1 {
                        assert(mid.spec_service_at(w2) != mid.spec_service_at(w1));
                    }
                }
                assert(self.clients@[w1] == mid.clients@[w1]);
            }
        }
        match picked {
            Some(c) => Ok(c),
            None => Err(RpcError { msg: make_no_service_msg(service) }),
        }
    }
}

/// When the manager grew by one entry for `service` at the end, every
/// other service it has was already there.
proof fn lemma_service_carries<C: RpcClient>(
    pre: BalanceManger<C>,
    post: BalanceManger<C>,
    service: Seq<char>,
    nm: Seq<char>,
)
    requires
        nm != service,
        post.clients@.len() == pre.clients@.len() || (post.clients@.len() == pre.clients@.len()
            + 1 && post.spec_service_at(post.clients@.len() - 1) == service),
        forall|i: int|
            0 <= i < pre.clients@.len() ==> #[trigger] post.clients@[i] == pre.clients@[i],
        exists|w: int| 0 <= w < post.clients@.len() && #[trigger] post.spec_service_at(w) == nm,
    ensures
        exists|w: int| 0 <= w < pre.clients@.len() && #[trigger] pre.spec_service_at(w) == nm,
{
    let w = choose|w: int| 0 <= w < post.clients@.len() && #[trigger] post.spec_service_at(w) == nm;
    if w < pre.clients@.len() {
        assert(pre.spec_service_at(w) == nm);
    }
}

} // verus!
