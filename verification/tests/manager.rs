use drpc::balance::{LoadBalanceType, RpcClient};
use drpc::balance_manager::{BalanceManger, ManagerConfig, RegistryCenter};
use drpc::errors::RpcError;

#[derive(Debug)]
pub struct MockClient {
    pub addr: String,
}

impl RpcClient for MockClient {
    fn addr(&self) -> &str {
        &self.addr
    }
}

impl From<&str> for MockClient {
    fn from(value: &str) -> Self {
        MockClient { addr: value.to_string() }
    }
}

/// A registry that answers with a fixed snapshot.
struct FixedRegistry {
    snapshot: Vec<(String, Vec<String>)>,
}

impl RegistryCenter for FixedRegistry {
    fn pull(&self) -> Vec<(String, Vec<String>)> {
        self.snapshot.clone()
    }

    fn push(&self, _service: String, _addr: String, _ttl_ms: u64) -> Result<(), RpcError> {
        Ok(())
    }
}

/// One reconcile pass, as the I/O loop around the library performs it:
/// pull the snapshot, dial what is missing, integrate each service.
fn run_pull(manager: &mut BalanceManger<MockClient>, registry: &dyn RegistryCenter) {
    let fresh = registry.pull();
    if fresh.is_empty() {
        manager.clear_pools();
    }
    for (service, addrs) in fresh {
        let to_dial = manager.missing_addrs(&service, &addrs);
        let dialed: Vec<MockClient> = to_dial.iter().map(|a| MockClient::from(a.as_str())).collect();
        let _removed = manager.integrate_service(&service, &addrs, dialed);
    }
}

#[test]
fn config_defaults_and_builders() {
    let c = ManagerConfig::new();
    assert!(matches!(c.balance, LoadBalanceType::Round));
    assert_eq!(c.interval, 5000);
    let c = c.balance(LoadBalanceType::Hash).interval(250);
    assert!(matches!(c.balance, LoadBalanceType::Hash));
    assert_eq!(c.interval, 250);
}

#[test]
fn push_ttl_is_twice_the_interval() {
    let manager: BalanceManger<MockClient> =
        BalanceManger::new(ManagerConfig::new().interval(700));
    assert_eq!(manager.push_ttl(), 1400);
}

#[test]
fn reconcile_converges_to_registry_snapshot() {
    // After a pull that returns {s -> [A, B]}, the pool for s has exactly
    // A and B; a later snapshot {s -> [B, C]} dials C and removes A.
    let mut manager: BalanceManger<MockClient> = BalanceManger::new(ManagerConfig::new());
    let registry = FixedRegistry {
        snapshot: vec![(
            "s".to_string(),
            vec!["A".to_string(), "B".to_string()],
        )],
    };
    run_pull(&mut manager, &registry);
    assert_eq!(manager.clients.len(), 1);
    assert_eq!(manager.clients[0].0, "s");
    assert!(manager.clients[0].1.contains("A"));
    assert!(manager.clients[0].1.contains("B"));
    assert_eq!(manager.clients[0].1.rpc_clients.len(), 2);

    let registry = FixedRegistry {
        snapshot: vec![(
            "s".to_string(),
            vec!["B".to_string(), "C".to_string()],
        )],
    };
    run_pull(&mut manager, &registry);
    assert_eq!(manager.clients.len(), 1);
    assert!(!manager.clients[0].1.contains("A"));
    assert!(manager.clients[0].1.contains("B"));
    assert!(manager.clients[0].1.contains("C"));
    assert_eq!(manager.clients[0].1.rpc_clients.len(), 2);
}

#[test]
fn integrate_reports_removed_entries() {
    let mut manager: BalanceManger<MockClient> = BalanceManger::new(ManagerConfig::new());
    let addrs = vec!["A".to_string(), "B".to_string()];
    let dialed = vec![MockClient::from("A"), MockClient::from("B")];
    let removed = manager.integrate_service("s", &addrs, dialed);
    assert!(removed.is_empty());

    let addrs = vec!["B".to_string()];
    let removed = manager.integrate_service("s", &addrs, vec![]);
    assert_eq!(removed.len(), 1);
    assert_eq!(removed[0].addr(), "A");
}

#[test]
fn integrate_leaves_other_services_alone() {
    let mut manager: BalanceManger<MockClient> = BalanceManger::new(ManagerConfig::new());
    let addrs = vec!["A".to_string()];
    manager.integrate_service("one", &addrs, vec![MockClient::from("A")]);
    let addrs = vec!["B".to_string()];
    manager.integrate_service("two", &addrs, vec![MockClient::from("B")]);
    assert_eq!(manager.clients.len(), 2);
    assert!(manager.clients.iter().any(|(n, p)| n == "one" && p.contains("A")));
    assert!(manager.clients.iter().any(|(n, p)| n == "two" && p.contains("B")));
}

#[test]
fn empty_pull_clears_every_pool() {
    let mut manager: BalanceManger<MockClient> = BalanceManger::new(ManagerConfig::new());
    let addrs = vec!["A".to_string()];
    manager.integrate_service("s", &addrs, vec![MockClient::from("A")]);
    let registry = FixedRegistry { snapshot: vec![] };
    run_pull(&mut manager, &registry);
    assert!(manager.clients.is_empty());
}

#[test]
fn missing_addrs_lists_what_to_dial() {
    let mut manager: BalanceManger<MockClient> = BalanceManger::new(ManagerConfig::new());
    let addrs = vec!["A".to_string(), "B".to_string()];
    assert_eq!(manager.missing_addrs("s", &addrs), addrs);
    manager.integrate_service("s", &addrs, vec![MockClient::from("A"), MockClient::from("B")]);
    let addrs = vec!["A".to_string(), "C".to_string()];
    assert_eq!(manager.missing_addrs("s", &addrs), vec!["C".to_string()]);
}

#[test]
fn select_on_unknown_service_reports_exact_message() {
    let mut manager: BalanceManger<MockClient> = BalanceManger::new(ManagerConfig::new());
    let err = manager.select_client("ghost").unwrap_err();
    assert_eq!(err.msg, b"no service 'ghost' find!".to_vec());
}

#[test]
fn select_on_empty_pool_reports_exact_message() {
    let mut manager: BalanceManger<MockClient> = BalanceManger::new(ManagerConfig::new());
    let addrs: Vec<String> = vec![];
    manager.integrate_service("s", &addrs, vec![]);
    let err = manager.select_client("s").unwrap_err();
    assert_eq!(err.msg, b"no service 's' find!".to_vec());
}

#[test]
fn select_round_walks_the_pool() {
    let mut manager: BalanceManger<MockClient> = BalanceManger::new(ManagerConfig::new());
    let addrs = vec!["A".to_string(), "B".to_string()];
    manager.integrate_service("s", &addrs, vec![MockClient::from("A"), MockClient::from("B")]);
    let mut picks = vec![];
    for _ in 0..4 {
        picks.push(manager.select_client("s").unwrap().addr().to_string());
    }
    // The pool holds both addresses and Round alternates between them.
    assert_eq!(picks.len(), 4);
    assert_ne!(picks[0], picks[1]);
    assert_eq!(picks[0], picks[2]);
    assert_eq!(picks[1], picks[3]);
}

#[test]
fn select_hash_is_stable_per_service() {
    let mut manager: BalanceManger<MockClient> =
        BalanceManger::new(ManagerConfig::new().balance(LoadBalanceType::Hash));
    let addrs = vec!["A".to_string(), "B".to_string(), "C".to_string()];
    manager.integrate_service(
        "svc",
        &addrs,
        vec![MockClient::from("A"), MockClient::from("B"), MockClient::from("C")],
    );
    let first = manager.select_client("svc").unwrap().addr().to_string();
    for _ in 0..20 {
        assert_eq!(manager.select_client("svc").unwrap().addr(), first);
    }
}
