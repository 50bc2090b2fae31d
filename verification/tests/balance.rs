use drpc::balance::{LoadBalance, LoadBalanceType, RpcClient};

pub struct MockClient {
    pub addr: String,
}

impl RpcClient for MockClient {
    fn addr(&self) -> &str {
        &self.addr
    }
}

impl From<&str> for MockClient {
    fn from(value: &str) -> Self {
        MockClient { addr: value.to_string() }
    }
}

#[test]
fn test_put() {
    let mut load: LoadBalance<MockClient> = LoadBalance::new();
    load.put("127.0.0.1:13000".into());
    load.put("127.0.0.1:13001".into());

    let old = load.put("127.0.0.1:13001".into()).unwrap();
    assert_eq!(old.addr(), "127.0.0.1:13001".to_string());
}

#[test]
fn test_remove() {
    let mut load: LoadBalance<MockClient> = LoadBalance::new();
    load.put("127.0.0.1:13000".into());
    load.put("127.0.0.1:13001".into());

    let old = load.remove("127.0.0.1:13000").unwrap();
    assert_eq!(old.addr(), "127.0.0.1:13000".to_string());
}

#[test]
fn test_min_connect() {
    let mut load: LoadBalance<MockClient> = LoadBalance::new();
    load.put("127.0.0.1:13000".into());
    load.put("127.0.0.1:13001".into());
    load.put("127.0.0.1:13002".into());
    load.put("127.0.0.1:13003".into());
    let mut v = vec![];
    for _ in 0..6 {
        let item = load.do_balance(LoadBalanceType::MinConnect, "");
        println!("select:{}", item.as_ref().unwrap().addr());
        v.push(item);
    }
}

#[test]
fn put_deduplicates_and_newest_wins() {
    let mut load: LoadBalance<MockClient> = LoadBalance::new();
    assert!(load.put("a".into()).is_none());
    assert!(load.put("b".into()).is_none());
    let displaced = load.put("a".into()).unwrap();
    assert_eq!(displaced.addr(), "a");
    // "a" moved to the end; membership holds each address once.
    assert_eq!(load.rpc_clients.len(), 2);
    assert_eq!(load.rpc_clients[0].addr(), "b");
    assert_eq!(load.rpc_clients[1].addr(), "a");
    assert!(load.contains("a"));
    assert!(load.contains("b"));
    assert!(!load.contains("c"));
}

#[test]
fn remove_of_absent_address_is_none() {
    let mut load: LoadBalance<MockClient> = LoadBalance::new();
    load.put("a".into());
    assert!(load.remove("b").is_none());
    assert_eq!(load.rpc_clients.len(), 1);
}

#[test]
fn clear_empties_the_pool() {
    let mut load: LoadBalance<MockClient> = LoadBalance::new();
    load.put("a".into());
    load.put("b".into());
    load.clear();
    assert_eq!(load.rpc_clients.len(), 0);
    assert!(load.do_balance(LoadBalanceType::Round, "").is_none());
}

#[test]
fn round_robin_cycles_in_order() {
    // Pool [A, B, C]: six Round selections yield A, B, C, A, B, C.
    let mut load: LoadBalance<MockClient> = LoadBalance::new();
    load.put("A".into());
    load.put("B".into());
    load.put("C".into());
    let mut picks = vec![];
    for _ in 0..6 {
        picks.push(load.do_balance(LoadBalanceType::Round, "").unwrap().addr().to_string());
    }
    assert_eq!(picks, vec!["A", "B", "C", "A", "B", "C"]);
}

#[test]
fn round_robin_counts_are_even() {
    // k * n Round selections pick each of the n entries exactly k times.
    let mut load: LoadBalance<MockClient> = LoadBalance::new();
    load.put("A".into());
    load.put("B".into());
    load.put("C".into());
    let mut counts = [0u32; 3];
    for _ in 0..12 {
        let addr = load.do_balance(LoadBalanceType::Round, "").unwrap().addr().to_string();
        match addr.as_str() {
            "A" => counts[0] += 1,
            "B" => counts[1] += 1,
            "C" => counts[2] += 1,
            _ => panic!("unexpected address"),
        }
    }
    assert_eq!(counts, [4, 4, 4]);
}

#[test]
fn hash_is_stable_for_fixed_key() {
    // Pool [A, B, C, D]: a fixed non-empty key selects the same entry on
    // every one of 100 calls.
    let mut load: LoadBalance<MockClient> = LoadBalance::new();
    load.put("A".into());
    load.put("B".into());
    load.put("C".into());
    load.put("D".into());
    let first = load.do_balance(LoadBalanceType::Hash, "svc").unwrap().addr().to_string();
    for _ in 0..99 {
        let again = load.do_balance(LoadBalanceType::Hash, "svc").unwrap().addr().to_string();
        assert_eq!(again, first);
    }
}

#[test]
fn hash_index_follows_weighted_byte_sum() {
    // "svc" hashes to 115*1 + 118*2 + 99*3 = 648; 648 % 4 = 0, so the
    // entry at index 0 is selected.
    let mut load: LoadBalance<MockClient> = LoadBalance::new();
    load.put("A".into());
    load.put("B".into());
    load.put("C".into());
    load.put("D".into());
    let picked = load.do_balance(LoadBalanceType::Hash, "svc").unwrap();
    assert_eq!(picked.addr(), "A");
}

#[test]
fn hash_with_empty_key_still_selects_a_member() {
    let mut load: LoadBalance<MockClient> = LoadBalance::new();
    load.put("A".into());
    load.put("B".into());
    for _ in 0..20 {
        let picked = load.do_balance(LoadBalanceType::Hash, "").unwrap();
        let a = picked.addr();
        assert!(a == "A" || a == "B");
    }
}

#[test]
fn random_selects_only_members() {
    let mut load: LoadBalance<MockClient> = LoadBalance::new();
    load.put("A".into());
    load.put("B".into());
    load.put("C".into());
    for _ in 0..50 {
        let picked = load.do_balance(LoadBalanceType::Random, "").unwrap();
        let a = picked.addr();
        assert!(a == "A" || a == "B" || a == "C");
    }
}

#[test]
fn random_on_singleton_is_that_entry() {
    let mut load: LoadBalance<MockClient> = LoadBalance::new();
    load.put("only".into());
    for _ in 0..10 {
        assert_eq!(load.do_balance(LoadBalanceType::Random, "").unwrap().addr(), "only");
    }
}

#[test]
fn empty_pool_yields_nothing() {
    let mut load: LoadBalance<MockClient> = LoadBalance::new();
    assert!(load.do_balance(LoadBalanceType::Round, "").is_none());
    assert!(load.do_balance(LoadBalanceType::Random, "").is_none());
    assert!(load.do_balance(LoadBalanceType::Hash, "svc").is_none());
    assert!(load.do_balance(LoadBalanceType::MinConnect, "").is_none());
}

#[test]
fn reconcile_pool_matches_address_list() {
    let mut load: LoadBalance<MockClient> = LoadBalance::new();
    load.put("A".into());
    load.put("B".into());
    let addrs = vec!["B".to_string(), "C".to_string()];
    let dialed = vec![MockClient::from("C")];
    let removed = load.reconcile(&addrs, dialed);
    assert!(load.contains("B"));
    assert!(load.contains("C"));
    assert!(!load.contains("A"));
    assert_eq!(load.rpc_clients.len(), 2);
    assert_eq!(removed.len(), 1);
    assert_eq!(removed[0].addr(), "A");
}
