//! The admin client and what the admin service decides.
use chronix::meta::admin::{
    check, create_region_command, interval_for_reply, listed_node, parse_mode,
    register_node_command, voters_with, voters_without, GrpcMetaClient, RemovalRefusal,
};
use chronix::meta::types::{MetaCommand, MetaResponse, NodeMode};

fn client(addrs: &[&str]) -> GrpcMetaClient {
    GrpcMetaClient::new(addrs.iter().map(|a| a.to_string()).collect())
}

#[test]
fn grpc_meta_client_creation() {
    let client = client(&["127.0.0.1:9001", "127.0.0.1:9002"]);
    assert_eq!(client.addrs.len(), 2);
    assert_eq!(client.current, 0);
}

#[test]
fn grpc_meta_client_update_addrs() {
    let mut client = client(&["127.0.0.1:9001"]);
    client.current = 1;

    client.update_addrs(vec![
        "10.0.0.1:9001".to_string(),
        "10.0.0.2:9001".to_string(),
        "10.0.0.3:9001".to_string(),
    ]);

    assert_eq!(client.addrs.len(), 3);
    // Current index reset to 0 after update.
    assert_eq!(client.current, 0);
}

#[test]
fn grpc_meta_client_with_timeout() {
    let client = client(&["127.0.0.1:9001"]).with_timeout(10_000);
    assert_eq!(client.timeout_millis, 10_000);
}

#[test]
fn grpc_meta_client_connect_no_addrs() {
    let mut client = client(&[]);
    assert_eq!(client.connect().unwrap_err(), "no meta node addresses configured");
    assert!(client.connect_for_read().is_err());
}

#[test]
fn grpc_meta_client_connect_unreachable() {
    let client = client(&["127.0.0.1:1"]).with_timeout(200);
    let attempt = client.connect().unwrap();
    assert_eq!(client.failed(&attempt).unwrap_err(), "all meta node addresses unreachable");
}

#[test]
fn debug_format() {
    let client = client(&["127.0.0.1:9001"]);
    let debug = format!("{client:?}");
    assert!(debug.contains("GrpcMetaClient"));
    assert!(debug.contains("127.0.0.1:9001"));
}

#[test]
fn grpc_meta_client_with_tls() {
    let client = client(&["127.0.0.1:9001"]).with_tls();
    assert!(client.secure);
    let attempt = client.connect().unwrap();
    assert_eq!(client.endpoint(&attempt), "https://127.0.0.1:9001");
}

#[test]
fn grpc_meta_client_no_tls_by_default() {
    let client = client(&["127.0.0.1:9001"]);
    assert!(!client.secure);
    let attempt = client.connect().unwrap();
    assert_eq!(client.endpoint(&attempt), "http://127.0.0.1:9001");
}

#[test]
fn grpc_meta_client_stale_reads_default_off() {
    let client = client(&["127.0.0.1:9001"]);
    assert!(!client.allow_stale_reads);
}

#[test]
fn grpc_meta_client_with_stale_reads() {
    let client = client(&["127.0.0.1:9001", "127.0.0.1:9002"]).with_stale_reads(true);
    assert!(client.allow_stale_reads);
}

#[test]
fn stale_reads_go_round_the_addresses() {
    let mut client = client(&["a", "b", "c"]).with_stale_reads(true);
    let order: Vec<usize> =
        (0..4).map(|_| client.connect_for_read().unwrap().index).collect();
    assert_eq!(order, vec![0, 1, 2, 0]);
    assert_eq!(client.current, 0);
}

#[test]
fn a_round_rotates_and_the_reached_address_is_preferred() {
    let mut client = client(&["a", "b", "c"]);
    client.current = 2;
    let first = client.connect().unwrap();
    assert_eq!(first.index, 2);
    let second = client.failed(&first).unwrap();
    assert_eq!(second.index, 0);
    let third = client.failed(&second).unwrap();
    assert_eq!(third.index, 1);
    client.reached(&third);
    assert_eq!(client.current, 1);
}

#[test]
fn a_cached_connection_expires() {
    let client = client(&["a"]);
    assert!(client.may_reuse(299_999));
    assert!(!client.may_reuse(300_000));
}

#[test]
fn modes_are_parsed() {
    assert_eq!(parse_mode("meta"), Some(NodeMode::Meta));
    assert_eq!(parse_mode("data"), Some(NodeMode::Data));
    assert_eq!(parse_mode("query"), Some(NodeMode::Query));
    assert_eq!(parse_mode("Data"), None);
}

#[test]
fn a_registration_names_its_mode() {
    match register_node_command(3, "h:1", "query", 1, 2, 4).unwrap() {
        MetaCommand::RegisterNode(node) => {
            assert_eq!(node.node_id, 3);
            assert_eq!(node.mode, NodeMode::Query);
            assert_eq!(node.cpu_cores, 4);
        }
        _ => panic!("wrong variant"),
    }
    assert_eq!(
        register_node_command(3, "h:1", "disk", 1, 2, 4).unwrap_err(),
        "unknown mode: disk"
    );
    assert_eq!(listed_node(3, "h:1", "disk", 1, 2, 4).mode, NodeMode::Data);
}

#[test]
fn a_region_is_created_as_asked() {
    match create_region_command(5, "cpu", 1, vec![1, 2], 3) {
        MetaCommand::CreateRegion(region) => {
            assert_eq!(region.region_id, 5);
            assert_eq!(region.replication_factor, 3);
            assert!(region.key_range.is_none());
        }
        _ => panic!("wrong variant"),
    }
}

#[test]
fn replies_are_checked() {
    assert!(check(MetaResponse::Done).is_ok());
    assert!(check(MetaResponse::Created { description: "x".to_string() }).is_ok());
    assert_eq!(check(MetaResponse::Error { message: "no".to_string() }).unwrap_err(), "no");
}

#[test]
fn a_long_interval_is_capped() {
    assert_eq!(interval_for_reply(5), 5);
    assert_eq!(interval_for_reply(u64::MAX), u32::MAX);
}

#[test]
fn voters_are_added_once() {
    assert_eq!(voters_with(&vec![1, 2], 3), vec![1, 2, 3]);
    assert_eq!(voters_with(&vec![1, 2], 2), vec![1, 2]);
}

#[test]
fn a_removal_keeps_a_majority() {
    assert_eq!(voters_without(&vec![1, 2, 3], 3).unwrap(), vec![1, 2]);
    assert!(matches!(voters_without(&vec![1], 1), Err(RemovalRefusal::LastVoter)));
    let refused = voters_without(&vec![1, 2], 2).unwrap_err();
    assert_eq!(
        refused.to_text(),
        "removing node 2 would reduce voters from 2 to 1 — below quorum safety threshold \
         (need > 1 voters). Add a replacement node first, or use joint consensus."
    );
}
