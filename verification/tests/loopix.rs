use flmodules::loopix::config::LoopixRole;
use flmodules::loopix::storage::{ClientStorage, NetworkTopology};
use flmodules::nodeid::U256;

fn nodes(n: usize) -> Vec<U256> {
    (0..n)
        .map(|i| {
            let mut b = [0u8; 32];
            b[0] = i as u8 + 1;
            U256::from_bytes(b)
        })
        .collect()
}

#[test]
fn test_client_storage_default_with_path_length() {
    let path_length = 3;
    let all_nodes = nodes(2 * path_length + path_length * path_length);
    let our_node_id = all_nodes[0];

    let client_storage = ClientStorage::default_with_path_length(our_node_id, &all_nodes, path_length);

    assert_eq!(Some(all_nodes[3]), client_storage.our_provider);
    assert_eq!(vec![all_nodes[1], all_nodes[2]], client_storage.clients);
    assert_eq!(
        vec![(all_nodes[1], all_nodes[4]), (all_nodes[2], all_nodes[5])],
        client_storage.client_to_provider_map
    );
}

#[test]
fn test_default_with_path_length() {
    let path_length = 3;
    let all_nodes = nodes(2 * path_length + path_length * path_length);
    let node_id = all_nodes[0];

    let topology = NetworkTopology::default_with_path_length(node_id, path_length, &all_nodes);
    assert_eq!(all_nodes[3..6].to_vec(), topology.providers);
    assert_eq!(
        vec![all_nodes[6..9].to_vec(), all_nodes[9..12].to_vec(), all_nodes[12..15].to_vec()],
        topology.mixes
    );
}

/// A node never appears in its own view of the network.
#[test]
fn loopix_topology_without_own_node() {
    let path_length = 2;
    let all_nodes = nodes(2 * path_length + path_length * path_length);
    let mix = all_nodes[5];
    let topology = NetworkTopology::default_with_path_length(mix, path_length, &all_nodes);
    assert_eq!(vec![vec![all_nodes[4]], vec![all_nodes[6], all_nodes[7]]], topology.mixes);
    let provider = all_nodes[2];
    let topology = NetworkTopology::default_with_path_length(provider, path_length, &all_nodes);
    assert_eq!(vec![all_nodes[3]], topology.providers);
}

#[test]
fn loopix_n_clients() {
    let path_length = 2;
    let n_clients = 3;
    let all_nodes = nodes(n_clients + path_length + path_length * (path_length - 1));
    let our = all_nodes[1];
    let cs = ClientStorage::default_with_path_length_and_n_clients(our, &all_nodes, path_length, n_clients);
    // Providers of clients 0, 1, 2 are nodes 3, 4, 3.
    assert_eq!(Some(all_nodes[4]), cs.our_provider);
    assert_eq!(vec![all_nodes[0], all_nodes[2]], cs.clients);
    assert_eq!(vec![(all_nodes[0], all_nodes[3]), (all_nodes[2], all_nodes[3])], cs.client_to_provider_map);

    let topology =
        NetworkTopology::default_with_path_length_and_n_clients(our, path_length, n_clients, &all_nodes);
    assert_eq!(vec![all_nodes[3], all_nodes[4]], topology.providers);
    assert_eq!(vec![vec![all_nodes[5]], vec![all_nodes[6]]], topology.mixes);
    assert!(LoopixRole::Client != LoopixRole::Mixnode);
}
