# flmodules

The modules of a peer-to-peer node, as a verified Rust library: routing tables,
a distributed storage of signed records ("Flos"), gossip of events, and the
message handling around them. Each message handler is a function from a state
and an incoming message to the next state and the outgoing messages, and its
contract gives both through a model of the state.

## Layout

- `src/`: the library, checked by Verus.
  - `nodeid`: 256-bit identifiers, their bits and depths.
  - `broker`: which subsystem of a broker gets which message, and which
    messages stay after translation.
  - `dht_router`, `dht_routing`, `dht_network`: Kademlia routing tables and
    the routing of messages to the closest node.
  - `dht_storage`: the storage of the Flos of each realm, its eviction, the
    synchronisation between neighbours, and the path lookup of blobs.
  - `gossip_events`: events kept per category, and their exchange.
  - `flo`: blobs, realms, mana, and the chain of conditions that signs a Flo.
  - `crypto`: entities and groups of verifiers, their evolutions and the
    collection of their signatures; the results of the signature checks are
    inputs, as the signature schemes stay outside.
  - `loopix`: the topology of the mix network, the storage of a provider, the
    routes of packets, what clients, providers and mix nodes do with a final hop,
    and the order in which a client sends its packets. The Sphinx encryption
    stays outside; the random picks of a route are inputs.
  - `ledger`: the state of a ledger instance.
- `tests/`: tests of the library.
- `app/`: ordinary Rust around the library: the broker's message loop, YAML
  storage, the encoding of messages for the network and of Loopix payloads, and
  randomness.
