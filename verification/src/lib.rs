//! A carrier of requests and responses between the nodes of a fixed mesh.
//!
//! Every node runs one [`Carrier`]. It owns a bounded queue of incoming and
//! one of outgoing requests for each of the other nodes; the application
//! holds the other ends, as [`Incoming`] and [`Outgoing`]. What this library
//! holds is the logic of the carrier: the framing of messages, the state of
//! each connection, the routing by node. Sockets, TLS handshakes and tasks
//! are the caller's.

use crate::channels::{Incoming, NodeCallback, Outgoing};
use crate::table::Table;
use vstd::prelude::*;

pub mod channels;
pub mod messages;
pub mod node;
pub mod protobuf_tcp;
pub mod table;
pub mod tls;

verus! {

/// The name by which TLS knows a server.
#[verifier::external_type_specification]
#[verifier::external_body]
pub struct ExServerName<'a>(rustls::pki_types::ServerName<'a>);

/// The number of requests that a queue holds before its senders wait.
pub const CHANNEL_CAPACITY: usize = 64;

/// Service error.
#[derive(Debug)]
pub enum Error {
    /// The TLS configurations could not be made.
    TlsInit(tls::Error),
    /// The listening socket failed.
    Socket(std::io::Error),
}

/// Whether `name` is the name of a server: a DNS name or an IP address, as
/// `ServerName::try_from` of `rustls` takes it.
pub uninterp spec fn is_server_name(name: Seq<char>) -> bool;

/// The name of the server `name`, by `ServerName::try_from` of `rustls`;
/// `None` where `name` is neither a DNS name nor an IP address.
#[verifier::external_body]
fn server_name(name: String) -> (r: Option<rustls::pki_types::ServerName<'static>>)
    ensures
        r is Some <==> is_server_name(name@),
{
    rustls::pki_types::ServerName::try_from(name).ok()
}

/// An outgoing connection to keep up.
pub struct Connection {
    /// The node to connect to.
    pub node: String,
    /// The port to connect to.
    pub port: u16,
    /// The name that the node must prove to have.
    pub dnsname: rustls::pki_types::ServerName<'static>,
    /// The queue of the requests to the node.
    pub outgoing: futures::channel::mpsc::Receiver<NodeCallback>,
}

/// What a running carrier consists of: one listener that hands every
/// accepted connection the incoming queues, and one outgoing connection for
/// each node. The carrier runs until the first of them ends.
pub struct Plan {
    /// The incoming queue of each node.
    pub incoming: Table<String, futures::channel::mpsc::Sender<NodeCallback>>,
    /// The outgoing connections.
    pub outgoing: Vec<Connection>,
}

/// Communication worker.
pub struct Carrier {
    nodes: Table<String, u16>,
    incoming: Table<String, futures::channel::mpsc::Sender<NodeCallback>>,
    outgoing: Table<String, futures::channel::mpsc::Receiver<NodeCallback>>,
}

impl Carrier {
    /// The port of each node.
    pub closed spec fn nodes(&self) -> Map<Seq<char>, u16> {
        self.nodes@
    }

    /// The nodes in the order in which the carrier connects to them.
    pub closed spec fn order(&self) -> Seq<Seq<char>> {
        self.nodes.order()
    }

    /// The sending half of the incoming queue of each node.
    pub closed spec fn incoming(&self) -> Map<
        Seq<char>,
        futures::channel::mpsc::Sender<NodeCallback>,
    > {
        self.incoming@
    }

    /// The receiving half of the outgoing queue of each node.
    pub closed spec fn outgoing(&self) -> Map<
        Seq<char>,
        futures::channel::mpsc::Receiver<NodeCallback>,
    > {
        self.outgoing@
    }

    /// Every node has its two queues, and there is no queue besides.
    pub closed spec fn wf(&self) -> bool {
        &&& self.nodes.wf()
        &&& self.incoming.wf()
        &&& self.outgoing.wf()
        &&& self.incoming@.dom() == self.nodes@.dom()
        &&& self.outgoing@.dom() == self.nodes@.dom()
    }

    /// The queues of a carrier in order are those of its nodes, each of which
    /// stands once in the order.
    pub proof fn lemma_wf(&self)
        requires
            self.wf(),
        ensures
            self.incoming().dom() == self.nodes().dom(),
            self.outgoing().dom() == self.nodes().dom(),
            self.order().no_duplicates(),
            forall|node: Seq<char>| self.nodes().contains_key(node) <==> self.order().contains(node),
    {
        self.nodes.lemma_order();
    }

    /// Creates a new [`Carrier`] together with an associated [`Incoming`] and
    /// [`Outgoing`] channel sets: for each of `nodes` one queue of incoming
    /// and one of outgoing requests, of which the carrier holds one end and
    /// the channel sets the other.
    pub fn new(nodes: Table<String, u16>) -> (parts: (Self, Incoming, Outgoing))
        requires
            nodes.wf(),
        ensures
            parts.0.wf(),
            parts.0.nodes() == nodes@,
            parts.0.order() == nodes.order(),
            parts.1.wf(),
            parts.1.nodes() == nodes@.dom(),
            parts.1.order() == nodes.order(),
            forall|i: int| 0 <= i < parts.1.ended().len() ==> !parts.1.ended()[i],
            parts.2.wf(),
            parts.2.nodes() == nodes@.dom(),
    {
        let mut incoming_tx: Table<String, futures::channel::mpsc::Sender<NodeCallback>> =
            Table::new();
        let mut incoming_rx: Table<String, futures::channel::mpsc::Receiver<NodeCallback>> =
            Table::new();
        let mut outgoing_tx: Table<String, futures::channel::mpsc::Sender<NodeCallback>> =
            Table::new();
        let mut outgoing_rx: Table<String, futures::channel::mpsc::Receiver<NodeCallback>> =
            Table::new();
        let count = nodes.count();
        let mut i: usize = 0;
        proof {
            nodes.lemma_order();
        }
        while i < count
            invariant
                nodes.wf(),
                nodes.order().no_duplicates(),
                count == nodes.order().len(),
                i <= count,
                incoming_tx.wf(),
                incoming_rx.wf(),
                outgoing_tx.wf(),
                outgoing_rx.wf(),
                incoming_tx.order() == nodes.order().take(i as int),
                incoming_rx.order() == nodes.order().take(i as int),
                outgoing_tx.order() == nodes.order().take(i as int),
                outgoing_rx.order() == nodes.order().take(i as int),
            decreases count - i,
        {
            let node = nodes.key(i);
            proof {
                incoming_tx.lemma_order();
                incoming_rx.lemma_order();
                outgoing_tx.lemma_order();
                outgoing_rx.lemma_order();
                assert(!nodes.order().take(i as int).contains(node@)) by {
                    if nodes.order().take(i as int).contains(node@) {
                        let j = choose|j: int|
                            0 <= j < i && nodes.order().take(i as int)[j] == node@;
                        assert(nodes.order()[j] == nodes.order()[i as int]);
                    }
                }
                assert(nodes.order().take(i as int).push(node@) =~= nodes.order().take(i + 1));
            }
            let (tx, rx) = futures::channel::mpsc::channel(CHANNEL_CAPACITY);
            let _ = incoming_tx.try_insert(node.clone(), tx);
            let _ = incoming_rx.try_insert(node.clone(), rx);
            let (tx, rx) = futures::channel::mpsc::channel(CHANNEL_CAPACITY);
            let _ = outgoing_tx.try_insert(node.clone(), tx);
            let _ = outgoing_rx.try_insert(node.clone(), rx);
            i += 1;
        }
        proof {
            assert(nodes.order().take(count as int) =~= nodes.order());
            incoming_tx.lemma_same_keys(&nodes);
            incoming_rx.lemma_same_keys(&nodes);
            outgoing_tx.lemma_same_keys(&nodes);
            outgoing_rx.lemma_same_keys(&nodes);
        }
        let carrier = Carrier { nodes, incoming: incoming_tx, outgoing: outgoing_rx };
        let incoming = Incoming::new(incoming_rx);
        let outgoing = Outgoing::new(outgoing_tx);
        (carrier, incoming, outgoing)
    }

    /// Whether `plan` is what the carrier `self` is to run: its incoming
    /// queues for the listener, and for each of its nodes, in order, a
    /// connection to the node's port that drains the node's outgoing queue.
    pub open spec fn planned(&self, plan: Plan) -> bool {
        &&& plan.incoming@ == self.incoming()
        &&& plan.outgoing@.len() == self.order().len()
        &&& forall|i: int|
            0 <= i < self.order().len() ==> {
                let connection = #[trigger] plan.outgoing@[i];
                &&& connection.node@ == self.order()[i]
                &&& connection.port == self.nodes()[self.order()[i]]
                &&& connection.outgoing == self.outgoing()[self.order()[i]]
            }
    }

    /// Whether every node has a name by which TLS can check it.
    pub open spec fn named(&self) -> bool {
        forall|i: int| 0 <= i < self.order().len() ==> is_server_name(#[trigger] self.order()[i])
    }

    /// Takes the carrier apart into what is to be run. Every node must have
    /// the name of a server; [`Carrier::try_run`] finds out whether that is
    /// so.
    pub fn run(self) -> (plan: Plan)
        requires
            self.wf(),
            self.named(),
        ensures
            self.planned(plan),
    {
        let Carrier { nodes, incoming, outgoing } = self;
        let mut outgoing = outgoing;
        let mut connections: Vec<Connection> = Vec::new();
        let count = nodes.count();
        let mut i: usize = 0;
        proof {
            nodes.lemma_order();
            assert forall|j: int| 0 <= j < count implies outgoing@.contains_key(
                #[trigger] nodes.order()[j],
            ) by {
                assert(nodes.order().contains(nodes.order()[j]));
                assert(nodes@.dom().contains(nodes.order()[j]));
            }
        }
        while i < count
            invariant
                nodes.wf(),
                outgoing.wf(),
                nodes == self.nodes,
                self.named(),
                nodes.order().no_duplicates(),
                count == nodes.order().len(),
                i <= count,
                connections@.len() == i,
                forall|j: int|
                    i <= j < count ==> outgoing@.contains_key(#[trigger] nodes.order()[j])
                        && outgoing@[nodes.order()[j]] == self.outgoing@[nodes.order()[j]],
                forall|j: int|
                    0 <= j < i ==> {
                        let connection = #[trigger] connections@[j];
                        &&& connection.node@ == nodes.order()[j]
                        &&& connection.port == nodes@[nodes.order()[j]]
                        &&& connection.outgoing == self.outgoing@[nodes.order()[j]]
                    },
            decreases count - i,
        {
            let node = nodes.key(i).clone();
            let port = *nodes.value(i);
            let ghost before = outgoing@;
            proof {
                assert(is_server_name(self.order()[i as int]));
            }
            match (server_name(node.clone()), outgoing.remove(&node)) {
                (Some(dnsname), Some(queue)) => {
                    connections.push(Connection { node, port, dnsname, outgoing: queue });
                },
                _ => {},
            }
            proof {
                assert forall|j: int| i < j < count implies outgoing@.contains_key(
                    #[trigger] nodes.order()[j],
                ) && outgoing@[nodes.order()[j]] == self.outgoing@[nodes.order()[j]] by {
                    assert(nodes.order()[j] != nodes.order()[i as int]);
                    assert(before.contains_key(nodes.order()[j]));
                }
            }
            i += 1;
        }
        Plan { incoming, outgoing: connections }
    }

    /// Takes the carrier apart into what is to be run, where every node has
    /// the name of a server. Where one has not, there is nothing to run.
    pub fn try_run(self) -> (r: Option<Plan>)
        requires
            self.wf(),
        ensures
            match r {
                Some(plan) => self.named() && self.planned(plan),
                None => !self.named(),
            },
    {
        let count = self.nodes.count();
        let mut i: usize = 0;
        while i < count
            invariant
                self.wf(),
                count == self.order().len(),
                i <= count,
                forall|j: int| 0 <= j < i ==> is_server_name(#[trigger] self.order()[j]),
            decreases count - i,
        {
            let node = self.nodes.key(i).clone();
            if server_name(node).is_none() {
                assert(!is_server_name(self.order()[i as int]));
                return None;
            }
            i += 1;
        }
        Some(self.run())
    }
}

} // verus!
