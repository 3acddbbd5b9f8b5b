//! The fluent builder for an agent's startup options.

use vstd::prelude::*;

use crate::engine::SerfClient;
use crate::gossip::UpdateQueue;
use crate::table::SerfState;

verus! {

/// Declares `std::io::Error` for signatures; the builder itself never
/// produces one.
#[verifier::external_type_specification]
#[verifier::external_body]
pub struct ExIoError(std::io::Error);

/// Startup options for one agent, collected fluently and turned into a
/// [`SerfClient`] by [`SerfMemberBuilder::build`].
#[derive(Debug)]
pub struct SerfMemberBuilder {
    pub udp_port: u16,
    pub client_addr: String,
    pub start_join: Vec<String>,
    pub labels: Vec<(String, String)>,
}

impl Default for SerfMemberBuilder {
    /// An empty configuration: port 0 (ephemeral), no bind host, no
    /// seeds, no labels.
    fn default() -> (r: SerfMemberBuilder)
        ensures
            r.udp_port == 0,
            r.client_addr@ == Seq::<char>::empty(),
            r.start_join@ == Seq::<String>::empty(),
            r.labels@ == Seq::<(String, String)>::empty(),
    {
        SerfMemberBuilder {
            udp_port: 0,
            client_addr: String::new(),
            start_join: Vec::new(),
            labels: Vec::new(),
        }
    }
}

impl SerfMemberBuilder {
    /// The conventional defaults: the loopback host and the standard
    /// gossip port.
    pub fn new() -> (r: SerfMemberBuilder)
        ensures
            r.udp_port == 9120,
            r.client_addr@ == "127.0.0.1"@,
            r.start_join@ == Seq::<String>::empty(),
            r.labels@ == Seq::<(String, String)>::empty(),
    {
        SerfMemberBuilder {
            udp_port: 9120,
            client_addr: String::from_str("127.0.0.1"),
            start_join: Vec::new(),
            labels: Vec::new(),
        }
    }

    /// Set the UDP port the agent will gossip on.
    pub fn with_udp_port(&mut self, port: u16) -> (r: &mut SerfMemberBuilder)
        ensures
            r.udp_port == port,
            r.client_addr == old(self).client_addr,
            r.start_join == old(self).start_join,
            r.labels == old(self).labels,
            *final(self) == *final(r),
    {
        self.udp_port = port;
        self
    }

    /// Set the seed peers contacted with a Join at startup.
    pub fn with_start_join(&mut self, members: Vec<String>) -> (r: &mut SerfMemberBuilder)
        ensures
            r.udp_port == old(self).udp_port,
            r.client_addr == old(self).client_addr,
            r.start_join == members,
            r.labels == old(self).labels,
            *final(self) == *final(r),
    {
        self.start_join = members;
        self
    }

    /// Set the host address the agent binds to.
    pub fn with_client_addr(&mut self, client_addr: String) -> (r: &mut SerfMemberBuilder)
        ensures
            r.udp_port == old(self).udp_port,
            r.client_addr == client_addr,
            r.start_join == old(self).start_join,
            r.labels == old(self).labels,
            *final(self) == *final(r),
    {
        self.client_addr = client_addr;
        self
    }

    /// Set the opaque metadata attached to the local member at join
    /// time.
    pub fn with_labels(&mut self, labels: Vec<(String, String)>) -> (r: &mut SerfMemberBuilder)
        ensures
            r.udp_port == old(self).udp_port,
            r.client_addr == old(self).client_addr,
            r.start_join == old(self).start_join,
            r.labels == labels,
            *final(self) == *final(r),
    {
        self.labels = labels;
        self
    }

    /// Turn the collected options into an engine: an empty table, an
    /// empty dissemination queue, no outstanding probe, and the local
    /// incarnation starting at 1. Building never fails.
    pub fn build(self) -> (r: Result<SerfClient, std::io::Error>)
        ensures
            r matches Ok(c) && c.udp_port == self.udp_port && c.client_addr == self.client_addr
                && c.start_join == self.start_join && c.labels == self.labels && c.incarnation == 1
                && c.current_state@ == Seq::<crate::member::MemberView>::empty()
                && c.updates_buffer@ == Seq::<crate::gossip::UpdateView>::empty()
                && c.pending_probe is None && c.next_msg_num == 0 && c.suspicions@.len() == 0
                && c.tombstones@.len() == 0 && crate::engine::wf_client(&c),
    {
        let c = SerfClient {
            udp_port: self.udp_port,
            client_addr: self.client_addr,
            start_join: self.start_join,
            labels: self.labels,
            incarnation: 1,
            current_state: SerfState::new(),
            updates_buffer: UpdateQueue::new(),
            next_msg_num: 0,
            pending_probe: None,
            suspicions: Vec::new(),
            tombstones: Vec::new(),
        };
        Ok(c)
    }
}

impl SerfClient {
    /// Entry point for configuring an agent: a builder with the empty
    /// configuration.
    pub fn builder() -> (r: SerfMemberBuilder)
        ensures
            r.udp_port == 0,
            r.client_addr@ == Seq::<char>::empty(),
            r.start_join@ == Seq::<String>::empty(),
            r.labels@ == Seq::<(String, String)>::empty(),
    {
        SerfMemberBuilder::default()
    }
}

} // verus!
