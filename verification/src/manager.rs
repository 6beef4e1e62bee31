//! The server-side manager: a registry from endpoint path to handler
//! name, a running flag for the hosting application's server loop, and a
//! client whose discovery table makes this manager's services findable.

use vstd::prelude::*;
use crate::VSPError;
use crate::client::VSPClient;
use crate::discovery::StaticDiscovery;
use crate::service::{ServiceInfo, pairs_view, lemma_pairs_view, tag_lookup, tag_filter};

verus! {

/// How the manager schedules its workers; scheduling itself belongs to
/// the hosting application.
#[derive(Clone, Copy, Debug, PartialEq, Eq, Structural)]
pub enum WorkerType {
    Asyncio,
    Multicore,
}

/// The server-side counterpart of the client: endpoint dispatch table,
/// server lifecycle flag, and service registration.
pub struct VSPManager {
    name: String,
    client: VSPClient,
    endpoints: Vec<(String, String)>,
    num_workers: usize,
    worker_type: WorkerType,
    max_queue_size: usize,
    server_running: bool,
}

impl VSPManager {
    pub closed spec fn name_chars(&self) -> Seq<char> {
        self.name@
    }

    /// The endpoint-to-handler map, in insertion order.
    pub closed spec fn endpoint_map(&self) -> Seq<(Seq<char>, Seq<char>)> {
        pairs_view(self.endpoints@, 0)
    }

    pub closed spec fn client(&self) -> VSPClient {
        self.client
    }

    pub closed spec fn running(&self) -> bool {
        self.server_running
    }

    pub closed spec fn num_workers(&self) -> nat {
        self.num_workers as nat
    }

    pub closed spec fn worker_type(&self) -> WorkerType {
        self.worker_type
    }

    pub closed spec fn max_queue_size(&self) -> nat {
        self.max_queue_size as nat
    }

    pub open spec fn wf(&self) -> bool {
        self.client().wf()
    }

    pub fn new(
        name: String,
        service_mesh: Option<StaticDiscovery>,
        num_workers: Option<usize>,
        worker_type: Option<WorkerType>,
        max_queue_size: Option<usize>,
        max_transports: Option<usize>,
    ) -> (r: VSPManager)
        requires
            match service_mesh {
                Some(d) => d.wf(),
                None => true,
            },
        ensures
            r.wf(),
            r.name_chars() == name@,
            r.endpoint_map() == Seq::<(Seq<char>, Seq<char>)>::empty(),
            !r.running(),
            service_mesh is Some ==> r.client().discovery() == service_mesh->0,
            service_mesh is None ==> r.client().discovery().entries() == Seq::<
                (String, Vec<crate::service::ServiceInfo>),
            >::empty(),
            r.client().balancer().counter() == 0,
            r.client().pool().entries() == Seq::<
                (String, Vec<crate::pool::TCPTransport>),
            >::empty(),
            r.client().pool().max_connections() == match max_transports {
                Some(m) => m as int,
                None => 10,
            },
            r.num_workers() >= 1,
            r.num_workers() == match num_workers {
                Some(n) => if n >= 1 {
                    n as nat
                } else {
                    1nat
                },
                None => 4nat,
            },
            r.worker_type() == match worker_type {
                Some(w) => w,
                None => WorkerType::Asyncio,
            },
            r.max_queue_size() == match max_queue_size {
                Some(m) => m as nat,
                None => 2000nat,
            },
    {
        let client = VSPClient::new(service_mesh, None, max_transports, None);
        proof {
            lemma_pairs_view(Seq::<(String, String)>::empty(), 0);
        }
        VSPManager {
            name,
            client,
            endpoints: Vec::new(),
            num_workers: match num_workers {
                Some(n) => if n >= 1 {
                    n
                } else {
                    1
                },
                None => 4,
            },
            worker_type: match worker_type {
                Some(w) => w,
                None => WorkerType::Asyncio,
            },
            max_queue_size: match max_queue_size {
                Some(m) => m,
                None => 2000,
            },
            server_running: false,
        }
    }

    /// Maps `endpoint` to `handler_name`, replacing a previous mapping.
    #[verifier::loop_isolation(false)]
    pub fn register_endpoint(&mut self, endpoint: String, handler_name: String)
        ensures
            final(self).endpoint_map() == tag_filter(old(self).endpoint_map(), endpoint@) + seq![
                (endpoint@, handler_name@),
            ],
            final(self).running() == old(self).running(),
            final(self).client() == old(self).client(),
            final(self).wf() == old(self).wf(),
    {
        let mut kept: Vec<(String, String)> = Vec::new();
        let mut i: usize = 0;
        let ghost t0 = pairs_view(self.endpoints@, 0);
        proof {
            lemma_pairs_view(self.endpoints@, 0);
            assert(t0.take(0) =~= Seq::<(Seq<char>, Seq<char>)>::empty());
            assert(tag_filter(Seq::<(Seq<char>, Seq<char>)>::empty(), endpoint@) =~= Seq::<
                (Seq<char>, Seq<char>),
            >::empty());
            assert(pairs_view(kept@, 0) =~= Seq::<(Seq<char>, Seq<char>)>::empty());
        }
        while i < self.endpoints.len()
            invariant
                i <= self.endpoints@.len(),
                t0 == pairs_view(self.endpoints@, 0),
                t0.len() == self.endpoints@.len(),
                forall|j: int|
                    0 <= j < self.endpoints@.len() ==> t0[j] == (
                        (#[trigger] self.endpoints@[j]).0@,
                        self.endpoints@[j].1@,
                    ),
                pairs_view(kept@, 0) == tag_filter(t0.take(i as int), endpoint@),
            decreases self.endpoints@.len() - i,
        {
            let ghost kv = pairs_view(kept@, 0);
            let ghost kept0 = kept@;
            proof {
                assert(t0.take(i + 1) =~= t0.take(i as int) + seq![t0[i as int]]);
                crate::service::lemma_tag_filter_concat(
                    t0.take(i as int),
                    seq![t0[i as int]],
                    endpoint@,
                );
                assert(seq![t0[i as int]].drop_first() =~= Seq::<(Seq<char>, Seq<char>)>::empty());
                assert(tag_filter(Seq::<(Seq<char>, Seq<char>)>::empty(), endpoint@) =~= Seq::<
                    (Seq<char>, Seq<char>),
                >::empty());
            }
            if !self.endpoints[i].0.eq(&endpoint) {
                let p = (self.endpoints[i].0.clone(), self.endpoints[i].1.clone());
                kept.push(p);
                proof {
                    assert(kept@.take(kept@.len() - 1) =~= kept0);
                    crate::service::lemma_pairs_view_push(kept@, kv);
                    assert(tag_filter(seq![t0[i as int]], endpoint@) =~= seq![t0[i as int]]);
                    assert(pairs_view(kept@, 0) =~= tag_filter(t0.take(i + 1), endpoint@));
                }
            } else {
                proof {
                    assert(tag_filter(seq![t0[i as int]], endpoint@) =~= Seq::<
                        (Seq<char>, Seq<char>),
                    >::empty());
                    assert(pairs_view(kept@, 0) =~= tag_filter(t0.take(i + 1), endpoint@));
                }
            }
            i = i + 1;
        }
        proof {
            assert(t0.take(t0.len() as int) =~= t0);
        }
        let ghost kv = pairs_view(kept@, 0);
        let ghost kept0 = kept@;
        kept.push((endpoint, handler_name));
        proof {
            assert(kept@.take(kept@.len() - 1) =~= kept0);
            crate::service::lemma_pairs_view_push(kept@, kv);
        }
        self.endpoints = kept;
    }

    /// Marks the server running; accepting sockets on `host:port` is the
    /// hosting application's work.
    pub fn start_server(&mut self, host: &String, port: u16)
        ensures
            final(self).running(),
            final(self).endpoint_map() == old(self).endpoint_map(),
            final(self).client() == old(self).client(),
            final(self).wf() == old(self).wf(),
    {
        self.server_running = true;
    }

    /// Marks the server stopped.
    pub fn stop_server(&mut self)
        ensures
            !final(self).running(),
            final(self).endpoint_map() == old(self).endpoint_map(),
            final(self).client() == old(self).client(),
            final(self).wf() == old(self).wf(),
    {
        self.server_running = false;
    }

    pub fn is_running(&self) -> (r: bool)
        ensures
            r == self.running(),
    {
        self.server_running
    }

    /// Dispatches a call to `endpoint`: the mapped handler answers; an
    /// unknown endpoint is a not-found error.
    #[verifier::loop_isolation(false)]
    pub fn handle_endpoint(&self, endpoint: &String) -> (r: Result<String, VSPError>)
        ensures
            match r {
                Ok(s) => exists|h: Seq<char>|
                    tag_lookup(self.endpoint_map(), endpoint@) == Some(h) && s@ == "Handled by "@
                        + h,
                Err(e) => tag_lookup(self.endpoint_map(), endpoint@) is None && e
                    == VSPError::NotFound,
            },
    {
        let mut i: usize = 0;
        proof {
            lemma_pairs_view(self.endpoints@, 0);
        }
        while i < self.endpoints.len()
            invariant
                i <= self.endpoints@.len(),
                tag_lookup(self.endpoint_map(), endpoint@) == tag_lookup(
                    pairs_view(self.endpoints@, i as int),
                    endpoint@,
                ),
            decreases self.endpoints@.len() - i,
        {
            proof {
                lemma_pairs_view(self.endpoints@, i as int);
                assert(pairs_view(self.endpoints@, i as int)[0] == (
                    self.endpoints@[i as int].0@,
                    self.endpoints@[i as int].1@,
                ));
                assert(pairs_view(self.endpoints@, i as int).drop_first() =~= pairs_view(
                    self.endpoints@,
                    i + 1,
                ));
            }
            if self.endpoints[i].0.eq(endpoint) {
                let mut s = String::from_str("Handled by ");
                s.append(self.endpoints[i].1.as_str());
                return Ok(s);
            }
            i = i + 1;
        }
        proof {
            lemma_pairs_view(self.endpoints@, self.endpoints@.len() as int);
        }
        Err(VSPError::NotFound)
    }

    /// The registered endpoint paths, in insertion order.
    #[verifier::loop_isolation(false)]
    pub fn get_endpoints(&self) -> (r: Vec<String>)
        ensures
            r@.len() == self.endpoint_map().len(),
            forall|j: int|
                0 <= j < r@.len() ==> (#[trigger] r@[j])@ == self.endpoint_map()[j].0,
    {
        proof {
            lemma_pairs_view(self.endpoints@, 0);
        }
        let mut out: Vec<String> = Vec::new();
        let mut i: usize = 0;
        while i < self.endpoints.len()
            invariant
                i <= self.endpoints@.len(),
                out@.len() == i,
                forall|j: int|
                    0 <= j < i ==> (#[trigger] out@[j])@ == self.endpoints@[j].0@,
            decreases self.endpoints@.len() - i,
        {
            out.push(self.endpoints[i].0.clone());
            i = i + 1;
        }
        out
    }

    /// Publishes one of this manager's service instances through the
    /// owned client's discovery table.
    pub fn register_service(&mut self, service: ServiceInfo)
        requires
            old(self).wf(),
        ensures
            final(self).wf(),
            final(self).endpoint_map() == old(self).endpoint_map(),
            final(self).running() == old(self).running(),
            final(self).client().discovery().instances_of(service@.name)
                == old(self).client().discovery().instances_of(service@.name) + seq![service],
            forall|k2: Seq<char>|
                k2 != service@.name
                    ==> #[trigger] final(self).client().discovery().instances_of(k2)
                    == old(self).client().discovery().instances_of(k2),
    {
        self.client.register_service(service);
    }

    /// Whether a client is attached; one always is.
    pub fn has_client(&self) -> (r: bool)
        ensures
            r,
    {
        true
    }
}

} // verus!
