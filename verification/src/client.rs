//! The outbound side of a service call: discovery lookup, load-balancer
//! selection, pool acquisition, framing and send, in one orchestration.

use vstd::prelude::*;
use crate::VSPError;
use crate::discovery::{StaticDiscovery, healthy_of};
use crate::load_balancer::{RoundRobinBalancer, views_of};
use crate::pool::{ConnectionPool, list_of, first_open, total_conns, has_key};
use crate::service::{ServiceInfo, endpoint_chars};
use crate::message::{VSPMessage, MsgV, msg_payload};
use crate::protocol::VSPProtocol;
use crate::json::{JsonValue, JVal, jpairs_of};

verus! {

/// A client issuing calls to named services.
pub struct VSPClient {
    discovery: StaticDiscovery,
    load_balancer: RoundRobinBalancer,
    connection_pool: ConnectionPool,
    max_transports: usize,
    timeout_seconds: u64,
}

/// The healthy candidates a discovery table offers for `name`.
pub open spec fn candidates_of(d: StaticDiscovery, name: Seq<char>) -> Seq<
    crate::service::ServiceInfoV,
> {
    healthy_of(views_of(d.instances_of(name), 0))
}

/// The request message one call builds from its inputs and a fresh id.
pub open spec fn request_msg(
    rid: Seq<char>,
    service: Seq<char>,
    ep: Seq<char>,
    body: Seq<(Seq<char>, JVal)>,
) -> MsgV {
    MsgV { request_id: rid, service: service, endpoint: ep, is_response: false, body: body }
}

impl VSPClient {
    pub closed spec fn discovery(&self) -> StaticDiscovery {
        self.discovery
    }

    pub closed spec fn balancer(&self) -> RoundRobinBalancer {
        self.load_balancer
    }

    pub closed spec fn pool(&self) -> ConnectionPool {
        self.connection_pool
    }

    pub closed spec fn timeout_seconds(&self) -> u64 {
        self.timeout_seconds
    }

    pub open spec fn wf(&self) -> bool {
        self.discovery().wf() && self.pool().wf()
    }

    pub fn new(
        discovery: Option<StaticDiscovery>,
        load_balancer: Option<RoundRobinBalancer>,
        max_transports: Option<usize>,
        timeout_seconds: Option<u64>,
    ) -> (r: VSPClient)
        requires
            match discovery {
                Some(d) => d.wf(),
                None => true,
            },
        ensures
            r.wf(),
            r.discovery() == match discovery {
                Some(d) => d,
                None => r.discovery(),
            },
            discovery is None ==> r.discovery().entries() == Seq::<
                (String, Vec<ServiceInfo>),
            >::empty(),
            load_balancer is None ==> r.balancer().counter() == 0,
            load_balancer is Some ==> r.balancer() == load_balancer->0,
            r.pool().entries() == Seq::<(String, Vec<crate::pool::TCPTransport>)>::empty(),
            r.pool().max_connections() == match max_transports {
                Some(m) => m as int,
                None => 10,
            },
            r.timeout_seconds() == match timeout_seconds {
                Some(t) => t,
                None => 30u64,
            },
    {
        let discovery = match discovery {
            Some(d) => d,
            None => StaticDiscovery::new(),
        };
        let load_balancer = match load_balancer {
            Some(b) => b,
            None => RoundRobinBalancer::new(),
        };
        let max_transports_v = match max_transports {
            Some(m) => Some(m),
            None => None,
        };
        VSPClient {
            discovery,
            load_balancer,
            connection_pool: ConnectionPool::new(max_transports_v),
            max_transports: match max_transports {
                Some(m) => m,
                None => 5,
            },
            timeout_seconds: match timeout_seconds {
                Some(t) => t,
                None => 30,
            },
        }
    }

    /// One synchronous service call: healthy instances are discovered,
    /// one is selected round-robin, a transport is acquired from the pool
    /// for its address, the request message is framed and sent, and the
    /// call's identifiers come back. No healthy instance is a not-found
    /// error; an exhausted pool is backpressure; a request too large for
    /// the frame header is a protocol error.
    #[verifier::rlimit(100)]
    pub fn call_sync(&mut self, service_name: &String, endpoint: &String, data: Vec<(String,
        JsonValue)>) -> (r: Result<Vec<(String, JsonValue)>, VSPError>)
        requires
            old(self).wf(),
        ensures
            final(self).wf(),
            final(self).discovery() == old(self).discovery(),
            final(self).pool().max_connections() == old(self).pool().max_connections(),
            ({
                let cands = candidates_of(old(self).discovery(), service_name@);
                let sel = cands[(old(self).balancer().counter() % (cands.len() as nat)) as int];
                let key = endpoint_chars(sel.host, sel.port);
                let l0 = list_of(old(self).pool().entries(), key);
                let l1 = list_of(final(self).pool().entries(), key);
                let advanced = final(self).balancer().counter() == (old(self).balancer().counter()
                    + 1) % 0x1_0000_0000_0000_0000;
                match r {
                    Err(VSPError::NotFound) => cands.len() == 0 && final(self).pool() == old(
                        self,
                    ).pool() && final(self).balancer() == old(self).balancer(),
                    Err(VSPError::ConnectionExhausted) => cands.len() > 0 && advanced
                        && first_open(l0) == l0.len() && l0.len() >= old(
                        self,
                    ).pool().max_connections() && l1 == l0 && (has_key(
                        old(self).pool().entries(),
                        key,
                    ) ==> final(self).pool().entries() == old(self).pool().entries()) && (forall|
                        k2: Seq<char>,
                    |
                        k2 != key ==> #[trigger] list_of(final(self).pool().entries(), k2)
                            == list_of(old(self).pool().entries(), k2)),
                    Err(VSPError::ProtocolError) => cands.len() > 0 && advanced && (exists|
                        rid: Seq<char>,
                    |
                        rid.len() == 36 && msg_payload(
                            request_msg(rid, service_name@, endpoint@, jpairs_of(data@, 0)),
                        ).len() >= 0x1_0000_0000) && (forall|k2: Seq<char>|
                        k2 != key ==> #[trigger] list_of(final(self).pool().entries(), k2)
                            == list_of(old(self).pool().entries(), k2)) && (if first_open(l0)
                        < l0.len() {
                        l1 == l0
                    } else {
                        l0.len() < old(self).pool().max_connections() && l1.len() == l0.len() + 1
                            && l1.take(l0.len() as int) == l0 && !l1[l0.len() as int].connected
                    }),
                    Ok(pairs) => cands.len() > 0 && advanced && (forall|k2: Seq<char>|
                        k2 != key ==> #[trigger] list_of(final(self).pool().entries(), k2)
                            == list_of(old(self).pool().entries(), k2)) && (if first_open(l0)
                        < l0.len() {
                        l1.len() == l0.len() && l1[first_open(l0)].connected && l1[first_open(
                            l0,
                        )].host@ == l0[first_open(l0)].host@ && l1[first_open(l0)].port == l0[
                            first_open(l0)].port && (forall|m: int|
                            0 <= m < l0.len() && m != first_open(l0) ==> l1[m] == l0[m])
                    } else {
                        l0.len() < old(self).pool().max_connections() && l1.len() == l0.len() + 1
                            && l1.take(l0.len() as int) == l0 && l1[l0.len() as int].connected
                            && l1[l0.len() as int].host@ == sel.host && l1[l0.len() as int].port
                            == sel.port
                    }) && (exists|rid: Seq<char>|
                        rid.len() == 36 && jpairs_of(pairs@, 0) == seq![
                            ("status"@, JVal::Str("success"@)),
                            ("request_id"@, JVal::Str(rid)),
                            ("service"@, JVal::Str(service_name@)),
                            ("endpoint"@, JVal::Str(endpoint@)),
                        ]),
                    Err(_) => false,
                }
            }),
    {
        let services = self.discovery.query(service_name);
        proof {
            crate::load_balancer::lemma_views_of(services@, 0);
        }
        if services.len() == 0 {
            return Err(VSPError::NotFound);
        }
        let ghost c0 = self.load_balancer.counter();
        let (host, port) = match self.load_balancer.select(&services) {
            Some(sel) => (sel.host().clone(), sel.port()),
            None => {
                return Err(VSPError::SelectionFailure);
            },
        };
        let ghost cands = candidates_of(old(self).discovery(), service_name@);
        let ghost sel = cands[(c0 % (cands.len() as nat)) as int];
        proof {
            assert(cands == views_of(services@, 0));
            assert(views_of(services@, 0)[(c0 % (services@.len() as nat)) as int] == services@[(
            c0 % (services@.len() as nat)) as int]@);
            assert(host@ == sel.host && port == sel.port);
        }
        let ghost key = endpoint_chars(sel.host, sel.port);
        let ghost l0 = list_of(self.connection_pool.entries(), key);
        let sel_ref_endpoint = {
            let mut e = host.clone();
            e.append(":");
            crate::service::push_dec_chars(&mut e, port as u64);
            proof {
                reveal_strlit(":");
                assert(e@ =~= endpoint_chars(host@, port));
                assert(e@ == key);
            }
            e
        };
        let ghost dataview = data@;
        let request_id = VSPMessage::generate_request_id();
        let mut message = VSPMessage::new(
            request_id.clone(),
            service_name.clone(),
            endpoint.clone(),
            data,
            false,
        );
        proof {
            assert(message@ == request_msg(
                request_id@,
                service_name@,
                endpoint@,
                jpairs_of(dataview, 0),
            ));
        }
        let idx = match self.connection_pool.get_transport_internal(
            &sel_ref_endpoint,
            &host,
            port,
        ) {
            Some(i) => i,
            None => {
                return Err(VSPError::ConnectionExhausted);
            },
        };
        let ghost esg = self.connection_pool.entries();
        let ghost l1g = list_of(esg, key);
        let proto = VSPProtocol::new();
        let frame = match proto.send_message(&mut message) {
            Ok(f) => f,
            Err(_) => {
                proof {
                    assert(request_id@.len() == 36);
                    assert(msg_payload(
                        request_msg(request_id@, service_name@, endpoint@, jpairs_of(dataview, 0)),
                    ).len() >= 0x1_0000_0000);
                }
                return Err(VSPError::ProtocolError);
            },
        };
        match self.connection_pool.send_through(&sel_ref_endpoint, idx, &frame) {
            Ok(_) => {},
            Err(_) => {
                proof {
                    assert(false);
                }
            },
        };
        proof {
            let lf = list_of(self.connection_pool.entries(), key);
            assert forall|k2: Seq<char>|
                k2 != key implies #[trigger] list_of(self.connection_pool.entries(), k2)
                == list_of(old(self).pool().entries(), k2) by {
                assert(list_of(esg, k2) == list_of(old(self).pool().entries(), k2));
            }
            if first_open(l0) < l0.len() {
                assert(idx as int == first_open(l0));
                assert(l1g == l0);
                assert forall|m: int|
                    0 <= m < l0.len() && m != first_open(l0) implies lf[m] == l0[m] by {}
            } else {
                assert(l1g.len() == l0.len() + 1 && idx as int == l0.len());
                assert(lf.take(l0.len() as int) =~= l0) by {
                    assert forall|m: int| 0 <= m < l0.len() implies lf[m] == l0[m] by {
                        assert(lf[m] == l1g[m]);
                        assert(l1g.take(l0.len() as int)[m] == l1g[m]);
                    }
                }
                assert(lf[idx as int].host@ == l1g[idx as int].host@);
                assert(l1g[idx as int].host@ == host@);
            }
        }
        let mut pairs: Vec<(String, JsonValue)> = Vec::new();
        pairs.push((String::from_str("status"), JsonValue::Str(String::from_str("success"))));
        pairs.push((String::from_str("request_id"), JsonValue::Str(request_id)));
        pairs.push((String::from_str("service"), JsonValue::Str(service_name.clone())));
        pairs.push((String::from_str("endpoint"), JsonValue::Str(endpoint.clone())));
        proof {
            crate::json::lemma_jpairs_of(pairs@, 0);
            let m0: int = 0;
            let m1: int = 1;
            let m2: int = 2;
            let m3: int = 3;
            assert(jpairs_of(pairs@, 0)[m0 - 0] == (pairs@[m0].0@, crate::json::jval_of(
                pairs@[m0].1,
            )));
            assert(jpairs_of(pairs@, 0)[m1 - 0] == (pairs@[m1].0@, crate::json::jval_of(
                pairs@[m1].1,
            )));
            assert(jpairs_of(pairs@, 0)[m2 - 0] == (pairs@[m2].0@, crate::json::jval_of(
                pairs@[m2].1,
            )));
            assert(jpairs_of(pairs@, 0)[m3 - 0] == (pairs@[m3].0@, crate::json::jval_of(
                pairs@[m3].1,
            )));
            assert(jpairs_of(pairs@, 0) =~= seq![
                ("status"@, JVal::Str("success"@)),
                ("request_id"@, JVal::Str(request_id@)),
                ("service"@, JVal::Str(service_name@)),
                ("endpoint"@, JVal::Str(endpoint@)),
            ]);
        }
        Ok(pairs)
    }

    /// The healthy instances currently known for `service_name`.
    pub fn get_services(&self, service_name: &String) -> (r: Vec<ServiceInfo>)
        ensures
            views_of(r@, 0) == candidates_of(self.discovery(), service_name@),
    {
        self.discovery.query(service_name)
    }

    /// Applies the client's load balancer to a candidate list.
    pub fn select_service<'a>(&mut self, services: &'a Vec<ServiceInfo>) -> (r: Option<
        &'a ServiceInfo,
    >)
        ensures
            final(self).discovery() == old(self).discovery(),
            final(self).pool() == old(self).pool(),
            final(self).wf() == old(self).wf(),
            match r {
                Some(s) => services@.len() > 0 && *s == services@[(old(self).balancer().counter()
                    % (services@.len() as nat)) as int],
                None => services@.len() == 0,
            },
    {
        self.load_balancer.select(services)
    }

    /// Adds an instance to the client's discovery table.
    pub fn register_service(&mut self, service: ServiceInfo)
        requires
            old(self).wf(),
        ensures
            final(self).wf(),
            final(self).pool() == old(self).pool(),
            final(self).discovery().instances_of(service@.name) == old(
                self,
            ).discovery().instances_of(service@.name) + seq![service],
            forall|k2: Seq<char>|
                k2 != service@.name ==> #[trigger] final(self).discovery().instances_of(k2) == old(
                    self,
                ).discovery().instances_of(k2),
    {
        self.discovery.register(service);
    }

    /// Removes every instance registered under `service_name`.
    pub fn unregister_service(&mut self, service_name: String)
        requires
            old(self).wf(),
        ensures
            final(self).wf(),
            final(self).pool() == old(self).pool(),
            final(self).discovery().instances_of(service_name@) == Seq::<ServiceInfo>::empty(),
            forall|k2: Seq<char>|
                k2 != service_name@ ==> #[trigger] final(self).discovery().instances_of(k2) == old(
                    self,
                ).discovery().instances_of(k2),
    {
        self.discovery.unregister(service_name);
    }

    /// Hands out a pooled transport slot for the instance's `host:port`
    /// address, with the pool's reuse-first, create-below-bound,
    /// backpressure-at-bound behaviour.
    pub fn get_transport_for_service(&mut self, service: &ServiceInfo) -> (r: Option<usize>)
        requires
            old(self).wf(),
        ensures
            final(self).wf(),
            final(self).discovery() == old(self).discovery(),
            final(self).balancer() == old(self).balancer(),
            final(self).pool().max_connections() == old(self).pool().max_connections(),
            ({
                let key = endpoint_chars(service@.host, service@.port);
                let l0 = list_of(old(self).pool().entries(), key);
                let l1 = list_of(final(self).pool().entries(), key);
                &&& forall|k2: Seq<char>|
                    k2 != key ==> #[trigger] list_of(final(self).pool().entries(), k2) == list_of(
                        old(self).pool().entries(),
                        k2,
                    )
                &&& match r {
                    Some(i) => if first_open(l0) < l0.len() {
                        i as int == first_open(l0) && l1 == l0 && l1[i as int].connected
                            && final(self).pool().entries() == old(self).pool().entries()
                    } else {
                        l0.len() < old(self).pool().max_connections() && i as int == l0.len()
                            && l1.len() == l0.len() + 1 && l1.take(l0.len() as int) == l0 && l1[
                            i as int].host@ == service@.host && l1[i as int].port == service@.port
                            && !l1[i as int].connected
                    },
                    None => first_open(l0) == l0.len() && l0.len() >= old(
                        self,
                    ).pool().max_connections() && l1 == l0,
                }
            }),
    {
        let ep = service.endpoint();
        self.connection_pool.get_transport_internal(&ep, service.host(), service.port())
    }

    /// The pool's endpoint count and total connection count.
    pub fn get_stats(&self) -> (r: (usize, usize))
        requires
            self.wf(),
            total_conns(self.pool().entries()) <= usize::MAX,
        ensures
            r.0 == self.pool().entries().len(),
            r.1 as int == total_conns(self.pool().entries()),
    {
        self.connection_pool.get_stats()
    }

    /// Drops closed pooled connections, reporting how many were removed.
    pub fn cleanup(&mut self) -> (r: usize)
        requires
            old(self).wf(),
            total_conns(old(self).pool().entries()) <= usize::MAX,
        ensures
            final(self).wf(),
            final(self).discovery() == old(self).discovery(),
            r as int == total_conns(old(self).pool().entries()) - total_conns(
                final(self).pool().entries(),
            ),
    {
        self.connection_pool.cleanup()
    }
}

} // verus!
