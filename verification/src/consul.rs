//! The remote coordination-service discovery backend. All decisions —
//! which URL to call, what JSON to send, how to read records back, and
//! when to fall back to the local cache — are verified here; performing
//! the HTTP calls is the hosting application's work, which hands the raw
//! outcomes back to the `*_apply` functions.

use vstd::prelude::*;
use crate::VSPError;
use crate::discovery::StaticDiscovery;
use crate::service::{ServiceInfo, ServiceInfoV, HealthStatus, dec_chars, endpoint_chars, push_dec_chars};
use crate::load_balancer::{views_of, lemma_views_of};
use crate::message::jlookup;
use crate::json::{JsonValue, JVal, jval_of, jvals_of, jpairs_of, ser_val, parse_doc, json_encode, json_parse, lemma_jpairs_of, lemma_jvals_of};

verus! {

/// The base URL of the coordination service.
pub open spec fn consul_url_chars(host: Seq<char>, port: u16) -> Seq<char> {
    "http://"@ + host + ":"@ + dec_chars(port as nat)
}

/// The identifier a registration is filed under: `name-host-port`.
pub open spec fn service_id_chars(s: ServiceInfoV) -> Seq<char> {
    s.name + "-"@ + s.host + "-"@ + dec_chars(s.port as nat)
}

/// The fraction part of a fixed-point weight's decimal form: empty for a
/// whole weight, else a dot and up to three digits with trailing zeros
/// dropped (meaningful for `f < 1000`).
pub open spec fn frac_chars(f: nat) -> Seq<char> {
    if f == 0 {
        Seq::empty()
    } else if f % 100 == 0 {
        seq!['.', crate::service::digit_char(f / 100)]
    } else if f % 10 == 0 {
        seq!['.', crate::service::digit_char(f / 100), crate::service::digit_char((f / 10) % 10)]
    } else {
        seq![
            '.',
            crate::service::digit_char(f / 100),
            crate::service::digit_char((f / 10) % 10),
            crate::service::digit_char(f % 10),
        ]
    }
}

/// The decimal form of a fixed-point weight in thousandths: 2500 is
/// `2.5`, 1000 is `1`, 1234 is `1.234`.
pub open spec fn weight_chars(w: u64) -> Seq<char> {
    dec_chars((w / 1000) as nat) + frac_chars((w % 1000) as nat)
}

/// The registration document: instance identity and address, the weight
/// as a decimal `weight=<f>` tag, and a TCP health check descriptor.
pub open spec fn register_doc(s: ServiceInfoV) -> JVal {
    JVal::Obj(
        seq![
            ("ID"@, JVal::Str(service_id_chars(s))),
            ("Name"@, JVal::Str(s.name)),
            ("Address"@, JVal::Str(s.host)),
            ("Port"@, JVal::Int(s.port as i64)),
            ("Tags"@, JVal::Arr(seq![JVal::Str("weight="@ + weight_chars(s.weight_millis))])),
            (
                "Check"@,
                JVal::Obj(
                    seq![
                        ("TCP"@, JVal::Str(endpoint_chars(s.host, s.port))),
                        ("Interval"@, JVal::Str("10s"@)),
                    ],
                ),
            ),
        ],
    )
}

/// Whether `c` is a decimal digit character.
pub open spec fn is_digit_char(c: char) -> bool {
    0x30 <= c as int <= 0x39
}

/// The end of the run of digit characters starting at `j`.
pub open spec fn c_digits_end(t: Seq<char>, j: int) -> int
    decreases t.len() - j,
{
    if 0 <= j < t.len() && is_digit_char(t[j]) {
        c_digits_end(t, j + 1)
    } else {
        j
    }
}

/// The numeric value of the digit characters `t[j..e)`.
pub open spec fn c_digits_val(t: Seq<char>, j: int, e: int) -> nat
    decreases e - j,
{
    if j < e {
        c_digits_val(t, j, e - 1) * 10 + (if is_digit_char(t[e - 1]) {
            (t[e - 1] as int - 0x30) as nat
        } else {
            0nat
        })
    } else {
        0nat
    }
}

/// The scale a fraction of `digits` digits carries, in thousandths.
pub open spec fn frac_scale(digits: int) -> nat {
    if digits == 1 {
        100nat
    } else if digits == 2 {
        10nat
    } else {
        1nat
    }
}

/// The weight carried by one tag, in thousandths: `weight=` followed by a
/// decimal number — whole digits, optionally a dot and one to three
/// fraction digits — filling the rest of the tag and fitting the counter
/// width. Any other form carries no weight.
pub open spec fn weight_tag_val(t: Seq<char>) -> Option<u64> {
    if t.len() > 7 && t[0] == 'w' && t[1] == 'e' && t[2] == 'i' && t[3] == 'g' && t[4] == 'h'
        && t[5] == 't' && t[6] == '=' {
        let e = c_digits_end(t, 7);
        if e == 7 {
            None
        } else if e == t.len() {
            if c_digits_val(t, 7, e) * 1000 <= u64::MAX {
                Some((c_digits_val(t, 7, e) * 1000) as u64)
            } else {
                None
            }
        } else if t[e] == '.' {
            let f = c_digits_end(t, e + 1);
            if f == t.len() && e + 1 < f <= e + 4 {
                if c_digits_val(t, 7, e) * 1000 + c_digits_val(t, e + 1, f) * frac_scale(
                    f - e - 1,
                ) <= u64::MAX {
                    Some(
                        (c_digits_val(t, 7, e) * 1000 + c_digits_val(t, e + 1, f) * frac_scale(
                            f - e - 1,
                        )) as u64,
                    )
                } else {
                    None
                }
            } else {
                None
            }
        } else {
            None
        }
    } else {
        None
    }
}

/// The weight the tag list of a record yields: the last well-formed
/// `weight=` tag wins; with none, the default weight of one (1000).
pub open spec fn scan_weight(ts: Seq<JVal>, cur: u64) -> u64
    decreases ts.len(),
{
    if ts.len() == 0 {
        cur
    } else {
        scan_weight(
            ts.drop_first(),
            match ts[0] {
                JVal::Str(t) => match weight_tag_val(t) {
                    Some(w) => w,
                    None => cur,
                },
                _ => cur,
            },
        )
    }
}

/// The weight of one catalog record.
pub open spec fn record_weight(o: Seq<(Seq<char>, JVal)>) -> u64 {
    match jlookup(o, "ServiceTags"@) {
        Some(JVal::Arr(ts)) => scan_weight(ts, 1000),
        _ => 1000,
    }
}

/// The instances a catalog response describes: each record that carries a
/// string `Address` and an in-range integer `ServicePort` becomes an
/// instance of `name` there, with its tag weight and unknown health;
/// other records are skipped. The check timestamp is the clock's, so it
/// is left out of the model here.
pub open spec fn consul_views(name: Seq<char>, rs: Seq<JVal>) -> Seq<ServiceInfoV>
    decreases rs.len(),
{
    if rs.len() == 0 {
        Seq::empty()
    } else {
        (match rs[0] {
            JVal::Obj(o) => match (jlookup(o, "Address"@), jlookup(o, "ServicePort"@)) {
                (Some(JVal::Str(a)), Some(JVal::Int(p))) => if 0 <= p < 65536 {
                    seq![
                        ServiceInfoV {
                            name: name,
                            host: a,
                            port: p as u16,
                            weight_millis: record_weight(o),
                            health_status: HealthStatus::Unknown,
                            last_health_check: 0,
                            tags: Seq::empty(),
                        },
                    ]
                } else {
                    Seq::empty()
                },
                _ => Seq::empty(),
            },
            _ => Seq::empty(),
        }) + consul_views(name, rs.drop_first())
    }
}

/// `s` with its check timestamp cleared, for timestamp-free comparison.
pub open spec fn sans_time(s: ServiceInfoV) -> ServiceInfoV {
    ServiceInfoV { last_health_check: 0, ..s }
}

pub open spec fn sans_time_all(s: Seq<ServiceInfoV>) -> Seq<ServiceInfoV>
    decreases s.len(),
{
    if s.len() == 0 {
        Seq::empty()
    } else {
        seq![sans_time(s[0])] + sans_time_all(s.drop_first())
    }
}

proof fn lemma_sans_time_all(s: Seq<ServiceInfoV>)
    ensures
        sans_time_all(s).len() == s.len(),
        forall|j: int| 0 <= j < s.len() ==> sans_time_all(s)[j] == sans_time(s[j]),
    decreases s.len(),
{
    if s.len() > 0 {
        lemma_sans_time_all(s.drop_first());
        assert forall|j: int| 0 <= j < s.len() implies sans_time_all(s)[j] == sans_time(s[j]) by {
            if j > 0 {
                assert(s.drop_first()[j - 1] == s[j]);
                assert(sans_time_all(s.drop_first())[j - 1] == sans_time(s.drop_first()[j - 1]));
            }
        }
    }
}

proof fn lemma_consul_views_concat(name: Seq<char>, a: Seq<JVal>, b: Seq<JVal>)
    ensures
        consul_views(name, a + b) == consul_views(name, a) + consul_views(name, b),
    decreases a.len(),
{
    if a.len() == 0 {
        assert(a + b =~= b);
        assert(consul_views(name, a) + consul_views(name, b) =~= consul_views(name, b));
    } else {
        assert((a + b).drop_first() =~= a.drop_first() + b);
        lemma_consul_views_concat(name, a.drop_first(), b);
        assert((a + b)[0] == a[0]);
        assert(consul_views(name, a + b) =~= consul_views(name, a) + consul_views(name, b));
    }
}

/// The discovery backend that mirrors its registrations to a remote
/// coordination service and reads the service catalog from it, keeping a
/// local cache as the fallback source of truth.
pub struct ConsulDiscovery {
    consul_host: String,
    consul_port: u16,
    cache: StaticDiscovery,
}

impl ConsulDiscovery {
    pub closed spec fn host(&self) -> Seq<char> {
        self.consul_host@
    }

    pub closed spec fn port(&self) -> u16 {
        self.consul_port
    }

    pub closed spec fn cache(&self) -> StaticDiscovery {
        self.cache
    }

    pub open spec fn wf(&self) -> bool {
        self.cache().wf()
    }

    pub fn new(consul_host: Option<String>, consul_port: Option<u16>) -> (r: ConsulDiscovery)
        ensures
            r.host() == match consul_host {
                Some(h) => h@,
                None => "localhost"@,
            },
            r.port() == match consul_port {
                Some(p) => p,
                None => 8500u16,
            },
            r.cache().entries() == Seq::<(String, Vec<ServiceInfo>)>::empty(),
            r.wf(),
    {
        ConsulDiscovery {
            consul_host: match consul_host {
                Some(h) => h,
                None => String::from_str("localhost"),
            },
            consul_port: match consul_port {
                Some(p) => p,
                None => 8500,
            },
            cache: StaticDiscovery::new(),
        }
    }

    /// The coordination service's base URL.
    pub fn get_consul_url(&self) -> (r: String)
        ensures
            r@ == consul_url_chars(self.host(), self.port()),
    {
        let mut s = String::from_str("http://");
        s.append(self.consul_host.as_str());
        s.append(":");
        push_dec_chars(&mut s, self.consul_port as u64);
        proof {
            reveal_strlit(":");
            assert(s@ =~= consul_url_chars(self.host(), self.port()));
        }
        s
    }

    /// The URL and JSON body of the remote upsert for `service`.
    #[verifier::rlimit(60)]
    pub fn register_request(&self, service: &ServiceInfo) -> (r: (String, Vec<u8>))
        ensures
            r.0@ == consul_url_chars(self.host(), self.port()) + "/v1/agent/service/register"@,
            r.1@ == ser_val(register_doc(service@)),
    {
        let mut url = self.get_consul_url();
        url.append("/v1/agent/service/register");
        let mut sid = service.name().clone();
        sid.append("-");
        sid.append(service.host().as_str());
        sid.append("-");
        push_dec_chars(&mut sid, service.port() as u64);
        proof {
            reveal_strlit("-");
            assert(sid@ =~= service_id_chars(service@));
        }
        let mut wtag = String::from_str("weight=");
        let wm = service.weight_millis();
        push_dec_chars(&mut wtag, wm / 1000);
        let fr = wm % 1000;
        if fr != 0 {
            wtag.append(".");
            wtag.append(crate::service::digit_str(fr / 100));
            if fr % 100 != 0 {
                wtag.append(crate::service::digit_str((fr / 10) % 10));
                if fr % 10 != 0 {
                    wtag.append(crate::service::digit_str(fr % 10));
                }
            }
        }
        proof {
            reveal_strlit(".");
            assert(wtag@ =~= "weight="@ + weight_chars(wm));
        }
        let mut tags: Vec<JsonValue> = Vec::new();
        tags.push(JsonValue::Str(wtag));
        let mut check: Vec<(String, JsonValue)> = Vec::new();
        check.push((String::from_str("TCP"), JsonValue::Str(service.endpoint())));
        check.push((String::from_str("Interval"), JsonValue::Str(String::from_str("10s"))));
        let mut doc: Vec<(String, JsonValue)> = Vec::new();
        doc.push((String::from_str("ID"), JsonValue::Str(sid)));
        doc.push((String::from_str("Name"), JsonValue::Str(service.name().clone())));
        doc.push((String::from_str("Address"), JsonValue::Str(service.host().clone())));
        doc.push((String::from_str("Port"), JsonValue::Int(service.port() as i64)));
        doc.push((String::from_str("Tags"), JsonValue::Arr(tags)));
        doc.push((String::from_str("Check"), JsonValue::Obj(check)));
        let body = JsonValue::Obj(doc);
        proof {
            lemma_jpairs_of(doc@, 0);
            lemma_jpairs_of(check@, 0);
            lemma_jvals_of(tags@, 0);
            let m0: int = 0;
            let m1: int = 1;
            assert(jpairs_of(check@, 0)[m0 - 0] == (check@[m0].0@, jval_of(check@[m0].1)));
            assert(jpairs_of(check@, 0)[m1 - 0] == (check@[m1].0@, jval_of(check@[m1].1)));
            assert(jvals_of(tags@, 0)[m0 - 0] == jval_of(tags@[m0]));
            assert(jvals_of(tags@, 0) =~= seq![
                JVal::Str("weight="@ + weight_chars(service@.weight_millis)),
            ]);
            assert(jpairs_of(check@, 0) =~= register_doc(service@)->Obj_0[5].1->Obj_0);
            let m2: int = 2;
            let m3: int = 3;
            let m4: int = 4;
            let m5: int = 5;
            assert(jpairs_of(doc@, 0)[m0 - 0] == (doc@[m0].0@, jval_of(doc@[m0].1)));
            assert(jpairs_of(doc@, 0)[m1 - 0] == (doc@[m1].0@, jval_of(doc@[m1].1)));
            assert(jpairs_of(doc@, 0)[m2 - 0] == (doc@[m2].0@, jval_of(doc@[m2].1)));
            assert(jpairs_of(doc@, 0)[m3 - 0] == (doc@[m3].0@, jval_of(doc@[m3].1)));
            assert(jpairs_of(doc@, 0)[m4 - 0] == (doc@[m4].0@, jval_of(doc@[m4].1)));
            assert(jpairs_of(doc@, 0)[m5 - 0] == (doc@[m5].0@, jval_of(doc@[m5].1)));
            assert(jpairs_of(doc@, 0) =~= register_doc(service@)->Obj_0);
            assert(body@ == register_doc(service@));
        }
        let bytes = json_encode(&body);
        (url, bytes)
    }

    /// Folds the outcome of the remote upsert in: on success the instance
    /// also enters the local cache; on failure nothing is cached and the
    /// remote outage is the caller's error.
    pub fn register_apply(&mut self, service: ServiceInfo, success: bool) -> (r: Result<
        (),
        VSPError,
    >)
        requires
            old(self).wf(),
        ensures
            final(self).wf(),
            final(self).host() == old(self).host(),
            final(self).port() == old(self).port(),
            match r {
                Ok(()) => success && final(self).cache().instances_of(service@.name) == old(
                    self,
                ).cache().instances_of(service@.name) + seq![service] && (forall|k2: Seq<char>|
                    k2 != service@.name ==> #[trigger] final(self).cache().instances_of(k2) == old(
                        self,
                    ).cache().instances_of(k2)),
                Err(e) => !success && e == VSPError::RemoteUnavailable && final(self).cache()
                    == old(self).cache(),
            },
    {
        if success {
            self.cache.register(service);
            Ok(())
        } else {
            Err(VSPError::RemoteUnavailable)
        }
    }

    /// The URL of the catalog read for `name`.
    pub fn query_url(&self, name: &String) -> (r: String)
        ensures
            r@ == consul_url_chars(self.host(), self.port()) + "/v1/catalog/service/"@ + name@,
    {
        let mut url = self.get_consul_url();
        url.append("/v1/catalog/service/");
        url.append(name.as_str());
        url
    }

    /// Reads a catalog response back as instances of `name`. A missing
    /// response (the remote was unreachable) or an unreadable one falls
    /// back to the local cache — the failure is the caller's side channel,
    /// never an error here.
    #[verifier::loop_isolation(false)]
    pub fn query_apply(&self, name: &String, response: Option<&Vec<u8>>) -> (r: Vec<ServiceInfo>)
        ensures
            ({
                let fallback = views_of(self.cache().instances_of(name@), 0);
                match response {
                    Some(b) => match parse_doc(b@) {
                        Some(v) => if v is Arr {
                            sans_time_all(views_of(r@, 0)) == consul_views(name@, v->Arr_0)
                        } else {
                            views_of(r@, 0) == fallback
                        },
                        None => views_of(r@, 0) == fallback,
                    },
                    None => views_of(r@, 0) == fallback,
                }
            }),
    {
        let bytes = match response {
            Some(b) => b,
            None => {
                return self.cache.query_all(name);
            },
        };
        let parsed = match json_parse(bytes) {
            Some(v) => v,
            None => {
                return self.cache.query_all(name);
            },
        };
        let records = match parsed {
            JsonValue::Arr(rs) => rs,
            _ => {
                return self.cache.query_all(name);
            },
        };
        let ghost rsv = jvals_of(records@, 0);
        proof {
            lemma_jvals_of(records@, 0);
        }
        let mut out: Vec<ServiceInfo> = Vec::new();
        let mut i: usize = 0;
        proof {
            assert(rsv.take(0) =~= Seq::<JVal>::empty());
            lemma_views_of(out@, 0);
            assert(sans_time_all(views_of(out@, 0)) =~= Seq::<ServiceInfoV>::empty());
        }
        while i < records.len()
            invariant
                i <= records@.len(),
                rsv.len() == records@.len(),
                sans_time_all(views_of(out@, 0)) == consul_views(name@, rsv.take(i as int)),
            decreases records@.len() - i,
        {
            proof {
                assert(rsv.take(i + 1) =~= rsv.take(i as int) + seq![rsv[i as int]]);
                lemma_consul_views_concat(name@, rsv.take(i as int), seq![rsv[i as int]]);
                assert(seq![rsv[i as int]].drop_first() =~= Seq::<JVal>::empty());
                assert(consul_views(name@, Seq::<JVal>::empty()) =~= Seq::<ServiceInfoV>::empty());
                assert(rsv[i as int] == jval_of(records@[i as int]));
            }
            let ghost out0 = out@;
            match &records[i] {
                JsonValue::Obj(o) => {
                    let akey = String::from_str("Address");
                    let pkey = String::from_str("ServicePort");
                    let addr = match crate::message::obj_get(o, &akey) {
                        Some(JsonValue::Str(a)) => Some(a.clone()),
                        _ => None,
                    };
                    let port_val = match crate::message::obj_get(o, &pkey) {
                        Some(JsonValue::Int(p)) => if 0 <= *p && *p < 65536 {
                            Some(*p as u16)
                        } else {
                            None
                        },
                        Some(_) => None,
                        None => None,
                    };
                    match (addr, port_val) {
                        (Some(a), Some(p)) => {
                            let w = record_weight_exec(o);
                            let svc = ServiceInfo::new(name.clone(), a, p, Some(w));
                            out.push(svc);
                            proof {
                                lemma_views_snoc2(out@, out0);
                                lemma_sans_time_all(views_of(out0, 0));
                                lemma_sans_time_all(views_of(out@, 0));
                                assert(sans_time_all(views_of(out@, 0)) =~= consul_views(
                                    name@,
                                    rsv.take(i + 1),
                                ));
                            }
                        },
                        _ => {
                            proof {
                                assert(consul_views(name@, seq![rsv[i as int]]) =~= Seq::<
                                    ServiceInfoV,
                                >::empty());
                                assert(sans_time_all(views_of(out@, 0)) =~= consul_views(
                                    name@,
                                    rsv.take(i + 1),
                                ));
                            }
                        },
                    }
                },
                _ => {
                    proof {
                        assert(consul_views(name@, seq![rsv[i as int]]) =~= Seq::<
                            ServiceInfoV,
                        >::empty());
                        assert(sans_time_all(views_of(out@, 0)) =~= consul_views(
                            name@,
                            rsv.take(i + 1),
                        ));
                    }
                },
            }
            i = i + 1;
        }
        proof {
            assert(rsv.take(rsv.len() as int) =~= rsv);
        }
        out
    }

    /// The per-instance deregister URLs for every cached instance of
    /// `name`, in cache order; failures of the individual remote calls
    /// are ignored by design.
    #[verifier::loop_isolation(false)]
    pub fn unregister_requests(&self, name: &String) -> (r: Vec<String>)
        ensures
            r@.len() == self.cache().instances_of(name@).len(),
            forall|j: int|
                0 <= j < r@.len() ==> (#[trigger] r@[j])@ == consul_url_chars(
                    self.host(),
                    self.port(),
                ) + "/v1/agent/service/deregister/"@ + service_id_chars(
                    self.cache().instances_of(name@)[j]@,
                ),
    {
        let cached = self.cache.query_all(name);
        let ghost l0 = self.cache().instances_of(name@);
        proof {
            lemma_views_of(cached@, 0);
            lemma_views_of(l0, 0);
        }
        let mut out: Vec<String> = Vec::new();
        let mut i: usize = 0;
        while i < cached.len()
            invariant
                i <= cached@.len(),
                out@.len() == i,
                cached@.len() == l0.len(),
                forall|j: int| 0 <= j < cached@.len() ==> (#[trigger] cached@[j])@ == l0[j]@,
                forall|j: int|
                    0 <= j < i ==> (#[trigger] out@[j])@ == consul_url_chars(
                        self.host(),
                        self.port(),
                    ) + "/v1/agent/service/deregister/"@ + service_id_chars(l0[j]@),
            decreases cached@.len() - i,
        {
            let mut url = self.get_consul_url();
            url.append("/v1/agent/service/deregister/");
            let s = &cached[i];
            let mut sid = s.name().clone();
            sid.append("-");
            sid.append(s.host().as_str());
            sid.append("-");
            push_dec_chars(&mut sid, s.port() as u64);
            proof {
                reveal_strlit("-");
                assert(sid@ =~= service_id_chars(cached@[i as int]@));
            }
            url.append(sid.as_str());
            out.push(url);
            i = i + 1;
        }
        out
    }

    /// Clears the local cache for `name` once the remote deregisters have
    /// been attempted.
    pub fn unregister_apply(&mut self, name: String)
        requires
            old(self).wf(),
        ensures
            final(self).wf(),
            final(self).host() == old(self).host(),
            final(self).port() == old(self).port(),
            final(self).cache().instances_of(name@) == Seq::<ServiceInfo>::empty(),
            forall|k2: Seq<char>|
                k2 != name@ ==> #[trigger] final(self).cache().instances_of(k2) == old(
                    self,
                ).cache().instances_of(k2),
    {
        self.cache.unregister(name);
    }

    /// The URL of the remote liveness probe.
    pub fn health_url(&self) -> (r: String)
        ensures
            r@ == consul_url_chars(self.host(), self.port()) + "/v1/status/leader"@,
    {
        let mut url = self.get_consul_url();
        url.append("/v1/status/leader");
        url
    }

    /// Reads a liveness probe's outcome: reachable exactly when the probe
    /// completed with a success status; any error means unreachable, never
    /// a raised failure.
    pub fn health_from_response(&self, response: Option<bool>) -> (r: bool)
        ensures
            r == (response == Some(true)),
    {
        match response {
            Some(ok) => ok,
            None => false,
        }
    }
}

/// The weight of one record's tag list, per [`record_weight`].
#[verifier::loop_isolation(false)]
fn record_weight_exec(o: &Vec<(String, JsonValue)>) -> (r: u64)
    ensures
        r == record_weight(jpairs_of(o@, 0)),
{
    let tkey = String::from_str("ServiceTags");
    let tags = match crate::message::obj_get(o, &tkey) {
        Some(JsonValue::Arr(ts)) => ts,
        Some(_) => {
            return 1000;
        },
        None => {
            return 1000;
        },
    };
    let ghost tsv = jvals_of(tags@, 0);
    proof {
        lemma_jvals_of(tags@, 0);
    }
    let mut cur: u64 = 1000;
    let mut i: usize = 0;
    proof {
        assert(tsv.skip(0) =~= tsv);
    }
    while i < tags.len()
        invariant
            i <= tags@.len(),
            tsv.len() == tags@.len(),
            scan_weight(tsv, 1000) == scan_weight(tsv.skip(i as int), cur),
        decreases tags@.len() - i,
    {
        proof {
            assert(tsv.skip(i as int)[0] == tsv[i as int]);
            assert(tsv.skip(i as int).drop_first() =~= tsv.skip(i + 1));
            assert(tsv[i as int] == jval_of(tags@[i as int]));
        }
        match &tags[i] {
            JsonValue::Str(t) => {
                match tag_weight_exec(t) {
                    Some(w) => {
                        cur = w;
                    },
                    None => {},
                }
            },
            _ => {},
        }
        i = i + 1;
    }
    proof {
        assert(tsv.skip(tsv.len() as int) =~= Seq::<JVal>::empty());
    }
    cur
}

/// The weight in one tag string, per [`weight_tag_val`].
fn tag_weight_exec(t: &String) -> (r: Option<u64>)
    ensures
        r == weight_tag_val(t@),
{
    let s = t.as_str();
    let n = s.unicode_len();
    if n <= 7 {
        return None;
    }
    let ok = s.get_char(0) == 'w' && s.get_char(1) == 'e' && s.get_char(2) == 'i' && s.get_char(3)
        == 'g' && s.get_char(4) == 'h' && s.get_char(5) == 't' && s.get_char(6) == '=';
    if !ok {
        return None;
    }
    let mut j: usize = 7;
    let mut val: u128 = 0;
    loop
        invariant
            7 <= j <= n,
            n == t@.len(),
            s@ == t@,
            c_digits_end(t@, 7) == c_digits_end(t@, j as int),
            c_digits_val(t@, 7, j as int) <= 0x1_0000_0000_0000_0000 ==> val == c_digits_val(
                t@,
                7,
                j as int,
            ),
            c_digits_val(t@, 7, j as int) > 0x1_0000_0000_0000_0000 ==> val
                > 0x1_0000_0000_0000_0000,
            val <= 0xa_0000_0000_0000_0009,
        ensures
            j == n || !is_digit_char(t@[j as int]),
        decreases n - j,
    {
        if j >= n {
            break;
        }
        let c = s.get_char(j);
        if !('0' <= c && c <= '9') {
            break;
        }
        let d = (c as u32 - 0x30) as u8;
        let ghost dv = c_digits_val(t@, 7, j as int);
        proof {
            assert(is_digit_char(t@[j as int]));
            assert(c_digits_val(t@, 7, j + 1) == dv * 10 + d);
            if dv > 0x1_0000_0000_0000_0000 {
                assert(dv * 10 + d > 0x1_0000_0000_0000_0000) by (nonlinear_arith)
                    requires
                        dv > 0x1_0000_0000_0000_0000,
                        d >= 0,
                ;
            }
        }
        if val <= 0x1_0000_0000_0000_0000 {
            val = val * 10 + d as u128;
        }
        j = j + 1;
    }
    let ghost e = j as int;
    proof {
        if j < n {
            assert(!is_digit_char(t@[j as int]));
        }
        assert(c_digits_end(t@, e) == e);
        assert(c_digits_end(t@, 7) == e);
    }
    if j == 7 {
        return None;
    }
    let ghost iv = c_digits_val(t@, 7, e);
    if j == n {
        let total = val * 1000;
        if total > 0xffff_ffff_ffff_ffff {
            proof {
                if iv <= 0x1_0000_0000_0000_0000 {
                    assert(iv == val);
                } else {
                    assert(iv * 1000 > u64::MAX) by (nonlinear_arith)
                        requires
                            iv > 0x1_0000_0000_0000_0000,
                    ;
                }
            }
            return None;
        }
        proof {
            assert(val <= 0xffff_ffff_ffff_ffff);
            if iv > 0x1_0000_0000_0000_0000 {
                assert(val > 0x1_0000_0000_0000_0000);
                assert(false);
            }
            assert(iv == val);
        }
        return Some(total as u64);
    }
    let dot = s.get_char(j);
    if dot != '.' {
        return None;
    }
    let cnt = n - (j + 1);
    proof {
        lemma_c_digits_end_bounds(t@, e + 1);
    }
    if cnt < 1 || cnt > 3 {
        proof {
            if cnt < 1 {
                assert(c_digits_end(t@, e + 1) == e + 1);
            }
        }
        return None;
    }
    let mut k: usize = j + 1;
    let mut fv: u64 = 0;
    while k < n
        invariant
            j + 1 <= k <= n,
            7 < j < n,
            j + 1 < n,
            cnt == n - (j + 1),
            1 <= cnt <= 3,
            n == t@.len(),
            s@ == t@,
            e == j as int,
            t@[0] == 'w' && t@[1] == 'e' && t@[2] == 'i' && t@[3] == 'g' && t@[4] == 'h' && t@[5]
                == 't' && t@[6] == '=',
            t@[e] == '.',
            c_digits_end(t@, 7) == e,
            iv == c_digits_val(t@, 7, e),
            iv <= 0x1_0000_0000_0000_0000 ==> val == iv,
            iv > 0x1_0000_0000_0000_0000 ==> val > 0x1_0000_0000_0000_0000,
            val <= 0xa_0000_0000_0000_0009,
            c_digits_end(t@, e + 1) == c_digits_end(t@, k as int),
            fv == c_digits_val(t@, e + 1, k as int),
            fv <= 999,
            k < n ==> fv <= 99,
            k + 1 < n ==> fv <= 9,
            k + 2 < n ==> fv == 0,
        decreases n - k,
    {
        let c2 = s.get_char(k);
        if !('0' <= c2 && c2 <= '9') {
            proof {
                assert(!is_digit_char(t@[k as int]));
                assert(c_digits_end(t@, k as int) == k);
            }
            return None;
        }
        let d2 = (c2 as u32 - 0x30) as u8;
        proof {
            assert(is_digit_char(t@[k as int]));
            assert(c_digits_val(t@, e + 1, k + 1) == fv * 10 + d2);
        }
        fv = fv * 10 + d2 as u64;
        k = k + 1;
    }
    proof {
        assert(c_digits_end(t@, k as int) == k);
        assert(c_digits_end(t@, e + 1) == n);
    }
    let fscaled: u64 = if cnt == 1 {
        fv * 100
    } else if cnt == 2 {
        fv * 10
    } else {
        fv
    };
    proof {
        assert(c_digits_val(t@, e + 1, n as int) == fv);
        assert(n as int - e - 1 == cnt);
        if cnt == 1 {
            assert(frac_scale(n as int - e - 1) == 100);
            assert(fscaled == fv * 100);
        } else if cnt == 2 {
            assert(frac_scale(n as int - e - 1) == 10);
            assert(fscaled == fv * 10);
        } else {
            assert(cnt == 3);
            assert(frac_scale(n as int - e - 1) == 1);
            assert(fscaled == fv);
        }
        assert(fscaled as nat == c_digits_val(t@, e + 1, n as int) * frac_scale(n as int - e - 1));
    }
    let total = val * 1000 + fscaled as u128;
    if total > 0xffff_ffff_ffff_ffff {
        proof {
            if iv <= 0x1_0000_0000_0000_0000 {
                assert(iv == val);
            } else {
                assert(iv * 1000 > u64::MAX) by (nonlinear_arith)
                    requires
                        iv > 0x1_0000_0000_0000_0000,
                ;
            }
        }
        return None;
    }
    proof {
        assert(val * 1000 <= total);
        if iv > 0x1_0000_0000_0000_0000 {
            assert(val > 0x1_0000_0000_0000_0000);
            assert(val * 1000 > 0xffff_ffff_ffff_ffff) by (nonlinear_arith)
                requires
                    val > 0x1_0000_0000_0000_0000,
            ;
            assert(false);
        }
        assert(iv == val);
    }
    Some(total as u64)
}

proof fn lemma_c_digits_end_bounds(t: Seq<char>, j: int)
    requires
        0 <= j <= t.len(),
    ensures
        j <= c_digits_end(t, j) <= t.len(),
    decreases t.len() - j,
{
    if 0 <= j < t.len() && is_digit_char(t[j]) {
        lemma_c_digits_end_bounds(t, j + 1);
    }
}

proof fn lemma_views_snoc2(t: Seq<ServiceInfo>, prev: Seq<ServiceInfo>)
    requires
        t.len() == prev.len() + 1,
        forall|j: int| 0 <= j < prev.len() ==> t[j] == prev[j],
    ensures
        views_of(t, 0) == views_of(prev, 0) + seq![t[t.len() - 1]@],
{
    lemma_views_of(t, 0);
    lemma_views_of(prev, 0);
    assert(views_of(t, 0) =~= views_of(prev, 0) + seq![t[t.len() - 1]@]) by {
        assert forall|j: int| 0 <= j < t.len() implies views_of(t, 0)[j] == (views_of(prev, 0)
            + seq![t[t.len() - 1]@])[j] by {
            assert(views_of(t, 0)[j - 0] == t[j]@);
            if j < prev.len() {
                assert(views_of(prev, 0)[j - 0] == prev[j]@);
            }
        }
    }
}

} // verus!
