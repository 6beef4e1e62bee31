use vsp::client::VSPClient;
use vsp::consul::ConsulDiscovery;
use vsp::discovery::{MDNSDiscovery, StaticDiscovery};
use vsp::json::JsonValue;
use vsp::manager::{VSPManager, WorkerType};
use vsp::service::{HealthStatus, ServiceInfo};
use vsp::VSPError;

fn s(v: &str) -> String {
    v.to_string()
}

fn healthy(name: &str, host: &str, port: u16, weight_millis: u64) -> ServiceInfo {
    let mut i = ServiceInfo::new(s(name), s(host), port, Some(weight_millis));
    i.mark_healthy();
    i
}

#[test]
fn service_info_health_and_endpoint() {
    let mut i = ServiceInfo::new(s("echo"), s("10.0.0.1"), 8080, None);
    assert_eq!(i.weight_millis(), 1000, "the default weight is one");
    assert_eq!(i.health_status(), HealthStatus::Unknown);
    assert!(!i.is_healthy());
    i.mark_healthy();
    assert!(i.is_healthy());
    i.mark_unhealthy();
    assert_eq!(i.health_status(), HealthStatus::Unhealthy);
    assert_eq!(i.endpoint(), "10.0.0.1:8080");
    let copy = i.with_health_status(HealthStatus::Healthy);
    assert!(copy.is_healthy());
    assert_eq!(i.health_status(), HealthStatus::Unhealthy, "the original is untouched");
}

#[test]
fn service_info_tags() {
    let mut i = ServiceInfo::new(s("svc"), s("h"), 1, None);
    assert!(i.get_tag(&s("zone")).is_none());
    i.add_tag(s("zone"), s("eu"));
    i.add_tag(s("tier"), s("gold"));
    assert_eq!(i.get_tag(&s("zone")).unwrap(), "eu");
    i.add_tag(s("zone"), s("us"));
    assert_eq!(i.get_tag(&s("zone")).unwrap(), "us", "setting a tag replaces it");
    assert_eq!(i.remove_tag(&s("zone")).unwrap(), "us");
    assert!(i.get_tag(&s("zone")).is_none());
    assert!(i.remove_tag(&s("zone")).is_none());
    i.set_tags(vec![(s("a"), s("1"))]);
    assert_eq!(i.get_tags().len(), 1);
    assert_eq!(i.get_tag(&s("a")).unwrap(), "1");
    assert!(i.get_tag(&s("tier")).is_none(), "set_tags replaces everything");
}

#[test]
fn static_discovery_filters_health_and_tolerates_unknown_names() {
    let mut d = StaticDiscovery::new();
    d.register(healthy("echo", "127.0.0.1", 9001, 1000));
    d.register(ServiceInfo::new(s("echo"), s("127.0.0.1"), 9002, None));
    let found = d.query(&s("echo"));
    assert_eq!(found.len(), 1, "only healthy instances are returned");
    assert_eq!(found[0].port(), 9001);
    assert_eq!(d.get_service_count(&s("echo")), 2);

    let missing = d.query(&s("never-registered"));
    assert_eq!(missing.len(), 0, "an unknown name is an empty result, not an error");

    d.register(healthy("other", "h", 1, 1000));
    assert_eq!(d.list_all_services().len(), 3);
    d.unregister(s("echo"));
    assert_eq!(d.get_service_count(&s("echo")), 0);
    assert_eq!(d.get_service_count(&s("other")), 1);
    d.clear();
    assert_eq!(d.list_all_services().len(), 0);
}

#[test]
fn mdns_discovery_returns_cache_unfiltered() {
    let mut d = MDNSDiscovery::new();
    assert_eq!(d.get_service_type(), "_vsp._tcp.local.");
    d.set_service_type(s("_custom._tcp.local."));
    assert_eq!(d.get_service_type(), "_custom._tcp.local.");
    d.register(ServiceInfo::new(s("svc"), s("h"), 5, None));
    let found = d.query(&s("svc"));
    assert_eq!(found.len(), 1, "the local cache is authoritative, health-unfiltered");
    assert_eq!(d.list_local_services().len(), 1);
    d.unregister(s("svc"));
    assert_eq!(d.query(&s("svc")).len(), 0);
}

#[test]
fn consul_urls_and_register_request() {
    let c = ConsulDiscovery::new(None, None);
    assert_eq!(c.get_consul_url(), "http://localhost:8500");
    assert_eq!(c.health_url(), "http://localhost:8500/v1/status/leader");
    assert_eq!(
        c.query_url(&s("echo")),
        "http://localhost:8500/v1/catalog/service/echo"
    );

    let svc = healthy("echo", "10.0.0.9", 9001, 2500);
    let (url, body) = c.register_request(&svc);
    assert_eq!(url, "http://localhost:8500/v1/agent/service/register");
    let doc: serde_json::Value = serde_json::from_slice(&body).expect("registration body is JSON");
    assert_eq!(doc["ID"], serde_json::Value::from("echo-10.0.0.9-9001"));
    assert_eq!(doc["Name"], serde_json::Value::from("echo"));
    assert_eq!(doc["Address"], serde_json::Value::from("10.0.0.9"));
    assert_eq!(doc["Port"], serde_json::Value::from(9001));
    assert_eq!(doc["Tags"][0], serde_json::Value::from("weight=2.5"));
    assert_eq!(doc["Check"]["TCP"], serde_json::Value::from("10.0.0.9:9001"));
    assert_eq!(doc["Check"]["Interval"], serde_json::Value::from("10s"));
}

#[test]
fn consul_register_apply_and_unregister() {
    let mut c = ConsulDiscovery::new(Some(s("consul.local")), Some(8501));
    let svc = healthy("echo", "10.0.0.9", 9001, 1000);
    assert_eq!(
        c.register_apply(svc, false).unwrap_err(),
        VSPError::RemoteUnavailable,
        "a failed remote upsert caches nothing"
    );
    let svc2 = healthy("echo", "10.0.0.9", 9001, 1000);
    c.register_apply(svc2, true).unwrap();
    let urls = c.unregister_requests(&s("echo"));
    assert_eq!(urls.len(), 1);
    assert_eq!(
        urls[0],
        "http://consul.local:8501/v1/agent/service/deregister/echo-10.0.0.9-9001"
    );
    c.unregister_apply(s("echo"));
    assert_eq!(c.unregister_requests(&s("echo")).len(), 0);
}

#[test]
fn consul_query_apply_translates_catalog_records() {
    let c = ConsulDiscovery::new(None, None);
    let response = br#"[{"Address":"10.1.1.1","ServicePort":9001,"ServiceTags":["weight=3"]},{"Address":"10.1.1.2","ServicePort":9002},{"ServicePort":1},{"Address":"10.1.1.3","ServicePort":70000}]"#
        .to_vec();
    let services = c.query_apply(&s("echo"), Some(&response));
    assert_eq!(services.len(), 2, "records without address or with an out-of-range port are skipped");
    assert_eq!(services[0].host(), "10.1.1.1");
    assert_eq!(services[0].port(), 9001);
    assert_eq!(services[0].weight_millis(), 3000, "a whole weight of 3 is three thousandths-units");
    assert_eq!(services[0].name(), "echo");
    assert_eq!(services[1].weight_millis(), 1000, "without a weight tag the default holds");
}

#[test]
fn consul_weight_tags_are_decimal() {
    let c = ConsulDiscovery::new(None, None);
    for (tag, expected) in [
        ("weight=2.5", 2500u64),
        ("weight=0.25", 250),
        ("weight=1.234", 1234),
        ("weight=12", 12000),
        ("weight=0.075", 75),
        ("weight=1.2345", 1000), // more than three fraction digits carries no weight
        ("weight=.", 1000),
        ("weight=.5", 1000),     // a missing whole part carries no weight
        ("weight=2.", 1000),     // a missing fraction after the dot carries no weight
        ("weight=abc", 1000),
        ("weight=", 1000),
    ] {
        let response = format!(
            "[{{\"Address\":\"h\",\"ServicePort\":1,\"ServiceTags\":[\"{tag}\"]}}]"
        )
        .into_bytes();
        let services = c.query_apply(&s("svc"), Some(&response));
        assert_eq!(services.len(), 1);
        assert_eq!(services[0].weight_millis(), expected, "tag {tag}");
    }
}

#[test]
fn consul_register_weight_round_trips_through_its_own_tag() {
    let c = ConsulDiscovery::new(None, None);
    for w in [1000u64, 2500, 250, 1234, 75, 12000] {
        let svc = healthy("echo", "h", 1, w);
        let (_, body) = c.register_request(&svc);
        let doc: serde_json::Value = serde_json::from_slice(&body).unwrap();
        let tag = doc["Tags"][0].as_str().unwrap().to_string();
        let response = format!(
            "[{{\"Address\":\"h\",\"ServicePort\":1,\"ServiceTags\":[\"{tag}\"]}}]"
        )
        .into_bytes();
        let back = c.query_apply(&s("echo"), Some(&response));
        assert_eq!(back[0].weight_millis(), w, "weight {w} survives its own tag {tag}");
    }
}

#[test]
fn consul_query_apply_falls_back_to_cache() {
    let mut c = ConsulDiscovery::new(None, None);
    c.register_apply(healthy("echo", "10.0.0.9", 9001, 1000), true).unwrap();
    let from_outage = c.query_apply(&s("echo"), None);
    assert_eq!(from_outage.len(), 1, "an unreachable remote falls back to the cache");
    assert_eq!(from_outage[0].port(), 9001);
    let garbage = b"{not json".to_vec();
    let from_garbage = c.query_apply(&s("echo"), Some(&garbage));
    assert_eq!(from_garbage.len(), 1, "an unreadable response falls back to the cache");
    let not_array = b"{\"a\":1}".to_vec();
    assert_eq!(c.query_apply(&s("echo"), Some(&not_array)).len(), 1);
    assert!(c.health_from_response(Some(true)));
    assert!(!c.health_from_response(Some(false)));
    assert!(!c.health_from_response(None));
}

#[test]
fn client_call_succeeds_against_registered_service() {
    let mut client = VSPClient::new(None, None, None, None);
    client.register_service(healthy("echo", "127.0.0.1", 9001, 1000));
    let pairs = client
        .call_sync(&s("echo"), &s("/ping"), vec![(s("x"), JsonValue::Int(1))])
        .expect("a healthy instance makes the call go through");
    assert_eq!(pairs.len(), 4);
    assert_eq!(pairs[0].0, "status");
    match &pairs[0].1 {
        JsonValue::Str(v) => assert_eq!(v, "success"),
        _ => panic!("status must be a string"),
    }
    match &pairs[1].1 {
        JsonValue::Str(rid) => assert_eq!(rid.len(), 36),
        _ => panic!("request_id must be a string"),
    }
    let (endpoints, conns) = client.get_stats();
    assert_eq!(endpoints, 1);
    assert_eq!(conns, 1);
}

#[test]
fn client_call_unknown_service_is_not_found() {
    let mut client = VSPClient::new(None, None, None, None);
    match client.call_sync(&s("ghost"), &s("/x"), vec![]) {
        Err(e) => assert_eq!(e, VSPError::NotFound),
        Ok(_) => panic!("an unknown service must be a not-found error"),
    }
}

#[test]
fn client_call_with_exhausted_pool_is_backpressure() {
    let mut client = VSPClient::new(None, None, Some(0), None);
    client.register_service(healthy("echo", "127.0.0.1", 9001, 1000));
    match client.call_sync(&s("echo"), &s("/x"), vec![]) {
        Err(e) => assert_eq!(e, VSPError::ConnectionExhausted),
        Ok(_) => panic!("an exhausted pool must surface backpressure"),
    }
}

#[test]
fn client_hands_out_transports_per_instance_address() {
    let mut client = VSPClient::new(None, None, Some(2), None);
    let svc = healthy("echo", "127.0.0.1", 9001, 1000);
    assert_eq!(client.get_transport_for_service(&svc), Some(0));
    assert_eq!(client.get_transport_for_service(&svc), Some(1));
    assert_eq!(
        client.get_transport_for_service(&svc),
        None,
        "the per-endpoint bound holds through the client too"
    );
    let (endpoints, conns) = client.get_stats();
    assert_eq!((endpoints, conns), (1, 2));
}

#[test]
fn client_accessors_and_cleanup() {
    let mut client = VSPClient::new(None, None, None, None);
    client.register_service(healthy("echo", "127.0.0.1", 9001, 1000));
    client.register_service(ServiceInfo::new(s("echo"), s("127.0.0.1"), 9002, None));
    assert_eq!(client.get_services(&s("echo")).len(), 1);
    let services = client.get_services(&s("echo"));
    assert_eq!(client.select_service(&services).unwrap().port(), 9001);
    client.unregister_service(s("echo"));
    assert_eq!(client.get_services(&s("echo")).len(), 0);
    assert_eq!(client.cleanup(), 0);
}

#[test]
fn manager_endpoints_and_dispatch() {
    let mut manager = VSPManager::new(s("node-a"), None, None, None, None, None);
    assert!(manager.has_client());
    assert!(!manager.is_running());
    manager.start_server(&s("0.0.0.0"), 9000);
    assert!(manager.is_running());

    manager.register_endpoint(s("/ping"), s("ping_handler"));
    manager.register_endpoint(s("/sum"), s("sum_handler"));
    manager.register_endpoint(s("/ping"), s("ping_v2"));
    let eps = manager.get_endpoints();
    assert_eq!(eps.len(), 2);
    assert!(eps.contains(&s("/ping")) && eps.contains(&s("/sum")));

    assert_eq!(manager.handle_endpoint(&s("/ping")).unwrap(), "Handled by ping_v2");
    assert_eq!(manager.handle_endpoint(&s("/sum")).unwrap(), "Handled by sum_handler");
    assert_eq!(manager.handle_endpoint(&s("/nope")).unwrap_err(), VSPError::NotFound);

    manager.register_service(healthy("node-a", "127.0.0.1", 9000, 1000));
    manager.stop_server();
    assert!(!manager.is_running());
}

#[test]
fn manager_worker_defaults() {
    let m = VSPManager::new(s("x"), None, Some(0), Some(WorkerType::Multicore), None, None);
    assert!(!m.is_running());
    let _ = m;
}
