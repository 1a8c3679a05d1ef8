use rtools::config::{Backend, Config};
use rtools::error::LBError;
use rtools::health::{health_results, healthy_backends, is_healthy, is_success, HealthResult};
use rtools::policies::RoundRobinPolicy;
use rtools::proxy::{error_response, finish_forward, handle_request, is_health_check, HandlerStep, InboundRequest, ProxyResponse};

fn backend(port: u16) -> Backend {
    Backend::new(format!("http://127.0.0.1:{}", port), String::from("/health"))
}

fn config(ports: &[u16]) -> Config {
    Config {
        healthcheck_interval_secs: 1,
        backends: ports.iter().map(|p| backend(*p)).collect(),
    }
}

fn get(path: &str) -> InboundRequest {
    InboundRequest {
        method: String::from("GET"),
        path: String::from(path),
        path_and_query: String::from(path),
        headers: vec![],
        body: vec![],
    }
}

#[test]
fn round_robin_visits_backends_in_order() {
    let mut policy = RoundRobinPolicy::new(&config(&[8081, 8082, 8083]));
    let picked: Vec<String> = (0..7).map(|_| policy.next().unwrap()).collect();
    let expected: Vec<String> = [8081, 8082, 8083, 8081, 8082, 8083, 8081]
        .iter()
        .map(|p| format!("http://127.0.0.1:{}", p))
        .collect();
    assert_eq!(picked, expected);
}

#[test]
fn select_from_snapshot_takes_cursor_modulo_length() {
    let mut policy = RoundRobinPolicy::default();
    let snapshot = vec![backend(1), backend(2)];
    let picked: Vec<String> = (0..5).map(|_| policy.select(&snapshot).unwrap().url).collect();
    assert_eq!(picked[0], "http://127.0.0.1:1");
    assert_eq!(picked[1], "http://127.0.0.1:2");
    assert_eq!(picked[4], "http://127.0.0.1:1");
}

#[test]
fn empty_registry_is_an_error_not_a_panic() {
    let mut policy = RoundRobinPolicy::new(&Config::default());
    assert_eq!(policy.next(), Err(LBError::NoBackendsAvailable));
    assert_eq!(policy.next(), Err(LBError::NoBackendsAvailable));
    assert!(policy.select(&vec![]).is_err());
}

#[test]
fn replace_then_snapshot_gives_the_new_set() {
    let mut policy = RoundRobinPolicy::new(&config(&[1, 2, 3]));
    policy.replace(vec![backend(9)]);
    let snap = policy.snapshot();
    assert_eq!(snap.len(), 1);
    assert_eq!(snap[0].url, "http://127.0.0.1:9");
    assert_eq!(policy.next().unwrap(), "http://127.0.0.1:9");
}

#[test]
fn success_statuses() {
    assert!(is_success(200));
    assert!(is_success(299));
    assert!(!is_success(199));
    assert!(!is_success(300));
    assert!(!is_success(500));
    assert!(is_healthy(Some(204)));
    assert!(!is_healthy(Some(404)));
    assert!(!is_healthy(None));
}

#[test]
fn health_cycle_keeps_only_live_backends() {
    let backends = vec![backend(1), backend(2), backend(3)];
    let results = health_results(&backends, &vec![Some(200), Some(503), None]);
    assert_eq!(results.len(), 3);
    assert!(results[0].is_healthy());
    assert!(!results[1].is_healthy());
    assert!(!results[2].is_healthy());
    let kept = healthy_backends(&results);
    assert_eq!(kept.len(), 1);
    assert_eq!(kept[0].url, "http://127.0.0.1:1");
    assert_eq!(backends[0].health_url(), "http://127.0.0.1:1/health");
}

#[test]
fn health_results_pair_up_to_the_shorter_list() {
    let backends = vec![backend(1), backend(2)];
    assert_eq!(health_results(&backends, &vec![Some(200)]).len(), 1);
}

#[test]
fn three_backends_all_healthy_in_order() {
    let cfg = config(&[8081, 8082, 8083]);
    let mut policy = RoundRobinPolicy::new(&cfg);
    let results = health_results(&cfg.backends, &vec![Some(200), Some(200), Some(200)]);
    policy.health_results(results);
    let mut hit = vec![];
    for _ in 0..4 {
        match handle_request(&mut policy, get("/")) {
            HandlerStep::Forward(out) => hit.push(out.url),
            HandlerStep::Respond(_) => panic!("expected a forward"),
        }
    }
    assert_eq!(
        hit,
        vec![
            "http://127.0.0.1:8081/",
            "http://127.0.0.1:8082/",
            "http://127.0.0.1:8083/",
            "http://127.0.0.1:8081/"
        ]
    );
}

#[test]
fn one_backend_down_after_a_probe_cycle() {
    let cfg = config(&[8081, 8082]);
    let mut policy = RoundRobinPolicy::new(&cfg);
    let results = health_results(&cfg.backends, &vec![None, Some(200)]);
    policy.health_results(results);
    for _ in 0..2 {
        match handle_request(&mut policy, get("/")) {
            HandlerStep::Forward(out) => assert_eq!(out.url, "http://127.0.0.1:8082/"),
            HandlerStep::Respond(_) => panic!("expected a forward"),
        }
    }
}

#[test]
fn post_is_forwarded_as_is_and_status_relayed() {
    let mut policy = RoundRobinPolicy::new(&config(&[8081]));
    let req = InboundRequest {
        method: String::from("POST"),
        path: String::from("/"),
        path_and_query: String::from("/?a=1"),
        headers: vec![(String::from("content-type"), String::from("application/json"))],
        body: b"{}".to_vec(),
    };
    let out = match handle_request(&mut policy, req) {
        HandlerStep::Forward(out) => out,
        HandlerStep::Respond(_) => panic!("expected a forward"),
    };
    assert_eq!(out.method, "POST");
    assert_eq!(out.url, "http://127.0.0.1:8081/?a=1");
    assert_eq!(out.body, b"{}".to_vec());
    assert_eq!(out.headers.len(), 1);
    let upstream = ProxyResponse { status: 201, headers: vec![], body: b"made".to_vec() };
    let relayed = finish_forward(Some(upstream));
    assert_eq!(relayed.status, 201);
    assert_eq!(relayed.body, b"made".to_vec());
}

#[test]
fn no_backends_gives_service_unavailable() {
    let mut policy = RoundRobinPolicy::new(&Config::default());
    match handle_request(&mut policy, get("/anything")) {
        HandlerStep::Respond(resp) => {
            assert_eq!(resp.status, 503);
            assert_eq!(resp.body, b"no backend available".to_vec());
        }
        HandlerStep::Forward(_) => panic!("expected a response"),
    }
}

#[test]
fn health_endpoint_is_answered_locally() {
    let mut policy = RoundRobinPolicy::new(&Config::default());
    match handle_request(&mut policy, get("/health")) {
        HandlerStep::Respond(resp) => assert_eq!(resp.status, 200),
        HandlerStep::Forward(_) => panic!("expected a response"),
    }
    assert!(is_health_check("GET", "/health"));
    assert!(!is_health_check("POST", "/health"));
    assert!(!is_health_check("GET", "/healthz"));
}

#[test]
fn upstream_failure_response() {
    let resp = finish_forward(None);
    assert_eq!(resp.status, 500);
    assert_eq!(resp.body, b"backend error".to_vec());
    assert_eq!(error_response(&LBError::InvalidConfig).status, 500);
    let missing = LBError::MissingConfigurationFile { config_file_path: String::from("lb.toml") };
    assert_eq!(missing.message(), "Configuration file not found at \"lb.toml\"");
    assert_eq!(LBError::NoBackendsAvailable.status_code(), 503);
}

#[test]
fn health_result_accessors() {
    let r = HealthResult::new(backend(5), true);
    assert!(r.is_healthy());
    assert_eq!(r.backend.url, "http://127.0.0.1:5");
    assert_eq!(Config::default().healthcheck_interval_secs, 30);
    assert_eq!(config(&[1, 2]).clone().backends.len(), 2);
}
